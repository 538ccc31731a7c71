//! The closure of a set of items under epsilon moves, and the order in
//! which the items of a state are kept.

use crate::first::first1_spec;
use crate::grammar::{Grammar, Symbol};
use crate::item::{
    item_views, lemma_item_lt_irreflexive, lemma_item_lt_transitive, lemma_item_trichotomy, Item,
    ItemView,
};
use crate::lookahead::Lookahead;
use vstd::prelude::*;

verus! {

/// The lookahead of the items that an epsilon move adds, when the item that
/// causes the move has `remainder` behind the nonterminal behind its dot and
/// carries `la`: with tokens, the tokens that can begin what `remainder`
/// followed by `la` derives; without, nothing.
pub open spec fn eps_lookahead(
    g: Grammar,
    with_tokens: bool,
    remainder: Seq<Symbol>,
    la: Seq<bool>,
) -> Seq<bool> {
    if with_tokens {
        first1_spec(g, remainder, la)
    } else {
        Seq::empty()
    }
}

/// `child` is added by an epsilon move from `parent`: the dot of `parent`
/// stands before the nonterminal of the production of `child`, whose dot is
/// at the start.
pub open spec fn eps_step(g: Grammar, with_tokens: bool, parent: ItemView, child: ItemView) -> bool {
    &&& g.is_production(child.production)
    &&& parent.shifts_over(g, Symbol::Nonterminal(g.productions@[child.production].nonterminal))
    &&& child.index == 0
    &&& child.lookahead == eps_lookahead(g, with_tokens, parent.remainder(g), parent.lookahead)
}

/// `it` is reached from an item of `seed` by `n` epsilon moves.
pub open spec fn reaches(
    g: Grammar,
    with_tokens: bool,
    seed: Seq<ItemView>,
    it: ItemView,
    n: nat,
) -> bool
    decreases n,
{
    if n == 0 {
        seed.contains(it)
    } else {
        exists|parent: ItemView|
            reaches(g, with_tokens, seed, parent, (n - 1) as nat) && #[trigger] eps_step(
                g,
                with_tokens,
                parent,
                it,
            )
    }
}

/// `it` is in the closure of `seed`: it is reached from an item of `seed` by
/// some number of epsilon moves.
pub open spec fn in_closure(g: Grammar, with_tokens: bool, seed: Seq<ItemView>, it: ItemView) -> bool {
    exists|n: nat| reaches(g, with_tokens, seed, it, n)
}

/// Each item comes before all that follow it.
pub open spec fn strictly_sorted(s: Seq<ItemView>) -> bool {
    forall|i: int, j: int| 0 <= i < j < s.len() ==> (#[trigger] s[i]).lt(#[trigger] s[j])
}

/// All items belong to the grammar and have lookaheads of the width of the
/// construction.
pub open spec fn all_ok(g: Grammar, with_tokens: bool, s: Seq<ItemView>) -> bool {
    forall|i: int| 0 <= i < s.len() ==> (#[trigger] s[i]).ok(g, with_tokens)
}

/// `c` is the closure of `seed`: it holds exactly the items in the closure,
/// each once, in the order of items.
pub open spec fn is_closure_of(
    g: Grammar,
    with_tokens: bool,
    c: Seq<ItemView>,
    seed: Seq<ItemView>,
) -> bool {
    &&& strictly_sorted(c)
    &&& forall|it: ItemView| #[trigger] c.contains(it) <==> in_closure(g, with_tokens, seed, it)
}

/// The closure of `seed`, in the order of items.
pub open spec fn closure_items(g: Grammar, with_tokens: bool, seed: Seq<ItemView>) -> Seq<ItemView> {
    choose|c: Seq<ItemView>| is_closure_of(g, with_tokens, c, seed)
}

/// Two sequences in the order of items that hold the same items are equal.
pub proof fn lemma_sorted_unique(a: Seq<ItemView>, b: Seq<ItemView>)
    requires
        strictly_sorted(a),
        strictly_sorted(b),
        forall|it: ItemView| #[trigger] a.contains(it) <==> b.contains(it),
    ensures
        a == b,
    decreases a.len(),
{
    if a.len() == 0 {
        if b.len() > 0 {
            assert(b.contains(b[0]));
            assert(a.contains(b[0]));
        }
        assert(a =~= b);
    } else {
        let m = a.last();
        assert(a.contains(m));
        assert(b.contains(m));
        let j = choose|j: int| 0 <= j < b.len() && b[j] == m;
        if j < b.len() - 1 {
            let m2 = b.last();
            assert(b[j].lt(b[b.len() - 1]));
            assert(b.contains(m2));
            assert(a.contains(m2));
            let i = choose|i: int| 0 <= i < a.len() && a[i] == m2;
            if i < a.len() - 1 {
                assert(a[i].lt(a[a.len() - 1]));
                lemma_item_lt_transitive(m, m2, m);
            }
            lemma_item_lt_irreflexive(m);
            assert(false);
        }
        let a1 = a.drop_last();
        let b1 = b.drop_last();
        assert forall|it: ItemView| #[trigger] a1.contains(it) <==> b1.contains(it) by {
            if a1.contains(it) {
                let i = choose|i: int| 0 <= i < a1.len() && a1[i] == it;
                assert(a[i].lt(a[a.len() - 1]));
                assert(a.contains(it));
                assert(b.contains(it));
                let k = choose|k: int| 0 <= k < b.len() && b[k] == it;
                if k == b.len() - 1 {
                    lemma_item_lt_irreflexive(m);
                }
                assert(b1[k] == it);
            }
            if b1.contains(it) {
                let k = choose|k: int| 0 <= k < b1.len() && b1[k] == it;
                assert(b[k].lt(b[b.len() - 1]));
                assert(b.contains(it));
                assert(a.contains(it));
                let i = choose|i: int| 0 <= i < a.len() && a[i] == it;
                if i == a.len() - 1 {
                    lemma_item_lt_irreflexive(m);
                }
                assert(a1[i] == it);
            }
        }
        lemma_sorted_unique(a1, b1);
        assert(a =~= a1.push(m));
        assert(b =~= b1.push(m));
    }
}

/// What satisfies `is_closure_of` is the closure.
pub proof fn lemma_closure_unique(g: Grammar, with_tokens: bool, c: Seq<ItemView>, seed: Seq<ItemView>)
    requires
        is_closure_of(g, with_tokens, c, seed),
    ensures
        c == closure_items(g, with_tokens, seed),
{
    let d = closure_items(g, with_tokens, seed);
    assert(is_closure_of(g, with_tokens, d, seed));
    lemma_sorted_unique(c, d);
}

/// An item reached from a larger seed in `n` moves: every item reached from
/// `a` is reached from `b` when `b` holds the items of `a`.
pub proof fn lemma_reaches_monotone(
    g: Grammar,
    with_tokens: bool,
    a: Seq<ItemView>,
    b: Seq<ItemView>,
    it: ItemView,
    n: nat,
)
    requires
        forall|x: ItemView| #[trigger] a.contains(x) ==> b.contains(x),
        reaches(g, with_tokens, a, it, n),
    ensures
        reaches(g, with_tokens, b, it, n),
    decreases n,
{
    if n > 0 {
        let parent = choose|parent: ItemView|
            reaches(g, with_tokens, a, parent, (n - 1) as nat) && #[trigger] eps_step(
                g,
                with_tokens,
                parent,
                it,
            );
        lemma_reaches_monotone(g, with_tokens, a, b, parent, (n - 1) as nat);
    }
}

/// An item added by an epsilon move from an item in the closure is in the
/// closure.
pub proof fn lemma_closure_step(
    g: Grammar,
    with_tokens: bool,
    seed: Seq<ItemView>,
    parent: ItemView,
    child: ItemView,
)
    requires
        in_closure(g, with_tokens, seed, parent),
        eps_step(g, with_tokens, parent, child),
    ensures
        in_closure(g, with_tokens, seed, child),
{
    let n = choose|n: nat| reaches(g, with_tokens, seed, parent, n);
    assert(reaches(g, with_tokens, seed, parent, ((n + 1) - 1) as nat));
    assert(reaches(g, with_tokens, seed, child, n + 1));
}

/// Every item of the seed is in the closure.
pub proof fn lemma_closure_holds_seed(g: Grammar, with_tokens: bool, seed: Seq<ItemView>, it: ItemView)
    requires
        seed.contains(it),
    ensures
        in_closure(g, with_tokens, seed, it),
{
    assert(reaches(g, with_tokens, seed, it, 0));
}

/// An item in the closure is in the seed or has its dot at the start.
pub proof fn lemma_closure_adds_fresh_items(
    g: Grammar,
    with_tokens: bool,
    seed: Seq<ItemView>,
    it: ItemView,
)
    requires
        in_closure(g, with_tokens, seed, it),
    ensures
        seed.contains(it) || it.index == 0,
{
    let n = choose|n: nat| reaches(g, with_tokens, seed, it, n);
    if n > 0 {
        let parent = choose|parent: ItemView|
            reaches(g, with_tokens, seed, parent, (n - 1) as nat) && #[trigger] eps_step(
                g,
                with_tokens,
                parent,
                it,
            );
    }
}

/// A set of items that holds the seed and every item that an epsilon move
/// adds to one of its own holds the closure.
pub proof fn lemma_closed_holds_closure(
    g: Grammar,
    with_tokens: bool,
    seed: Seq<ItemView>,
    c: Seq<ItemView>,
    it: ItemView,
    n: nat,
)
    requires
        forall|x: ItemView| #[trigger] seed.contains(x) ==> c.contains(x),
        forall|parent: ItemView, child: ItemView|
            c.contains(parent) && #[trigger] eps_step(g, with_tokens, parent, child) ==> c.contains(
                child,
            ),
        reaches(g, with_tokens, seed, it, n),
    ensures
        c.contains(it),
    decreases n,
{
    if n > 0 {
        let parent = choose|parent: ItemView|
            reaches(g, with_tokens, seed, parent, (n - 1) as nat) && #[trigger] eps_step(
                g,
                with_tokens,
                parent,
                it,
            );
        lemma_closed_holds_closure(g, with_tokens, seed, c, parent, (n - 1) as nat);
    }
}

/// The closure of a closure is that closure.
pub proof fn lemma_closure_idempotent(
    g: Grammar,
    with_tokens: bool,
    seed: Seq<ItemView>,
    c: Seq<ItemView>,
)
    requires
        is_closure_of(g, with_tokens, c, seed),
    ensures
        is_closure_of(g, with_tokens, c, c),
        closure_items(g, with_tokens, closure_items(g, with_tokens, seed)) == closure_items(
            g,
            with_tokens,
            seed,
        ),
{
    assert forall|it: ItemView| #[trigger] c.contains(it) <==> in_closure(g, with_tokens, c, it) by {
        if c.contains(it) {
            lemma_closure_holds_seed(g, with_tokens, c, it);
        }
        if in_closure(g, with_tokens, c, it) {
            let n = choose|n: nat| reaches(g, with_tokens, c, it, n);
            assert forall|parent: ItemView, child: ItemView|
                c.contains(parent) && #[trigger] eps_step(
                    g,
                    with_tokens,
                    parent,
                    child,
                ) implies c.contains(child) by {
                lemma_closure_step(g, with_tokens, seed, parent, child);
            }
            lemma_closed_holds_closure(g, with_tokens, c, c, it, n);
        }
    }
    lemma_closure_unique(g, with_tokens, c, seed);
    lemma_closure_unique(g, with_tokens, c, c);
}

/// The items of `s` whose dot is not at the start, in order.
pub open spec fn kernel_part(s: Seq<ItemView>) -> Seq<ItemView>
    decreases s.len(),
{
    if s.len() == 0 {
        Seq::empty()
    } else if s.last().index > 0 {
        kernel_part(s.drop_last()).push(s.last())
    } else {
        kernel_part(s.drop_last())
    }
}

/// `kernel_part` keeps the order and holds exactly the items with the dot
/// not at the start.
pub proof fn lemma_kernel_part(s: Seq<ItemView>)
    requires
        strictly_sorted(s),
    ensures
        strictly_sorted(kernel_part(s)),
        forall|it: ItemView| #[trigger]
            kernel_part(s).contains(it) <==> s.contains(it) && it.index > 0,
    decreases s.len(),
{
    if s.len() > 0 {
        let h = s.drop_last();
        let m = s.last();
        lemma_kernel_part(h);
        let kh = kernel_part(h);
        let k = kernel_part(s);
        assert forall|it: ItemView| #[trigger] k.contains(it) <==> s.contains(it) && it.index
            > 0 by {
            if k.contains(it) {
                let i = choose|i: int| 0 <= i < k.len() && k[i] == it;
                if i < kh.len() {
                    assert(kh[i] == it);
                    assert(kh.contains(it));
                    let j = choose|j: int| 0 <= j < h.len() && h[j] == it;
                    assert(s[j] == it);
                } else {
                    assert(it == m);
                    assert(s[s.len() - 1] == it);
                }
            }
            if s.contains(it) && it.index > 0 {
                let j = choose|j: int| 0 <= j < s.len() && s[j] == it;
                if j < h.len() {
                    assert(h[j] == it);
                    assert(h.contains(it));
                    assert(kh.contains(it));
                    let i = choose|i: int| 0 <= i < kh.len() && kh[i] == it;
                    assert(k[i] == it);
                } else {
                    assert(k[k.len() - 1] == it);
                }
            }
        }
        assert forall|i: int, j: int| 0 <= i < j < k.len() implies (#[trigger] k[i]).lt(
            #[trigger] k[j],
        ) by {
            if j < kh.len() {
                assert(kh[i].lt(kh[j]));
            } else {
                assert(kh[i] == k[i]);
                assert(kh.contains(k[i]));
                let x = choose|x: int| 0 <= x < h.len() && h[x] == k[i];
                assert(s[x].lt(s[s.len() - 1]));
            }
        }
    }
}

/// The kernel of a state is found again in its closure: of the closure of
/// items that all have the dot past the start, the items with the dot past
/// the start are the seed.
pub proof fn lemma_kernel_of_closure(
    g: Grammar,
    with_tokens: bool,
    seed: Seq<ItemView>,
    c: Seq<ItemView>,
)
    requires
        is_closure_of(g, with_tokens, c, seed),
        strictly_sorted(seed),
        forall|i: int| 0 <= i < seed.len() ==> (#[trigger] seed[i]).index > 0,
    ensures
        kernel_part(c) == seed,
{
    lemma_kernel_part(c);
    assert forall|it: ItemView| #[trigger] kernel_part(c).contains(it) <==> seed.contains(it) by {
        if kernel_part(c).contains(it) {
            lemma_closure_adds_fresh_items(g, with_tokens, seed, it);
        }
        if seed.contains(it) {
            lemma_closure_holds_seed(g, with_tokens, seed, it);
        }
    }
    lemma_sorted_unique(kernel_part(c), seed);
}

/// The items with dot `index` and lookahead `la` for the productions of
/// `nt` below `n`, in the order of the productions.
pub open spec fn items_upto(g: Grammar, nt: int, index: int, la: Seq<bool>, n: int) -> Seq<ItemView>
    decreases n,
{
    if n <= 0 {
        Seq::empty()
    } else if g.lhs(n - 1) == nt {
        items_upto(g, nt, index, la, n - 1).push(
            ItemView { production: n - 1, index: index, lookahead: la },
        )
    } else {
        items_upto(g, nt, index, la, n - 1)
    }
}

/// The items with dot `index` and lookahead `la` for all productions of
/// `nt`, in the order of the productions.
pub open spec fn items_spec(g: Grammar, nt: int, index: int, la: Seq<bool>) -> Seq<ItemView> {
    items_upto(g, nt, index, la, g.num_productions())
}

/// `items_upto` holds one item for each production of `nt` below `n`, in
/// the order of items.
pub proof fn lemma_items_upto(g: Grammar, nt: int, index: int, la: Seq<bool>, n: int)
    requires
        0 <= n <= g.num_productions(),
    ensures
        forall|it: ItemView| #[trigger]
            items_upto(g, nt, index, la, n).contains(it) <==> (0 <= it.production < n && g.lhs(
                it.production,
            ) == nt && it.index == index && it.lookahead == la),
        strictly_sorted(items_upto(g, nt, index, la, n)),
    decreases n,
{
    if n > 0 {
        lemma_items_upto(g, nt, index, la, n - 1);
        let prev = items_upto(g, nt, index, la, n - 1);
        let cur = items_upto(g, nt, index, la, n);
        let last = ItemView { production: n - 1, index: index, lookahead: la };
        assert forall|it: ItemView| #[trigger] cur.contains(it) <==> (0 <= it.production < n
            && g.lhs(it.production) == nt && it.index == index && it.lookahead == la) by {
            if cur.contains(it) {
                let i = choose|i: int| 0 <= i < cur.len() && cur[i] == it;
                if i < prev.len() {
                    assert(prev[i] == it);
                    assert(prev.contains(it));
                }
            }
            if 0 <= it.production < n && g.lhs(it.production) == nt && it.index == index
                && it.lookahead == la {
                if it.production == n - 1 {
                    assert(cur[cur.len() - 1] == it);
                } else {
                    assert(prev.contains(it));
                    let i = choose|i: int| 0 <= i < prev.len() && prev[i] == it;
                    assert(cur[i] == it);
                }
            }
        }
        assert forall|i: int, j: int| 0 <= i < j < cur.len() implies (#[trigger] cur[i]).lt(
            #[trigger] cur[j],
        ) by {
            if j < prev.len() {
                assert(prev[i].lt(prev[j]));
            } else {
                assert(prev[i] == cur[i]);
                assert(prev.contains(cur[i]));
            }
        }
    }
}

/// The items that an epsilon move adds are those of the nonterminal behind
/// the dot.
pub proof fn lemma_eps_step_items(g: Grammar, with_tokens: bool, parent: ItemView, nt: usize)
    requires
        parent.shifts_over(g, Symbol::Nonterminal(nt)),
    ensures
        forall|child: ItemView| #[trigger]
            eps_step(g, with_tokens, parent, child) <==> items_spec(
                g,
                nt as int,
                0,
                eps_lookahead(g, with_tokens, parent.remainder(g), parent.lookahead),
            ).contains(child),
{
    let la = eps_lookahead(g, with_tokens, parent.remainder(g), parent.lookahead);
    lemma_items_upto(g, nt as int, 0, la, g.num_productions());
}

/// The items with dot `index` and a copy of `lookahead` for the productions
/// of `nt`, in the order of the productions.
pub fn items<L: Lookahead>(grammar: &Grammar, nt: usize, index: usize, lookahead: &L) -> (r: Vec<
    Item<L>,
>)
    ensures
        item_views(r@) == items_spec(*grammar, nt as int, index as int, lookahead.bits()),
{
    let mut out: Vec<Item<L>> = Vec::new();
    let mut p: usize = 0;
    while p < grammar.productions.len()
        invariant
            p <= grammar.num_productions(),
            item_views(out@) == items_upto(
                *grammar,
                nt as int,
                index as int,
                lookahead.bits(),
                p as int,
            ),
        decreases grammar.num_productions() - p,
    {
        if grammar.productions[p].nonterminal == nt {
            let ghost before = item_views(out@);
            out.push(Item { production: p, index, lookahead: lookahead.dup() });
            assert(item_views(out@) =~= before.push(
                ItemView { production: p as int, index: index as int, lookahead: lookahead.bits() },
            ));
        }
        p += 1;
    }
    out
}

/// Whether `v` holds an item equal to `x`.
pub fn holds_item<L: Lookahead>(v: &Vec<Item<L>>, x: &Item<L>) -> (b: bool)
    ensures
        b == item_views(v@).contains(x@),
{
    let mut i: usize = 0;
    while i < v.len()
        invariant
            i <= v@.len(),
            forall|j: int| 0 <= j < i ==> item_views(v@)[j] != x@,
        decreases v@.len() - i,
    {
        if v[i].same(x) {
            assert(item_views(v@)[i as int] == x@);
            return true;
        }
        i += 1;
    }
    false
}

/// The items of `v`, each once, in the order of items.
pub fn sort_dedup<L: Lookahead>(v: Vec<Item<L>>) -> (r: Vec<Item<L>>)
    requires
        forall|i: int, j: int|
            0 <= i < v@.len() && 0 <= j < v@.len() ==> (#[trigger] item_views(
                v@,
            )[i]).lookahead.len() == (#[trigger] item_views(v@)[j]).lookahead.len(),
    ensures
        strictly_sorted(item_views(r@)),
        forall|it: ItemView| #[trigger]
            item_views(r@).contains(it) <==> item_views(v@).contains(it),
{
    let ghost orig = item_views(v@);
    let mut v = v;
    let mut out: Vec<Item<L>> = Vec::new();
    while v.len() > 0
        invariant
            strictly_sorted(item_views(out@)),
            forall|i: int| 0 <= i < v@.len() ==> orig.contains(#[trigger] item_views(v@)[i]),
            forall|i: int| 0 <= i < out@.len() ==> orig.contains(#[trigger] item_views(out@)[i]),
            forall|it: ItemView| #[trigger]
                orig.contains(it) ==> item_views(v@).contains(it) || item_views(out@).contains(it),
            forall|i: int, j: int|
                0 <= i < orig.len() && 0 <= j < orig.len() ==> (#[trigger] orig[i]).lookahead.len()
                    == (#[trigger] orig[j]).lookahead.len(),
        decreases v@.len(),
    {
        let ghost v0 = item_views(v@);
        let ghost out0 = item_views(out@);
        let x = v.pop().unwrap();
        assert(v0.last() == x@);
        assert(item_views(v@) =~= v0.drop_last());
        assert(orig.contains(x@)) by {
            assert(orig.contains(v0[v0.len() - 1]));
        }
        // the place of the first item that does not come before `x`
        let mut p: usize = 0;
        while p < out.len() && out[p].before(&x)
            invariant
                p <= out@.len(),
                out0 == item_views(out@),
                forall|j: int| 0 <= j < p ==> (#[trigger] out0[j]).lt(x@),
            decreases out@.len() - p,
        {
            p += 1;
        }
        let present = p < out.len() && out[p].same(&x);
        if !present {
            proof {
                if p < out0.len() {
                    let y = out0[p as int];
                    assert(orig.contains(y));
                    let a = choose|a: int| 0 <= a < orig.len() && orig[a] == x@;
                    let b = choose|b: int| 0 <= b < orig.len() && orig[b] == y;
                    assert(orig[a].lookahead.len() == orig[b].lookahead.len());
                    lemma_item_trichotomy(x@, y);
                    assert(x@.lt(y));
                    assert forall|j: int| p < j < out0.len() implies x@.lt(#[trigger] out0[j]) by {
                        assert(out0[p as int].lt(out0[j]));
                        lemma_item_lt_transitive(x@, y, out0[j]);
                    }
                }
            }
            out.insert(p, x);
            proof {
                let out1 = item_views(out@);
                assert(out1 =~= out0.insert(p as int, x@));
                assert forall|i: int, j: int| 0 <= i < j < out1.len() implies (#[trigger] out1[i]).lt(
                    #[trigger] out1[j],
                ) by {
                    if j < p {
                        assert(out0[i].lt(out0[j]));
                    } else if j == p {
                        assert(out0[i].lt(x@));
                    } else if i < p {
                        assert(out0[i].lt(out0[j - 1]));
                    } else if i == p {
                        assert(x@.lt(out0[j - 1]));
                    } else {
                        assert(out0[i - 1].lt(out0[j - 1]));
                    }
                }
                assert forall|i: int| 0 <= i < out1.len() implies orig.contains(
                    #[trigger] out1[i],
                ) by {
                    if i < p {
                        assert(out1[i] == out0[i]);
                    } else if i > p {
                        assert(out1[i] == out0[i - 1]);
                    }
                }
                assert forall|it: ItemView| #[trigger] orig.contains(it) implies item_views(
                    v@,
                ).contains(it) || out1.contains(it) by {
                    if out0.contains(it) {
                        let k = choose|k: int| 0 <= k < out0.len() && out0[k] == it;
                        if k < p {
                            assert(out1[k] == it);
                        } else {
                            assert(out1[k + 1] == it);
                        }
                    } else if v0.contains(it) {
                        let k = choose|k: int| 0 <= k < v0.len() && v0[k] == it;
                        if k == v0.len() - 1 {
                            assert(out1[p as int] == it);
                        } else {
                            assert(item_views(v@)[k] == it);
                        }
                    }
                }
            }
        } else {
            proof {
                assert forall|it: ItemView| #[trigger] orig.contains(it) implies item_views(
                    v@,
                ).contains(it) || out0.contains(it) by {
                    if !out0.contains(it) {
                        let k = choose|k: int| 0 <= k < v0.len() && v0[k] == it;
                        if k == v0.len() - 1 {
                            assert(out0[p as int] == it);
                        } else {
                            assert(item_views(v@)[k] == it);
                        }
                    }
                }
            }
        }
    }
    proof {
        assert forall|it: ItemView| #[trigger] item_views(out@).contains(it) <==> orig.contains(
            it,
        ) by {
            if orig.contains(it) {
                assert(!item_views(v@).contains(it));
            }
        }
    }
    out
}

} // verus!
