//! The kernel of the state that is entered from a state over one symbol.

use crate::closure::{all_ok, strictly_sorted};
use crate::grammar::{Grammar, Symbol};
use crate::item::{item_views, la_len, Item, ItemView};
use crate::kernel_set::all_past_start;
use crate::lookahead::Lookahead;
use crate::token_set::{bits_has, bits_or};
use vstd::prelude::*;

verus! {

/// `k` with `it` taken in: where the last item of `k` has the production and
/// dot of `it`, the lookahead of `it` is joined into it; else `it` is put at
/// the end.
pub open spec fn absorb(k: Seq<ItemView>, it: ItemView) -> Seq<ItemView> {
    if k.len() > 0 && k.last().same_core(it) {
        k.drop_last().push(
            ItemView {
                production: k.last().production,
                index: k.last().index,
                lookahead: bits_or(k.last().lookahead, it.lookahead),
            },
        )
    } else {
        k.push(it)
    }
}

/// The successor kernel over `x` as far as the first `n` items make it: each
/// of them with its dot before `x` is taken in with the dot moved over `x`.
pub open spec fn successor_upto(g: Grammar, items: Seq<ItemView>, x: Symbol, n: int) -> Seq<ItemView>
    decreases n,
{
    if n <= 0 {
        Seq::empty()
    } else if items[n - 1].shifts_over(g, x) {
        absorb(successor_upto(g, items, x, n - 1), items[n - 1].advanced())
    } else {
        successor_upto(g, items, x, n - 1)
    }
}

/// The kernel of the state that is entered from a state with these items
/// over `x`: the items with the dot before `x`, with the dot moved over it,
/// and those that differ in lookahead alone joined into one.  Empty when no
/// item has its dot before `x`.
pub open spec fn successor_kernel(g: Grammar, items: Seq<ItemView>, x: Symbol) -> Seq<ItemView> {
    successor_upto(g, items, x, items.len() as int)
}

/// Each item comes before all that follow it by production and dot alone.
pub open spec fn core_sorted(s: Seq<ItemView>) -> bool {
    forall|i: int, j: int| 0 <= i < j < s.len() ==> (#[trigger] s[i]).core_lt(#[trigger] s[j])
}

/// Item `j` has its dot before `x` and, with the dot moved, the production
/// and dot of `k`.
pub open spec fn feeds(g: Grammar, items: Seq<ItemView>, x: Symbol, j: int, k: ItemView) -> bool {
    &&& 0 <= j < items.len()
    &&& items[j].shifts_over(g, x)
    &&& items[j].advanced().same_core(k)
}

/// One of the first `n` items feeds `k`.
pub open spec fn fed(g: Grammar, items: Seq<ItemView>, x: Symbol, n: int, k: ItemView) -> bool {
    exists|j: int| j < n && #[trigger] feeds(g, items, x, j, k)
}

/// Of the first `n` items, one with token `t` in its lookahead feeds `k`.
pub open spec fn fed_token(
    g: Grammar,
    items: Seq<ItemView>,
    x: Symbol,
    n: int,
    k: ItemView,
    t: int,
) -> bool {
    exists|j: int| j < n && #[trigger] feeds(g, items, x, j, k) && bits_has(items[j].lookahead, t)
}

/// `k` holds an item with the production and dot of `a`.
pub open spec fn has_core(k: Seq<ItemView>, a: ItemView) -> bool {
    exists|i: int| 0 <= i < k.len() && (#[trigger] k[i]).same_core(a)
}

/// The shape of a successor kernel `k` made from the first `n` items: it is
/// in the order of productions and dots, with each production and dot once;
/// its items belong to the grammar and have the dot past the start; and each
/// is fed by one of the `n` items.
pub open spec fn successor_shape(
    g: Grammar,
    with_tokens: bool,
    items: Seq<ItemView>,
    x: Symbol,
    n: int,
    k: Seq<ItemView>,
) -> bool {
    &&& core_sorted(k)
    &&& all_ok(g, with_tokens, k)
    &&& all_past_start(k)
    &&& forall|i: int| 0 <= i < k.len() ==> fed(g, items, x, n, #[trigger] k[i])
}

/// Each of the first `n` items with the dot before `x` has, with the dot
/// moved, its production and dot in `k`.
pub open spec fn successor_covers(
    g: Grammar,
    items: Seq<ItemView>,
    x: Symbol,
    n: int,
    k: Seq<ItemView>,
) -> bool {
    forall|j: int|
        0 <= j < n && (#[trigger] items[j]).shifts_over(g, x) ==> has_core(k, items[j].advanced())
}

/// The lookahead of each item of `k` holds exactly the tokens of those of
/// the first `n` items that feed it.
pub open spec fn successor_tokens(
    g: Grammar,
    items: Seq<ItemView>,
    x: Symbol,
    n: int,
    k: Seq<ItemView>,
) -> bool {
    forall|i: int, t: int|
        0 <= i < k.len() ==> (#[trigger] bits_has(k[i].lookahead, t) <==> fed_token(
            g,
            items,
            x,
            n,
            k[i],
            t,
        ))
}

/// What `absorb` gives.
proof fn lemma_absorb(k: Seq<ItemView>, a: ItemView)
    ensures
        k.len() > 0 && k.last().same_core(a) ==> {
            &&& absorb(k, a).len() == k.len()
            &&& forall|i: int| 0 <= i < k.len() - 1 ==> #[trigger] absorb(k, a)[i] == k[i]
            &&& absorb(k, a)[k.len() - 1] == ItemView {
                production: k[k.len() - 1].production,
                index: k[k.len() - 1].index,
                lookahead: bits_or(k[k.len() - 1].lookahead, a.lookahead),
            }
        },
        !(k.len() > 0 && k.last().same_core(a)) ==> {
            &&& absorb(k, a).len() == k.len() + 1
            &&& forall|i: int| 0 <= i < k.len() ==> #[trigger] absorb(k, a)[i] == k[i]
            &&& absorb(k, a)[k.len() as int] == a
        },
{
}

/// An item fed by one of the first `n` items has its production and dot at
/// or before those of every later item with the dot moved.
proof fn lemma_fed_core_before(
    g: Grammar,
    items: Seq<ItemView>,
    x: Symbol,
    n: int,
    k: ItemView,
    m: int,
)
    requires
        strictly_sorted(items),
        fed(g, items, x, n, k),
        n <= m < items.len(),
    ensures
        k.same_core(items[m].advanced()) || k.core_lt(items[m].advanced()),
{
    let j = choose|j: int| j < n && #[trigger] feeds(g, items, x, j, k);
    assert(items[j].lt(items[m]));
}

/// The successor kernel has the shape of one.
pub proof fn lemma_successor_shape(
    g: Grammar,
    with_tokens: bool,
    items: Seq<ItemView>,
    x: Symbol,
    n: int,
)
    requires
        strictly_sorted(items),
        all_ok(g, with_tokens, items),
        0 <= n <= items.len(),
    ensures
        successor_shape(g, with_tokens, items, x, n, successor_upto(g, items, x, n)),
    decreases n,
{
    let cur = successor_upto(g, items, x, n);
    if n > 0 {
        lemma_successor_shape(g, with_tokens, items, x, n - 1);
        let prev = successor_upto(g, items, x, n - 1);
        let src = items[n - 1];
        assert(src.ok(g, with_tokens));
        assert forall|i: int| 0 <= i < prev.len() implies fed(g, items, x, n, #[trigger] prev[i]) by {
            let pi = prev[i];
            assert(fed(g, items, x, n - 1, pi));
            let j = choose|j: int| j < n - 1 && #[trigger] feeds(g, items, x, j, pi);
            assert(j < n && feeds(g, items, x, j, pi));
        }
        if src.shifts_over(g, x) {
            let a = src.advanced();
            lemma_absorb(prev, a);
            assert(feeds(g, items, x, n - 1, a));
            assert(fed(g, items, x, n, a));
            if prev.len() > 0 {
                let last = prev.len() - 1;
                let pl = prev[last];
                assert(fed(g, items, x, n - 1, pl));
                lemma_fed_core_before(g, items, x, n - 1, pl, n - 1);
                assert(pl.ok(g, with_tokens));
                assert(pl.index > 0);
                if pl.same_core(a) {
                    assert(feeds(g, items, x, n - 1, cur[last]));
                    assert forall|i: int| 0 <= i < cur.len() implies (#[trigger] cur[i]).ok(
                        g,
                        with_tokens,
                    ) && cur[i].index > 0 && fed(g, items, x, n, cur[i]) by {
                        if i < last {
                            assert(cur[i] == prev[i]);
                        }
                    }
                    assert forall|i: int, j: int| 0 <= i < j < cur.len() implies (#[trigger] cur[i]).core_lt(
                        #[trigger] cur[j],
                    ) by {
                        assert(prev[i].core_lt(prev[j]));
                        assert(cur[i].same_core(prev[i]));
                        assert(cur[j].same_core(prev[j]));
                    }
                } else {
                    assert forall|i: int| 0 <= i < cur.len() implies (#[trigger] cur[i]).ok(
                        g,
                        with_tokens,
                    ) && cur[i].index > 0 && fed(g, items, x, n, cur[i]) by {
                        if i < prev.len() {
                            assert(cur[i] == prev[i]);
                        }
                    }
                    assert forall|i: int, j: int| 0 <= i < j < cur.len() implies (#[trigger] cur[i]).core_lt(
                        #[trigger] cur[j],
                    ) by {
                        if j < prev.len() {
                            assert(prev[i].core_lt(prev[j]));
                        } else if i < last {
                            assert(prev[i].core_lt(prev[last]));
                        }
                    }
                }
            } else {
                assert(cur.len() == 1);
                assert(cur[0] == a);
            }
        } else {
            assert(cur == prev);
        }
    }
}

/// The successor kernel covers every item with the dot before `x`.
pub proof fn lemma_successor_covers(g: Grammar, items: Seq<ItemView>, x: Symbol, n: int)
    requires
        0 <= n <= items.len(),
    ensures
        successor_covers(g, items, x, n, successor_upto(g, items, x, n)),
    decreases n,
{
    let cur = successor_upto(g, items, x, n);
    if n > 0 {
        lemma_successor_covers(g, items, x, n - 1);
        let prev = successor_upto(g, items, x, n - 1);
        let src = items[n - 1];
        if src.shifts_over(g, x) {
            let a = src.advanced();
            lemma_absorb(prev, a);
            assert forall|j: int|
                0 <= j < n && (#[trigger] items[j]).shifts_over(g, x) implies has_core(
                cur,
                items[j].advanced(),
            ) by {
                if j == n - 1 {
                    let last = cur.len() - 1;
                    assert(cur[last].same_core(a));
                } else {
                    assert(has_core(prev, items[j].advanced()));
                    let i = choose|i: int|
                        0 <= i < prev.len() && (#[trigger] prev[i]).same_core(items[j].advanced());
                    assert(cur[i].same_core(prev[i]));
                }
            }
        } else {
            assert(cur == prev);
        }
    }
}

/// The lookaheads of the successor kernel are the unions of the lookaheads
/// of the items that feed it.
pub proof fn lemma_successor_tokens(
    g: Grammar,
    with_tokens: bool,
    items: Seq<ItemView>,
    x: Symbol,
    n: int,
)
    requires
        strictly_sorted(items),
        all_ok(g, with_tokens, items),
        0 <= n <= items.len(),
    ensures
        successor_tokens(g, items, x, n, successor_upto(g, items, x, n)),
    decreases n,
{
    let cur = successor_upto(g, items, x, n);
    if n > 0 {
        lemma_successor_tokens(g, with_tokens, items, x, n - 1);
        lemma_successor_shape(g, with_tokens, items, x, n - 1);
        lemma_successor_shape(g, with_tokens, items, x, n);
        let prev = successor_upto(g, items, x, n - 1);
        let src = items[n - 1];
        assert(src.ok(g, with_tokens));
        if src.shifts_over(g, x) {
            let a = src.advanced();
            lemma_absorb(prev, a);
            let last = cur.len() - 1;
            assert(cur[last].same_core(a));
            assert forall|i: int, t: int| 0 <= i < cur.len() implies (#[trigger] bits_has(
                cur[i].lookahead,
                t,
            ) <==> fed_token(g, items, x, n, cur[i], t)) by {
                let ci = cur[i];
                if i < last {
                    // an earlier item: unchanged, and not fed by the new item
                    assert(cur[i].core_lt(cur[last]));
                    let pi = prev[i];
                    assert(ci == pi);
                    lemma_fed_token_extends(g, items, x, n, pi, t);
                } else if prev.len() > 0 && prev.last().same_core(a) {
                    let pl = prev[prev.len() - 1];
                    assert(pl.ok(g, with_tokens));
                    assert(bits_has(ci.lookahead, t) == (bits_has(pl.lookahead, t) || bits_has(
                        a.lookahead,
                        t,
                    )));
                    assert(bits_has(pl.lookahead, t) <==> fed_token(g, items, x, n - 1, pl, t));
                    lemma_fed_token_same_core(g, items, x, n - 1, pl, ci, t);
                    lemma_fed_token_extends(g, items, x, n, ci, t);
                } else {
                    assert(ci == a);
                    lemma_fed_token_extends(g, items, x, n, ci, t);
                    if fed_token(g, items, x, n - 1, ci, t) {
                        let j = choose|j: int|
                            j < n - 1 && #[trigger] feeds(g, items, x, j, ci) && bits_has(
                                items[j].lookahead,
                                t,
                            );
                        lemma_successor_covers(g, items, x, n - 1);
                        assert(has_core(prev, items[j].advanced()));
                        let i2 = choose|i2: int|
                            0 <= i2 < prev.len() && (#[trigger] prev[i2]).same_core(
                                items[j].advanced(),
                            );
                        assert(cur[i2] == prev[i2]);
                        if i2 < last {
                            assert(cur[i2].core_lt(cur[last]));
                        }
                    }
                }
            }
        } else {
            assert(cur == prev);
            assert forall|i: int, t: int| 0 <= i < cur.len() implies (#[trigger] bits_has(
                cur[i].lookahead,
                t,
            ) <==> fed_token(g, items, x, n, cur[i], t)) by {
                lemma_fed_token_extends(g, items, x, n, prev[i], t);
            }
        }
    }
}

/// With one more item, the tokens fed to `k` are those fed before and, if
/// the new item feeds `k`, its tokens.
proof fn lemma_fed_token_extends(
    g: Grammar,
    items: Seq<ItemView>,
    x: Symbol,
    n: int,
    k: ItemView,
    t: int,
)
    requires
        0 < n <= items.len(),
    ensures
        fed_token(g, items, x, n, k, t) <==> fed_token(g, items, x, n - 1, k, t) || (feeds(
            g,
            items,
            x,
            n - 1,
            k,
        ) && bits_has(items[n - 1].lookahead, t)),
{
    if fed_token(g, items, x, n, k, t) {
        let j = choose|j: int|
            j < n && #[trigger] feeds(g, items, x, j, k) && bits_has(items[j].lookahead, t);
        if j < n - 1 {
            assert(fed_token(g, items, x, n - 1, k, t));
        }
    }
    if fed_token(g, items, x, n - 1, k, t) {
        let j = choose|j: int|
            j < n - 1 && #[trigger] feeds(g, items, x, j, k) && bits_has(items[j].lookahead, t);
        assert(j < n && feeds(g, items, x, j, k));
    }
}

/// Items with one production and dot are fed the same tokens.
proof fn lemma_fed_token_same_core(
    g: Grammar,
    items: Seq<ItemView>,
    x: Symbol,
    n: int,
    a: ItemView,
    b: ItemView,
    t: int,
)
    requires
        a.same_core(b),
    ensures
        fed_token(g, items, x, n, a, t) == fed_token(g, items, x, n, b, t),
        feeds(g, items, x, n, a) == feeds(g, items, x, n, b),
{
    if fed_token(g, items, x, n, a, t) {
        let j = choose|j: int|
            j < n && #[trigger] feeds(g, items, x, j, a) && bits_has(items[j].lookahead, t);
        assert(feeds(g, items, x, j, b));
    }
    if fed_token(g, items, x, n, b, t) {
        let j = choose|j: int|
            j < n && #[trigger] feeds(g, items, x, j, b) && bits_has(items[j].lookahead, t);
        assert(feeds(g, items, x, j, a));
    }
}

/// A sequence in the order of productions and dots is in the order of items.
pub proof fn lemma_core_sorted_is_sorted(s: Seq<ItemView>)
    requires
        core_sorted(s),
    ensures
        strictly_sorted(s),
{
    assert forall|i: int, j: int| 0 <= i < j < s.len() implies (#[trigger] s[i]).lt(
        #[trigger] s[j],
    ) by {
        assert(s[i].core_lt(s[j]));
    }
}

/// The successor kernel over `x` of a state with these items.
pub fn successor<L: Lookahead>(grammar: &Grammar, items: &Vec<Item<L>>, x: Symbol) -> (r: Vec<
    Item<L>,
>)
    requires
        all_ok(*grammar, L::carries_tokens(), item_views(items@)),
    ensures
        item_views(r@) == successor_kernel(*grammar, item_views(items@), x),
{
    let ghost g = *grammar;
    let ghost wt = L::carries_tokens();
    let ghost views = item_views(items@);
    let mut out: Vec<Item<L>> = Vec::new();
    let mut i: usize = 0;
    while i < items.len()
        invariant
            g == *grammar,
            wt == L::carries_tokens(),
            views == item_views(items@),
            all_ok(g, wt, views),
            i <= views.len(),
            item_views(out@) == successor_upto(g, views, x, i as int),
            forall|j: int|
                0 <= j < out@.len() ==> (#[trigger] item_views(out@)[j]).lookahead.len()
                    == la_len(g, wt),
        decreases views.len() - i,
    {
        let it = &items[i];
        assert(views[i as int] == it@);
        assert(views[i as int].ok(g, wt));
        let symbols = &grammar.productions[it.production].symbols;
        if it.index < symbols.len() && symbols[it.index] == x {
            let ghost prev = item_views(out@);
            let ghost a = it@.advanced();
            let n = out.len();
            if n > 0 && out[n - 1].production == it.production && out[n - 1].index == it.index + 1 {
                let mut last = out.pop().unwrap();
                assert(last@ == prev.last());
                last.lookahead.merge(&it.lookahead);
                out.push(last);
                assert(item_views(out@) =~= absorb(prev, a));
            } else {
                out.push(
                    Item {
                        production: it.production,
                        index: it.index + 1,
                        lookahead: it.lookahead.dup(),
                    },
                );
                assert(item_views(out@) =~= absorb(prev, a));
            }
        }
        i += 1;
    }
    out
}

} // verus!
