//! Items with their lookahead removed: how the items of an LR(1) state map
//! onto the items of an LR(0) state.

use crate::closure::{
    all_ok, eps_lookahead, eps_step, in_closure, is_closure_of, items_spec, lemma_closure_holds_seed,
    lemma_closure_step, lemma_items_upto, lemma_sorted_unique, reaches, strictly_sorted,
};
use crate::grammar::{Grammar, Symbol};
use crate::item::ItemView;
use crate::successor::{
    fed, feeds, has_core, lemma_successor_covers, lemma_successor_shape, successor_kernel,
};
use vstd::prelude::*;

verus! {

/// The item without its lookahead.
pub open spec fn core_of(it: ItemView) -> ItemView {
    ItemView { production: it.production, index: it.index, lookahead: Seq::empty() }
}

/// `a` holds exactly the items of `b` with their lookahead removed.
pub open spec fn is_core_image(a: Seq<ItemView>, b: Seq<ItemView>) -> bool {
    forall|x: ItemView| #[trigger] a.contains(x) <==> x.lookahead == Seq::<bool>::empty() && has_core(b, x)
}

/// Two sequences in the order of items that hold the items of one sequence
/// with their lookahead removed are equal.
pub proof fn lemma_core_image_unique(a1: Seq<ItemView>, a2: Seq<ItemView>, b: Seq<ItemView>)
    requires
        is_core_image(a1, b),
        is_core_image(a2, b),
        strictly_sorted(a1),
        strictly_sorted(a2),
    ensures
        a1 == a2,
{
    lemma_sorted_unique(a1, a2);
}

/// The image of a sequence that is not empty is not empty, and conversely.
pub proof fn lemma_core_image_empty(a: Seq<ItemView>, b: Seq<ItemView>)
    requires
        is_core_image(a, b),
    ensures
        a.len() > 0 <==> b.len() > 0,
{
    if b.len() > 0 {
        let x = core_of(b[0]);
        assert(b[0].same_core(x));
        assert(has_core(b, x));
        assert(a.contains(x));
    }
    if a.len() > 0 {
        assert(a.contains(a[0]));
        assert(has_core(b, a[0]));
    }
}

/// The start items without lookahead are the image of the start items with
/// any lookahead.
pub proof fn lemma_seed_projection(g: Grammar, nt: int, la: Seq<bool>)
    ensures
        is_core_image(items_spec(g, nt, 0, Seq::empty()), items_spec(g, nt, 0, la)),
{
    let a = items_spec(g, nt, 0, Seq::empty());
    let b = items_spec(g, nt, 0, la);
    lemma_items_upto(g, nt, 0, Seq::empty(), g.num_productions());
    lemma_items_upto(g, nt, 0, la, g.num_productions());
    assert forall|x: ItemView| #[trigger] a.contains(x) <==> x.lookahead == Seq::<bool>::empty()
        && has_core(b, x) by {
        if a.contains(x) {
            let y = ItemView { production: x.production, index: 0, lookahead: la };
            assert(b.contains(y));
            let i = choose|i: int| 0 <= i < b.len() && b[i] == y;
            assert(b[i].same_core(x));
        }
        if x.lookahead == Seq::<bool>::empty() && has_core(b, x) {
            let i = choose|i: int| 0 <= i < b.len() && (#[trigger] b[i]).same_core(x);
            assert(b.contains(b[i]));
        }
    }
}

/// Every item reached without lookahead has its production and dot among
/// the items reached with lookahead.
proof fn lemma_reaches_up(
    g: Grammar,
    k0: Seq<ItemView>,
    k1: Seq<ItemView>,
    x: ItemView,
    n: nat,
) -> (y: ItemView)
    requires
        is_core_image(k0, k1),
        reaches(g, false, k0, x, n),
    ensures
        y.same_core(x),
        in_closure(g, true, k1, y),
    decreases n,
{
    if n == 0 {
        assert(has_core(k1, x));
        let i = choose|i: int| 0 <= i < k1.len() && (#[trigger] k1[i]).same_core(x);
        assert(k1.contains(k1[i]));
        lemma_closure_holds_seed(g, true, k1, k1[i]);
        k1[i]
    } else {
        let par0 = choose|par0: ItemView|
            reaches(g, false, k0, par0, (n - 1) as nat) && #[trigger] eps_step(g, false, par0, x);
        let par1 = lemma_reaches_up(g, k0, k1, par0, (n - 1) as nat);
        let y = ItemView {
            production: x.production,
            index: 0,
            lookahead: eps_lookahead(g, true, par1.remainder(g), par1.lookahead),
        };
        assert(eps_step(g, true, par1, y));
        lemma_closure_step(g, true, k1, par1, y);
        y
    }
}

/// Every item reached with lookahead is reached without it, once its
/// lookahead is removed.
proof fn lemma_reaches_down(g: Grammar, k0: Seq<ItemView>, k1: Seq<ItemView>, y: ItemView, n: nat)
    requires
        is_core_image(k0, k1),
        reaches(g, true, k1, y, n),
    ensures
        in_closure(g, false, k0, core_of(y)),
    decreases n,
{
    let x = core_of(y);
    if n == 0 {
        let i = choose|i: int| 0 <= i < k1.len() && k1[i] == y;
        assert(k1[i].same_core(x));
        assert(has_core(k1, x));
        assert(k0.contains(x));
        lemma_closure_holds_seed(g, false, k0, x);
    } else {
        let par1 = choose|par1: ItemView|
            reaches(g, true, k1, par1, (n - 1) as nat) && #[trigger] eps_step(g, true, par1, y);
        lemma_reaches_down(g, k0, k1, par1, (n - 1) as nat);
        let par0 = core_of(par1);
        assert(eps_step(g, false, par0, x));
        lemma_closure_step(g, false, k0, par0, x);
    }
}

/// An item reached without lookahead carries none.
proof fn lemma_reaches_without_lookahead(g: Grammar, k0: Seq<ItemView>, x: ItemView, n: nat)
    requires
        forall|i: int| 0 <= i < k0.len() ==> (#[trigger] k0[i]).lookahead == Seq::<bool>::empty(),
        reaches(g, false, k0, x, n),
    ensures
        x.lookahead == Seq::<bool>::empty(),
    decreases n,
{
    if n == 0 {
        let i = choose|i: int| 0 <= i < k0.len() && k0[i] == x;
    } else {
        let par0 = choose|par0: ItemView|
            reaches(g, false, k0, par0, (n - 1) as nat) && #[trigger] eps_step(g, false, par0, x);
    }
}

/// Closing commutes with removing the lookahead: where a kernel is the image
/// of another, its closure without lookahead is the image of the closure of
/// the other with lookahead.
pub proof fn lemma_closure_projection(
    g: Grammar,
    k0: Seq<ItemView>,
    k1: Seq<ItemView>,
    c0: Seq<ItemView>,
    c1: Seq<ItemView>,
)
    requires
        is_core_image(k0, k1),
        is_closure_of(g, false, c0, k0),
        is_closure_of(g, true, c1, k1),
    ensures
        is_core_image(c0, c1),
{
    assert forall|i: int| 0 <= i < k0.len() implies (#[trigger] k0[i]).lookahead == Seq::<
        bool,
    >::empty() by {
        assert(k0.contains(k0[i]));
    }
    assert forall|x: ItemView| #[trigger] c0.contains(x) <==> x.lookahead == Seq::<bool>::empty()
        && has_core(c1, x) by {
        if c0.contains(x) {
            assert(in_closure(g, false, k0, x));
            let n = choose|n: nat| reaches(g, false, k0, x, n);
            lemma_reaches_without_lookahead(g, k0, x, n);
            let y = lemma_reaches_up(g, k0, k1, x, n);
            assert(c1.contains(y));
            let i = choose|i: int| 0 <= i < c1.len() && c1[i] == y;
            assert(c1[i].same_core(x));
        }
        if x.lookahead == Seq::<bool>::empty() && has_core(c1, x) {
            let i = choose|i: int| 0 <= i < c1.len() && (#[trigger] c1[i]).same_core(x);
            assert(c1.contains(c1[i]));
            assert(in_closure(g, true, k1, c1[i]));
            let n = choose|n: nat| reaches(g, true, k1, c1[i], n);
            lemma_reaches_down(g, k0, k1, c1[i], n);
            assert(core_of(c1[i]) == x);
        }
    }
}

/// Moving over a symbol commutes with removing the lookahead: where the
/// items of a state are the image of those of another, its successor kernel
/// over a symbol is the image of the successor kernel of the other.
pub proof fn lemma_successor_projection(
    g: Grammar,
    c0: Seq<ItemView>,
    c1: Seq<ItemView>,
    x: Symbol,
)
    requires
        is_core_image(c0, c1),
        strictly_sorted(c0),
        strictly_sorted(c1),
        all_ok(g, false, c0),
        all_ok(g, true, c1),
    ensures
        is_core_image(successor_kernel(g, c0, x), successor_kernel(g, c1, x)),
{
    let succ0 = successor_kernel(g, c0, x);
    let succ1 = successor_kernel(g, c1, x);
    lemma_successor_shape(g, false, c0, x, c0.len() as int);
    lemma_successor_shape(g, true, c1, x, c1.len() as int);
    lemma_successor_covers(g, c0, x, c0.len() as int);
    lemma_successor_covers(g, c1, x, c1.len() as int);
    assert forall|y: ItemView| #[trigger] succ0.contains(y) <==> y.lookahead == Seq::<bool>::empty()
        && has_core(succ1, y) by {
        if succ0.contains(y) {
            let i = choose|i: int| 0 <= i < succ0.len() && succ0[i] == y;
            assert(succ0[i].ok(g, false));
            assert(y.lookahead =~= Seq::<bool>::empty());
            assert(fed(g, c0, x, c0.len() as int, succ0[i]));
            let j0 = choose|j0: int| j0 < c0.len() && #[trigger] feeds(g, c0, x, j0, y);
            assert(c0.contains(c0[j0]));
            assert(has_core(c1, c0[j0]));
            let j1 = choose|j1: int| 0 <= j1 < c1.len() && (#[trigger] c1[j1]).same_core(c0[j0]);
            assert(c1[j1].shifts_over(g, x));
            assert(has_core(succ1, c1[j1].advanced()));
            let i1 = choose|i1: int|
                0 <= i1 < succ1.len() && (#[trigger] succ1[i1]).same_core(c1[j1].advanced());
            assert(succ1[i1].same_core(y));
        }
        if y.lookahead == Seq::<bool>::empty() && has_core(succ1, y) {
            let i1 = choose|i1: int| 0 <= i1 < succ1.len() && (#[trigger] succ1[i1]).same_core(y);
            assert(fed(g, c1, x, c1.len() as int, succ1[i1]));
            let j1 = choose|j1: int| j1 < c1.len() && #[trigger] feeds(g, c1, x, j1, succ1[i1]);
            let z = core_of(c1[j1]);
            assert(c1[j1].same_core(z));
            assert(has_core(c1, z));
            assert(c0.contains(z));
            let j0 = choose|j0: int| 0 <= j0 < c0.len() && c0[j0] == z;
            assert(c0[j0].shifts_over(g, x));
            assert(has_core(succ0, c0[j0].advanced()));
            let i0 = choose|i0: int|
                0 <= i0 < succ0.len() && (#[trigger] succ0[i0]).same_core(c0[j0].advanced());
            assert(succ0[i0].ok(g, false));
            assert(succ0[i0].lookahead =~= Seq::<bool>::empty());
            assert(succ0[i0] == y);
        }
    }
}

} // verus!
