//! The symbols before the dot of an item, and why the items of one state
//! agree on them.
//!
//! When a state is entered, the symbols before the dot of each of its items
//! have just been shifted.  So of two items of one state, the symbols before
//! the dot of the one with the nearer dot are the last symbols before the dot
//! of the other.

use crate::closure::{all_ok, is_closure_of, lemma_closure_adds_fresh_items, strictly_sorted};
use crate::grammar::{Grammar, Symbol};
use crate::item::ItemView;
use crate::successor::{fed, feeds, lemma_successor_shape, successor_kernel};
use vstd::prelude::*;

verus! {

/// The symbols before the dot of the item.
pub open spec fn shifted_prefix(g: Grammar, it: ItemView) -> Seq<Symbol> {
    g.rhs(it.production).subrange(0, it.index)
}

/// `a` is the end of `b`.
pub open spec fn is_suffix(a: Seq<Symbol>, b: Seq<Symbol>) -> bool {
    a.len() <= b.len() && a == b.subrange(b.len() - a.len(), b.len() as int)
}

/// Where the dot of `a` is no farther from the start than the dot of `b`,
/// the symbols before the dot of `a` are the last before the dot of `b`.
pub open spec fn compatible(g: Grammar, a: ItemView, b: ItemView) -> bool {
    a.index <= b.index ==> is_suffix(shifted_prefix(g, a), shifted_prefix(g, b))
}

/// Any two of the items are compatible.
pub open spec fn prefix_compatible(g: Grammar, items: Seq<ItemView>) -> bool {
    forall|i: int, j: int|
        0 <= i < items.len() && 0 <= j < items.len() ==> compatible(
            g,
            #[trigger] items[i],
            #[trigger] items[j],
        )
}

/// Items with the dot at the start are compatible with all items.
pub proof fn lemma_start_items_compatible(g: Grammar, items: Seq<ItemView>)
    requires
        forall|i: int| 0 <= i < items.len() ==> (#[trigger] items[i]).index == 0,
    ensures
        prefix_compatible(g, items),
{
    assert forall|i: int, j: int| 0 <= i < items.len() && 0 <= j < items.len() implies compatible(
        g,
        #[trigger] items[i],
        #[trigger] items[j],
    ) by {
        let pa = shifted_prefix(g, items[i]);
        let pb = shifted_prefix(g, items[j]);
        assert(pa.len() == 0 && pb.len() == 0);
        assert(pa =~= pb.subrange(pb.len() - pa.len(), pb.len() as int));
    }
}

/// The closure of compatible items of the grammar is compatible.
pub proof fn lemma_closure_compatible(
    g: Grammar,
    with_tokens: bool,
    seed: Seq<ItemView>,
    c: Seq<ItemView>,
)
    requires
        all_ok(g, with_tokens, seed),
        prefix_compatible(g, seed),
        is_closure_of(g, with_tokens, c, seed),
    ensures
        prefix_compatible(g, c),
{
    assert forall|i: int, j: int| 0 <= i < c.len() && 0 <= j < c.len() implies compatible(
        g,
        #[trigger] c[i],
        #[trigger] c[j],
    ) by {
        let a = c[i];
        let b = c[j];
        assert(c.contains(a));
        assert(c.contains(b));
        lemma_closure_adds_fresh_items(g, with_tokens, seed, a);
        lemma_closure_adds_fresh_items(g, with_tokens, seed, b);
        if a.index <= b.index {
            if a.index == 0 {
                let pa = shifted_prefix(g, a);
                let pb = shifted_prefix(g, b);
                if seed.contains(b) {
                    let y = choose|y: int| 0 <= y < seed.len() && seed[y] == b;
                    assert(seed[y].ok(g, with_tokens));
                }
                assert(pa.len() == 0);
                assert(pa =~= pb.subrange(pb.len() - pa.len(), pb.len() as int));
            } else {
                let x = choose|x: int| 0 <= x < seed.len() && seed[x] == a;
                let y = choose|y: int| 0 <= y < seed.len() && seed[y] == b;
                assert(compatible(g, seed[x], seed[y]));
            }
        }
    }
}

/// The successor kernel of compatible items of the grammar is compatible.
pub proof fn lemma_successor_compatible(
    g: Grammar,
    with_tokens: bool,
    items: Seq<ItemView>,
    x: Symbol,
)
    requires
        strictly_sorted(items),
        all_ok(g, with_tokens, items),
        prefix_compatible(g, items),
    ensures
        prefix_compatible(g, successor_kernel(g, items, x)),
{
    let k = successor_kernel(g, items, x);
    lemma_successor_shape(g, with_tokens, items, x, items.len() as int);
    assert forall|i: int, j: int| 0 <= i < k.len() && 0 <= j < k.len() implies compatible(
        g,
        #[trigger] k[i],
        #[trigger] k[j],
    ) by {
        let a = k[i];
        let b = k[j];
        assert(fed(g, items, x, items.len() as int, a));
        assert(fed(g, items, x, items.len() as int, b));
        let u = choose|u: int| u < items.len() && #[trigger] feeds(g, items, x, u, a);
        let v = choose|v: int| v < items.len() && #[trigger] feeds(g, items, x, v, b);
        if a.index <= b.index {
            assert(compatible(g, items[u], items[v]));
            assert(items[u].ok(g, with_tokens));
            assert(items[v].ok(g, with_tokens));
            let pu = shifted_prefix(g, items[u]);
            let pv = shifted_prefix(g, items[v]);
            let pa = shifted_prefix(g, a);
            let pb = shifted_prefix(g, b);
            assert(pa =~= pu.push(x));
            assert(pb =~= pv.push(x));
            assert(pu == pv.subrange(pv.len() - pu.len(), pv.len() as int));
            assert(pa =~= pb.subrange(pb.len() - pa.len(), pb.len() as int)) by {
                assert forall|m: int| 0 <= m < pa.len() implies pa[m] == pb[pb.len() - pa.len()
                    + m] by {
                    if m < pu.len() {
                        assert(pu[m] == pv.subrange(pv.len() - pu.len(), pv.len() as int)[m]);
                    }
                }
            }
        }
    }
}

} // verus!
