//! Kernels and the registry that gives each distinct kernel one state index.

use crate::item::{item_views, Item, ItemView};
use crate::lookahead::Lookahead;
use vstd::prelude::*;

verus! {

/// The index of a state in the state vector.
#[derive(Clone, Copy, Debug, PartialEq, Eq, Structural, Hash)]
pub struct StateIndex(pub usize);

/// The items by which a state is known: for the first state, the items of
/// the start nonterminal with the dot at the start; for every other state,
/// the items with the dot past the start.
#[derive(Clone, Debug, PartialEq, Eq, Hash)]
pub struct Kernel<L> {
    pub items: Vec<Item<L>>,
}

impl<L: Lookahead> View for Kernel<L> {
    type V = Seq<ItemView>;

    open spec fn view(&self) -> Seq<ItemView> {
        item_views(self.items@)
    }
}

/// Every item has its dot at the start.
pub open spec fn all_at_start(s: Seq<ItemView>) -> bool {
    forall|i: int| 0 <= i < s.len() ==> (#[trigger] s[i]).index == 0
}

/// Every item has its dot past the start.
pub open spec fn all_past_start(s: Seq<ItemView>) -> bool {
    forall|i: int| 0 <= i < s.len() ==> (#[trigger] s[i]).index > 0
}

impl<L: Lookahead> Kernel<L> {
    /// The kernel of the first state.
    pub fn start(items: Vec<Item<L>>) -> (k: Kernel<L>)
        requires
            all_at_start(item_views(items@)),
        ensures
            k.items == items,
    {
        Kernel { items }
    }

    /// The kernel of a state that is entered by a shift or a goto.
    pub fn shifted(items: Vec<Item<L>>) -> (k: Kernel<L>)
        requires
            all_past_start(item_views(items@)),
        ensures
            k.items == items,
    {
        Kernel { items }
    }

    /// The state index for the `c`-th kernel.
    pub fn index(c: usize) -> (i: StateIndex)
        ensures
            i == StateIndex(c),
    {
        StateIndex(c)
    }

    /// A copy of the kernel.
    pub fn dup(&self) -> (r: Kernel<L>)
        ensures
            r@ == self@,
    {
        let mut items: Vec<Item<L>> = Vec::new();
        let mut i: usize = 0;
        while i < self.items.len()
            invariant
                i <= self.items@.len(),
                item_views(items@) == self@.subrange(0, i as int),
            decreases self.items@.len() - i,
        {
            let ghost before = item_views(items@);
            let x = self.items[i].dup();
            assert(x@ == self@[i as int]);
            items.push(x);
            assert(item_views(items@) =~= before.push(self@[i as int]));
            assert(item_views(items@) =~= self@.subrange(0, i + 1));
            i += 1;
        }
        assert(item_views(items@) =~= self@);
        Kernel { items }
    }

    /// Whether the two kernels hold the same items in the same order.
    pub fn same(&self, other: &Kernel<L>) -> (b: bool)
        ensures
            b == (self@ == other@),
    {
        if self.items.len() != other.items.len() {
            assert(self@.len() != other@.len());
            return false;
        }
        let mut i: usize = 0;
        while i < self.items.len()
            invariant
                self@.len() == other@.len(),
                i <= self@.len(),
                forall|j: int| 0 <= j < i ==> self@[j] == other@[j],
            decreases self@.len() - i,
        {
            if !self.items[i].same(&other.items[i]) {
                assert(self@[i as int] != other@[i as int]);
                return false;
            }
            i += 1;
        }
        assert(self@ =~= other@);
        true
    }
}

/// What the kernels of a sequence stand for.
pub open spec fn kernel_views<L: Lookahead>(s: Seq<Kernel<L>>) -> Seq<Seq<ItemView>> {
    Seq::new(s.len(), |i: int| s[i]@)
}

/// No kernel occurs twice.
pub open spec fn distinct(ks: Seq<Seq<ItemView>>) -> bool {
    forall|i: int, j: int| 0 <= i < j < ks.len() ==> #[trigger] ks[i] != #[trigger] ks[j]
}

/// A place at which `k` is registered.
pub open spec fn position(ks: Seq<Seq<ItemView>>, k: Seq<ItemView>) -> int {
    choose|i: int| 0 <= i < ks.len() && ks[i] == k
}

/// Registering `k`: a kernel that is registered already keeps its place and
/// nothing changes; a new one is put at the end.  Gives the registry after
/// it and the place of `k`.
pub open spec fn register(ks: Seq<Seq<ItemView>>, k: Seq<ItemView>) -> (Seq<Seq<ItemView>>, int) {
    if ks.contains(k) {
        (ks, position(ks, k))
    } else {
        (ks.push(k), ks.len() as int)
    }
}

/// Registering keeps the kernels distinct and the places of those that were
/// there, and gives a place at which the kernel is found.
pub proof fn lemma_register(ks: Seq<Seq<ItemView>>, k: Seq<ItemView>)
    requires
        distinct(ks),
    ensures
        distinct(register(ks, k).0),
        ks.len() <= register(ks, k).0.len() <= ks.len() + 1,
        forall|i: int| 0 <= i < ks.len() ==> register(ks, k).0[i] == #[trigger] ks[i],
        0 <= register(ks, k).1 < register(ks, k).0.len(),
        register(ks, k).0[register(ks, k).1] == k,
{
    if !ks.contains(k) {
        let r = ks.push(k);
        assert forall|i: int, j: int| 0 <= i < j < r.len() implies #[trigger] r[i] != #[trigger] r[j] by {
            if j == ks.len() {
                if r[i] == r[j] {
                    assert(ks[i] == k);
                    assert(ks.contains(k));
                }
            }
        }
    }
}

/// The registry of kernels: the kernels in the order in which they were
/// first seen, and how many of them have been handed out for expansion.
#[derive(Clone, Debug)]
pub struct KernelSet<L> {
    pub kernels: Vec<Kernel<L>>,
    pub next: usize,
}

impl<L: Lookahead> KernelSet<L> {
    /// The registered kernels, in the order of their indices.
    pub open spec fn registered(&self) -> Seq<Seq<ItemView>> {
        kernel_views(self.kernels@)
    }

    /// No kernel is registered twice, and no more kernels were handed out
    /// than are registered.
    pub open spec fn wf(&self) -> bool {
        &&& distinct(self.registered())
        &&& self.next <= self.kernels@.len()
    }

    /// The empty registry.
    pub fn new() -> (r: KernelSet<L>)
        ensures
            r.wf(),
            r.registered() == Seq::<Seq<ItemView>>::empty(),
            r.next == 0,
    {
        let r = KernelSet { kernels: Vec::new(), next: 0 };
        assert(r.registered() =~= Seq::<Seq<ItemView>>::empty());
        r
    }

    /// The number of registered kernels.
    pub fn len(&self) -> (n: usize)
        ensures
            n == self.registered().len(),
    {
        self.kernels.len()
    }

    /// The index of the state with this kernel: that of the equal kernel
    /// registered before, or else the next index, and the kernel is queued
    /// for expansion.
    pub fn add_state(&mut self, kernel: Kernel<L>) -> (idx: StateIndex)
        requires
            old(self).wf(),
        ensures
            final(self).wf(),
            final(self).next == old(self).next,
            final(self).registered() == register(old(self).registered(), kernel@).0,
            idx.0 == register(old(self).registered(), kernel@).1,
    {
        let ghost ks = self.registered();
        let ghost k = kernel@;
        proof {
            lemma_register(ks, k);
        }
        let mut i: usize = 0;
        while i < self.kernels.len()
            invariant
                i <= self.kernels@.len(),
                ks == self.registered(),
                k == kernel@,
                self.next == old(self).next,
                self.next <= self.kernels@.len(),
                distinct(ks),
                forall|j: int| 0 <= j < i ==> #[trigger] ks[j] != k,
            decreases self.kernels@.len() - i,
        {
            if self.kernels[i].same(&kernel) {
                proof {
                    assert(ks[i as int] == k);
                    assert(ks.contains(k));
                    let p = position(ks, k);
                    if p < i {
                        assert(ks[p] != ks[i as int]);
                    } else if p > i {
                        assert(ks[i as int] != ks[p]);
                    }
                }
                return StateIndex(i);
            }
            i += 1;
        }
        proof {
            if ks.contains(k) {
                let p = choose|p: int| 0 <= p < ks.len() && ks[p] == k;
                assert(ks[p] != k);
            }
        }
        self.kernels.push(kernel);
        assert(self.registered() =~= ks.push(k));
        StateIndex(i)
    }

    /// The next kernel to expand, in the order of registration; `None` when
    /// every registered kernel has been handed out.
    pub fn next(&mut self) -> (r: Option<Kernel<L>>)
        requires
            old(self).wf(),
        ensures
            final(self).wf(),
            final(self).registered() == old(self).registered(),
            r is Some <==> old(self).next < old(self).registered().len(),
            r matches Some(k) ==> k@ == old(self).registered()[old(self).next as int]
                && final(self).next == old(self).next + 1,
            r is None ==> final(self).next == old(self).next,
    {
        if self.next < self.kernels.len() {
            let k = self.kernels[self.next].dup();
            self.next = self.next + 1;
            Some(k)
        } else {
            None
        }
    }
}

} // verus!
