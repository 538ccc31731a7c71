//! The lookahead that an item carries: nothing for LR(0), a set of tokens
//! for LR(1).

use crate::first::same_bits;
use crate::token_set::{
    bits_differ_first_at, bits_has, bits_lt, bits_or, bits_overlap, lemma_bits_lt_irreflexive,
    lemma_first_difference_unique, TokenSet,
};
use vstd::prelude::*;

verus! {

/// Whether a lookahead admits token `t`.  Without tokens every token is
/// admitted.
pub open spec fn la_admits(with_tokens: bool, la: Seq<bool>, t: int) -> bool {
    !with_tokens || bits_has(la, t)
}

/// Whether two lookaheads admit a common token.  Without tokens they always
/// do.
pub open spec fn la_overlap(with_tokens: bool, a: Seq<bool>, b: Seq<bool>) -> bool {
    !with_tokens || bits_overlap(a, b)
}

/// What an item carries beside its production and its dot.
///
/// Every lookahead is seen as a row of bits: the empty row where no tokens
/// are carried, one bit for each token where they are.
pub trait Lookahead: Sized {
    /// Whether lookaheads of this kind carry tokens.
    spec fn carries_tokens() -> bool;

    /// The row of bits that the lookahead stands for.
    spec fn bits(&self) -> Seq<bool>;

    /// A copy of the lookahead.
    fn dup(&self) -> (r: Self)
        ensures
            r.bits() == self.bits(),
    ;

    /// Whether the two lookaheads are equal.
    fn same(&self, other: &Self) -> (b: bool)
        ensures
            b == (self.bits() == other.bits()),
    ;

    /// Whether this lookahead comes before the other in the order of
    /// lookaheads.
    fn before(&self, other: &Self) -> (b: bool)
        ensures
            b == bits_lt(self.bits(), other.bits()),
    ;

    /// Joins the other lookahead into this one.
    fn merge(&mut self, other: &Self)
        requires
            old(self).bits().len() == other.bits().len(),
        ensures
            final(self).bits() == bits_or(old(self).bits(), other.bits()),
    ;

    /// Whether the lookahead admits token `t`.
    fn admits(&self, t: usize) -> (b: bool)
        ensures
            b == la_admits(Self::carries_tokens(), self.bits(), t as int),
    ;

    /// Whether the two lookaheads admit a common token.
    fn meets(&self, other: &Self) -> (b: bool)
        ensures
            b == la_overlap(Self::carries_tokens(), self.bits(), other.bits()),
    ;
}

/// The lookahead of LR(0): none.
#[derive(Clone, Copy, Debug, PartialEq, Eq, Structural, Hash)]
pub struct Nil;

impl Lookahead for Nil {
    open spec fn carries_tokens() -> bool {
        false
    }

    open spec fn bits(&self) -> Seq<bool> {
        Seq::empty()
    }

    fn dup(&self) -> (r: Self) {
        Nil
    }

    fn same(&self, other: &Self) -> (b: bool) {
        true
    }

    fn before(&self, other: &Self) -> (b: bool) {
        false
    }

    fn merge(&mut self, other: &Self) {
        assert(bits_or(Seq::<bool>::empty(), Seq::<bool>::empty()) =~= Seq::<bool>::empty());
    }

    fn admits(&self, t: usize) -> (b: bool) {
        true
    }

    fn meets(&self, other: &Self) -> (b: bool) {
        true
    }
}

impl Lookahead for TokenSet {
    open spec fn carries_tokens() -> bool {
        true
    }

    open spec fn bits(&self) -> Seq<bool> {
        self@
    }

    fn dup(&self) -> (r: Self) {
        let mut bits: Vec<bool> = Vec::new();
        let mut i: usize = 0;
        while i < self.bits.len()
            invariant
                i <= self@.len(),
                bits@ == self@.subrange(0, i as int),
            decreases self@.len() - i,
        {
            bits.push(self.bits[i]);
            assert(bits@ =~= self@.subrange(0, i + 1));
            i += 1;
        }
        assert(bits@ =~= self@);
        TokenSet { bits }
    }

    fn same(&self, other: &Self) -> (b: bool) {
        same_bits(self, other)
    }

    fn before(&self, other: &Self) -> (b: bool) {
        if self.bits.len() != other.bits.len() {
            return false;
        }
        let mut i: usize = 0;
        while i < self.bits.len()
            invariant
                self@.len() == other@.len(),
                i <= self@.len(),
                forall|j: int| 0 <= j < i ==> self@[j] == other@[j],
            decreases self@.len() - i,
        {
            if self.bits[i] != other.bits[i] {
                proof {
                    assert(bits_differ_first_at(self@, other@, i as int));
                    if bits_lt(self@, other@) {
                        let k = choose|k: int| #[trigger]
                            bits_differ_first_at(self@, other@, k) && !self@[k];
                        lemma_first_difference_unique(
                            self@,
                            other@,
                            k,
                            i as int,
                        );
                    }
                }
                return !self.bits[i];
            }
            i += 1;
        }
        proof {
            assert(self@ =~= other@);
            lemma_bits_lt_irreflexive(self@);
        }
        false
    }

    fn merge(&mut self, other: &Self) {
        let _ = self.union_with(other);
    }

    fn admits(&self, t: usize) -> (b: bool) {
        self.contains(t)
    }

    fn meets(&self, other: &Self) -> (b: bool) {
        self.overlaps(other)
    }
}

} // verus!
