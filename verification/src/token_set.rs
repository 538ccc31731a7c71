//! Sets of tokens, kept as one bit for each terminal and one more for the
//! end of input.

use vstd::prelude::*;

verus! {

/// The union of two bit rows of one length.
pub open spec fn bits_or(a: Seq<bool>, b: Seq<bool>) -> Seq<bool> {
    Seq::new(a.len(), |i: int| a[i] || b[i])
}

/// The row of `len` bits that holds `t` alone.
pub open spec fn bits_single(len: nat, t: int) -> Seq<bool> {
    Seq::new(len, |i: int| i == t)
}

/// The empty row of `len` bits.
pub open spec fn bits_empty(len: nat) -> Seq<bool> {
    Seq::new(len, |i: int| false)
}

/// Whether the row holds token `t`.
pub open spec fn bits_has(a: Seq<bool>, t: int) -> bool {
    0 <= t < a.len() && a[t]
}

/// Whether two rows share a token.
pub open spec fn bits_overlap(a: Seq<bool>, b: Seq<bool>) -> bool {
    exists|t: int| bits_has(a, t) && #[trigger] bits_has(b, t)
}

/// Whether every token of `a` is one of `b`.
pub open spec fn bits_subset(a: Seq<bool>, b: Seq<bool>) -> bool {
    forall|t: int| bits_has(a, t) ==> #[trigger] bits_has(b, t)
}

/// The order of bit rows of one length: at the first place where they
/// differ, the smaller row has no bit.
pub open spec fn bits_lt(a: Seq<bool>, b: Seq<bool>) -> bool {
    &&& a.len() == b.len()
    &&& exists|k: int| #[trigger] bits_differ_first_at(a, b, k) && !a[k]
}

/// Whether `k` is the first place where the two rows differ.
pub open spec fn bits_differ_first_at(a: Seq<bool>, b: Seq<bool>, k: int) -> bool {
    &&& 0 <= k < a.len()
    &&& k < b.len()
    &&& a[k] != b[k]
    &&& forall|j: int| 0 <= j < k ==> a[j] == b[j]
}

/// Two rows differ first in at most one place.
pub proof fn lemma_first_difference_unique(a: Seq<bool>, b: Seq<bool>, k1: int, k2: int)
    requires
        bits_differ_first_at(a, b, k1),
        bits_differ_first_at(a, b, k2),
    ensures
        k1 == k2,
{
}

/// No row is below itself.
pub proof fn lemma_bits_lt_irreflexive(a: Seq<bool>)
    ensures
        !bits_lt(a, a),
{
}

/// The order of rows is transitive.
pub proof fn lemma_bits_lt_transitive(a: Seq<bool>, b: Seq<bool>, c: Seq<bool>)
    requires
        bits_lt(a, b),
        bits_lt(b, c),
    ensures
        bits_lt(a, c),
{
    let k1 = choose|k: int| #[trigger] bits_differ_first_at(a, b, k) && !a[k];
    let k2 = choose|k: int| #[trigger] bits_differ_first_at(b, c, k) && !b[k];
    let k = if k1 <= k2 {
        k1
    } else {
        k2
    };
    assert(bits_differ_first_at(a, c, k));
}

/// Of two rows of one length, one is below the other or they are equal.
pub proof fn lemma_bits_trichotomy(a: Seq<bool>, b: Seq<bool>)
    requires
        a.len() == b.len(),
    ensures
        a == b || bits_lt(a, b) || bits_lt(b, a),
        !(bits_lt(a, b) && bits_lt(b, a)),
{
    lemma_bits_scan(a, b, 0);
    if bits_lt(a, b) && bits_lt(b, a) {
        let k1 = choose|k: int| #[trigger] bits_differ_first_at(a, b, k) && !a[k];
        let k2 = choose|k: int| #[trigger] bits_differ_first_at(b, a, k) && !b[k];
        assert(bits_differ_first_at(a, b, k2));
    }
}

proof fn lemma_bits_scan(a: Seq<bool>, b: Seq<bool>, k: int)
    requires
        a.len() == b.len(),
        0 <= k <= a.len(),
        forall|j: int| 0 <= j < k ==> a[j] == b[j],
    ensures
        a == b || bits_lt(a, b) || bits_lt(b, a),
    decreases a.len() - k,
{
    if k == a.len() {
        assert(a =~= b);
    } else if a[k] != b[k] {
        assert(bits_differ_first_at(a, b, k));
        assert(bits_differ_first_at(b, a, k));
    } else {
        lemma_bits_scan(a, b, k + 1);
    }
}

/// A set of tokens: bit `t` stands for terminal `t`, and the last bit for
/// the end of input.
#[derive(Clone, Debug, PartialEq, Eq, Hash)]
pub struct TokenSet {
    pub bits: Vec<bool>,
}

impl View for TokenSet {
    type V = Seq<bool>;

    open spec fn view(&self) -> Seq<bool> {
        self.bits@
    }
}

impl TokenSet {
    /// The empty set over `len` tokens.
    pub fn new(len: usize) -> (r: TokenSet)
        ensures
            r@ == bits_empty(len as nat),
    {
        let mut bits: Vec<bool> = Vec::new();
        let mut i: usize = 0;
        while i < len
            invariant
                i <= len,
                bits@ == bits_empty(i as nat),
            decreases len - i,
        {
            bits.push(false);
            i += 1;
        }
        TokenSet { bits }
    }

    /// The set that holds the end of input alone, for a grammar with
    /// `num_terminals` terminals.
    pub fn eof(num_terminals: usize) -> (r: TokenSet)
        requires
            num_terminals < usize::MAX,
        ensures
            r@ == bits_single((num_terminals + 1) as nat, num_terminals as int),
    {
        let mut r = TokenSet::new(num_terminals + 1);
        r.bits.set(num_terminals, true);
        r
    }

    /// The number of tokens that the set ranges over.
    pub fn len(&self) -> (n: usize)
        ensures
            n == self@.len(),
    {
        self.bits.len()
    }

    /// Whether the set holds token `t`.
    pub fn contains(&self, t: usize) -> (b: bool)
        ensures
            b == bits_has(self@, t as int),
    {
        t < self.bits.len() && self.bits[t]
    }

    /// Whether the set holds no token.
    pub fn is_empty(&self) -> (b: bool)
        ensures
            b == (forall|t: int| !bits_has(self@, t)),
    {
        let mut i: usize = 0;
        while i < self.bits.len()
            invariant
                i <= self@.len(),
                forall|t: int| 0 <= t < i ==> !self@[t],
            decreases self@.len() - i,
        {
            if self.bits[i] {
                assert(bits_has(self@, i as int));
                return false;
            }
            i += 1;
        }
        true
    }

    /// Puts token `t` into the set; tells whether the set grew.
    pub fn insert(&mut self, t: usize) -> (grew: bool)
        requires
            t < old(self)@.len(),
        ensures
            final(self)@ == old(self)@.update(t as int, true),
            grew == !old(self)@[t as int],
    {
        let grew = !self.bits[t];
        self.bits.set(t, true);
        grew
    }

    /// Puts every token of `other` into the set; tells whether the set grew.
    pub fn union_with(&mut self, other: &TokenSet) -> (grew: bool)
        requires
            old(self)@.len() == other@.len(),
        ensures
            final(self)@ == bits_or(old(self)@, other@),
            grew == (final(self)@ != old(self)@),
    {
        let ghost orig = self@;
        let mut grew = false;
        let mut i: usize = 0;
        while i < self.bits.len()
            invariant
                i <= self@.len(),
                self@.len() == other@.len(),
                self@.len() == orig.len(),
                forall|j: int| 0 <= j < i ==> self@[j] == (orig[j] || other@[j]),
                forall|j: int| i <= j < self@.len() ==> self@[j] == orig[j],
                grew == (exists|j: int| 0 <= j < i && self@[j] != orig[j]),
            decreases self@.len() - i,
        {
            let ghost prev = self@;
            assert(forall|j: int| 0 <= j < i ==> prev[j] == (orig[j] || other@[j]));
            if other.bits[i] && !self.bits[i] {
                self.bits.set(i, true);
                grew = true;
                assert(self@[i as int] != orig[i as int]);
            }
            i += 1;
        }
        assert(self@ =~= bits_or(orig, other@));
        if !grew {
            assert(self@ =~= orig);
        }
        grew
    }

    /// Whether the two sets share a token.
    pub fn overlaps(&self, other: &TokenSet) -> (b: bool)
        ensures
            b == bits_overlap(self@, other@),
    {
        let mut i: usize = 0;
        while i < self.bits.len() && i < other.bits.len()
            invariant
                forall|t: int| 0 <= t < i ==> !(bits_has(self@, t) && bits_has(other@, t)),
            decreases self@.len() - i,
        {
            if self.bits[i] && other.bits[i] {
                assert(bits_has(self@, i as int) && bits_has(other@, i as int));
                return true;
            }
            i += 1;
        }
        false
    }

    /// The tokens of the set, in increasing order.
    pub fn tokens(&self) -> (r: Vec<usize>)
        ensures
            forall|t: int| bits_has(self@, t) <==> r@.contains(t as usize) && 0 <= t <= usize::MAX,
            forall|i: int, j: int| 0 <= i < j < r@.len() ==> r@[i] < r@[j],
    {
        let mut out: Vec<usize> = Vec::new();
        let mut i: usize = 0;
        while i < self.bits.len()
            invariant
                i <= self@.len(),
                forall|t: int|
                    (0 <= t < i && self@[t]) <==> out@.contains(t as usize) && 0 <= t <= usize::MAX,
                forall|k: int| 0 <= k < out@.len() ==> out@[k] < i,
                forall|a: int, b: int| 0 <= a < b < out@.len() ==> out@[a] < out@[b],
            decreases self@.len() - i,
        {
            if self.bits[i] {
                let ghost before = out@;
                out.push(i);
                assert(out@[out@.len() - 1] == i);
                assert forall|t: int|
                    (0 <= t < i + 1 && self@[t]) <==> out@.contains(t as usize) && 0 <= t
                        <= usize::MAX by {
                    if 0 <= t < i && self@[t] {
                        let k = choose|k: int| 0 <= k < before.len() && before[k] == t as usize;
                        assert(out@[k] == t as usize);
                    }
                    if out@.contains(t as usize) && 0 <= t <= usize::MAX {
                        let k = choose|k: int| 0 <= k < out@.len() && out@[k] == t as usize;
                        if k < before.len() {
                            assert(before[k] == t as usize);
                            assert(before.contains(t as usize));
                        }
                    }
                }
            }
            i += 1;
        }
        out
    }
}

} // verus!
