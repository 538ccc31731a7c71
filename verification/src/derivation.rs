//! What a sequence of grammar symbols derives.
//!
//! A sequence derives another when each of its symbols either stays as it is
//! or is a nonterminal that is rewritten by one of its productions, whose
//! right side in turn derives the piece that takes the symbol's place.

use crate::grammar::{Grammar, Symbol};
use vstd::prelude::*;

verus! {

/// `a` derives `b` with rewriting nested at most `depth` deep.
pub open spec fn derives_within(g: Grammar, a: Seq<Symbol>, b: Seq<Symbol>, depth: nat) -> bool
    decreases depth, a.len() + 1,
{
    if a.len() == 0 {
        b.len() == 0
    } else {
        exists|k: int|
            0 <= k <= b.len() && symbol_derives_within(g, a[0], #[trigger] b.subrange(0, k), depth)
                && derives_within(g, a.drop_first(), b.subrange(k, b.len() as int), depth)
    }
}

/// The one symbol `x` derives `b` with rewriting nested at most `depth` deep.
pub open spec fn symbol_derives_within(g: Grammar, x: Symbol, b: Seq<Symbol>, depth: nat) -> bool
    decreases depth, 0nat,
{
    ||| b == seq![x]
    ||| depth > 0 && exists|p: int| #[trigger]
        g.is_production(p) && Symbol::Nonterminal(g.productions@[p].nonterminal) == x
            && derives_within(g, g.rhs(p), b, (depth - 1) as nat)
}

/// `a` derives `b`.
pub open spec fn derives(g: Grammar, a: Seq<Symbol>, b: Seq<Symbol>) -> bool {
    exists|depth: nat| derives_within(g, a, b, depth)
}

/// The sequence derives the empty sequence.
pub open spec fn seq_nullable(g: Grammar, s: Seq<Symbol>) -> bool {
    derives(g, s, Seq::empty())
}

/// The sequence derives a sequence that begins with terminal `t`.
pub open spec fn seq_begins_with(g: Grammar, s: Seq<Symbol>, t: usize) -> bool {
    exists|rest: Seq<Symbol>| derives(g, s, #[trigger] seq![Symbol::Terminal(t)].add(rest))
}

/// Nonterminal `nt` derives the empty sequence.
pub open spec fn nullable(g: Grammar, nt: usize) -> bool {
    seq_nullable(g, seq![Symbol::Nonterminal(nt)])
}

/// Nonterminal `nt` derives a sequence that begins with terminal `t`.
pub open spec fn begins_with(g: Grammar, nt: usize, t: usize) -> bool {
    seq_begins_with(g, seq![Symbol::Nonterminal(nt)], t)
}

/// Whether the symbol is a nullable nonterminal.
pub open spec fn symbol_nullable(g: Grammar, x: Symbol) -> bool {
    x matches Symbol::Nonterminal(n) && nullable(g, n)
}

/// Whether the symbol is terminal `t` or a nonterminal that derives a
/// sequence beginning with `t`.
pub open spec fn symbol_begins_with(g: Grammar, x: Symbol, t: usize) -> bool {
    match x {
        Symbol::Terminal(u) => u == t,
        Symbol::Nonterminal(n) => begins_with(g, n, t),
    }
}

/// A deeper bound admits every derivation that a shallower one admits.
pub proof fn lemma_depth_monotone(g: Grammar, a: Seq<Symbol>, b: Seq<Symbol>, d1: nat, d2: nat)
    requires
        derives_within(g, a, b, d1),
        d1 <= d2,
    ensures
        derives_within(g, a, b, d2),
    decreases d1, a.len() + 1,
{
    reveal_with_fuel(derives_within, 2);
    reveal_with_fuel(symbol_derives_within, 2);
    if a.len() > 0 {
        let k = choose|k: int|
            0 <= k <= b.len() && symbol_derives_within(g, a[0], #[trigger] b.subrange(0, k), d1)
                && derives_within(g, a.drop_first(), b.subrange(k, b.len() as int), d1);
        lemma_symbol_depth_monotone(g, a[0], b.subrange(0, k), d1, d2);
        lemma_depth_monotone(g, a.drop_first(), b.subrange(k, b.len() as int), d1, d2);
    }
}

/// A deeper bound admits every derivation from one symbol that a shallower
/// one admits.
pub proof fn lemma_symbol_depth_monotone(g: Grammar, x: Symbol, b: Seq<Symbol>, d1: nat, d2: nat)
    requires
        symbol_derives_within(g, x, b, d1),
        d1 <= d2,
    ensures
        symbol_derives_within(g, x, b, d2),
    decreases d1, 0nat,
{
    if b != seq![x] {
        let p = choose|p: int| #[trigger]
            g.is_production(p) && Symbol::Nonterminal(g.productions@[p].nonterminal) == x
                && derives_within(g, g.rhs(p), b, (d1 - 1) as nat);
        lemma_depth_monotone(g, g.rhs(p), b, (d1 - 1) as nat, (d2 - 1) as nat);
    }
}

/// Every sequence derives itself.
pub proof fn lemma_derives_itself(g: Grammar, a: Seq<Symbol>, depth: nat)
    ensures
        derives_within(g, a, a, depth),
    decreases a.len(),
{
    if a.len() > 0 {
        lemma_derives_itself(g, a.drop_first(), depth);
        assert(a.subrange(0, 1) =~= seq![a[0]]);
        assert(a.subrange(1, a.len() as int) =~= a.drop_first());
        assert(symbol_derives_within(g, a[0], a.subrange(0, 1), depth));
    }
}

/// A symbol that derives `b1`, followed by a sequence that derives `b2`,
/// derives `b1` followed by `b2`.
pub proof fn lemma_derives_cons(
    g: Grammar,
    x: Symbol,
    a: Seq<Symbol>,
    b1: Seq<Symbol>,
    b2: Seq<Symbol>,
    depth: nat,
)
    requires
        symbol_derives_within(g, x, b1, depth),
        derives_within(g, a, b2, depth),
    ensures
        derives_within(g, seq![x].add(a), b1.add(b2), depth),
{
    let xa = seq![x].add(a);
    let b = b1.add(b2);
    let k = b1.len() as int;
    assert(b.subrange(0, k) =~= b1);
    assert(b.subrange(k, b.len() as int) =~= b2);
    assert(xa.drop_first() =~= a);
    assert(symbol_derives_within(g, xa[0], b.subrange(0, k), depth));
}

/// A nonterminal derives what the right side of one of its productions
/// derives.
pub proof fn lemma_derives_by_production(g: Grammar, p: int, b: Seq<Symbol>)
    requires
        g.is_production(p),
        derives(g, g.rhs(p), b),
    ensures
        derives(g, seq![Symbol::Nonterminal(g.productions@[p].nonterminal)], b),
{
    let d = choose|d: nat| derives_within(g, g.rhs(p), b, d);
    let x = Symbol::Nonterminal(g.productions@[p].nonterminal);
    assert(symbol_derives_within(g, x, b, d + 1)) by {
        assert(g.is_production(p));
    }
    assert(derives_within(g, Seq::<Symbol>::empty(), Seq::<Symbol>::empty(), d + 1));
    lemma_derives_cons(g, x, Seq::empty(), b, Seq::empty(), d + 1);
    assert(seq![x].add(Seq::empty()) =~= seq![x]);
    assert(b.add(Seq::empty()) =~= b);
}

/// What a one-symbol sequence derives, the symbol derives.
pub proof fn lemma_single_symbol(g: Grammar, x: Symbol, b: Seq<Symbol>, depth: nat)
    requires
        derives_within(g, seq![x], b, depth),
    ensures
        symbol_derives_within(g, x, b, depth),
{
    let a = seq![x];
    let k = choose|k: int|
        0 <= k <= b.len() && symbol_derives_within(g, a[0], #[trigger] b.subrange(0, k), depth)
            && derives_within(g, a.drop_first(), b.subrange(k, b.len() as int), depth);
    assert(a.drop_first().len() == 0);
    assert(b.subrange(k, b.len() as int).len() == 0);
    assert(b.subrange(0, k) =~= b);
}

/// A sequence is nullable exactly when each of its symbols is a nullable
/// nonterminal.
pub proof fn lemma_seq_nullable(g: Grammar, s: Seq<Symbol>)
    ensures
        seq_nullable(g, s) <==> forall|j: int| 0 <= j < s.len() ==> symbol_nullable(g, #[trigger] s[j]),
    decreases s.len(),
{
    let e = Seq::<Symbol>::empty();
    if s.len() == 0 {
        assert(derives_within(g, s, e, 0));
    } else {
        let tail = s.drop_first();
        lemma_seq_nullable(g, tail);
        if seq_nullable(g, s) {
            let d = choose|d: nat| derives_within(g, s, e, d);
            let k = choose|k: int|
                0 <= k <= e.len() && symbol_derives_within(g, s[0], #[trigger] e.subrange(0, k), d)
                    && derives_within(g, tail, e.subrange(k, e.len() as int), d);
            assert(e.subrange(0, k) =~= e);
            assert(e.subrange(k, e.len() as int) =~= e);
            assert(e != seq![s[0]]) by {
                assert(seq![s[0]].len() == 1);
            }
            let p = choose|p: int| #[trigger]
                g.is_production(p) && Symbol::Nonterminal(g.productions@[p].nonterminal) == s[0]
                    && derives_within(g, g.rhs(p), e, (d - 1) as nat);
            lemma_derives_by_production(g, p, e);
            assert(symbol_nullable(g, s[0]));
            assert(seq_nullable(g, tail));
            assert forall|j: int| 0 <= j < s.len() implies symbol_nullable(g, #[trigger] s[j]) by {
                if j > 0 {
                    assert(s[j] == tail[j - 1]);
                }
            }
        }
        if forall|j: int| 0 <= j < s.len() ==> symbol_nullable(g, #[trigger] s[j]) {
            assert forall|j: int| 0 <= j < tail.len() implies symbol_nullable(
                g,
                #[trigger] tail[j],
            ) by {
                assert(tail[j] == s[j + 1]);
            }
            assert(symbol_nullable(g, s[0]));
            let d1 = choose|d: nat| derives_within(g, seq![s[0]], e, d);
            let d2 = choose|d: nat| derives_within(g, tail, e, d);
            let d = if d1 <= d2 {
                d2
            } else {
                d1
            };
            lemma_depth_monotone(g, seq![s[0]], e, d1, d);
            lemma_depth_monotone(g, tail, e, d2, d);
            lemma_single_symbol(g, s[0], e, d);
            lemma_derives_cons(g, s[0], tail, e, e, d);
            assert(seq![s[0]].add(tail) =~= s);
            assert(e.add(e) =~= e);
        }
    }
}

/// Whether `s[k]` can begin with `t` and every symbol before it is nullable.
pub open spec fn begins_at(g: Grammar, s: Seq<Symbol>, t: usize, k: int) -> bool {
    &&& 0 <= k < s.len()
    &&& symbol_begins_with(g, s[k], t)
    &&& forall|j: int| 0 <= j < k ==> symbol_nullable(g, #[trigger] s[j])
}

/// A sequence can begin with `t` exactly when one of its symbols can and
/// all symbols before that one are nullable.
pub proof fn lemma_seq_begins_with(g: Grammar, s: Seq<Symbol>, t: usize)
    ensures
        seq_begins_with(g, s, t) <==> exists|k: int| begins_at(g, s, t, k),
    decreases s.len(),
{
    let tt = seq![Symbol::Terminal(t)];
    if s.len() == 0 {
        if seq_begins_with(g, s, t) {
            let rest = choose|rest: Seq<Symbol>| derives(g, s, #[trigger] tt.add(rest));
            let d = choose|d: nat| derives_within(g, s, tt.add(rest), d);
            assert(tt.add(rest).len() > 0);
        }
    } else {
        let tail = s.drop_first();
        lemma_seq_begins_with(g, tail, t);
        if seq_begins_with(g, s, t) {
            let rest = choose|rest: Seq<Symbol>| derives(g, s, #[trigger] tt.add(rest));
            let b = tt.add(rest);
            let d = choose|d: nat| derives_within(g, s, b, d);
            let k = choose|k: int|
                0 <= k <= b.len() && symbol_derives_within(g, s[0], #[trigger] b.subrange(0, k), d)
                    && derives_within(g, tail, b.subrange(k, b.len() as int), d);
            let b1 = b.subrange(0, k);
            let b2 = b.subrange(k, b.len() as int);
            if k == 0 {
                assert(b1 =~= Seq::<Symbol>::empty());
                assert(b2 =~= b);
                assert(b1 != seq![s[0]]) by {
                    assert(seq![s[0]].len() == 1);
                }
                let p = choose|p: int| #[trigger]
                    g.is_production(p) && Symbol::Nonterminal(g.productions@[p].nonterminal)
                        == s[0] && derives_within(g, g.rhs(p), b1, (d - 1) as nat);
                lemma_derives_by_production(g, p, b1);
                assert(symbol_nullable(g, s[0]));
                assert(seq_begins_with(g, tail, t));
                let k2 = choose|k2: int| begins_at(g, tail, t, k2);
                assert(begins_at(g, s, t, k2 + 1)) by {
                    assert(s[k2 + 1] == tail[k2]);
                    assert forall|j: int| 0 <= j < k2 + 1 implies symbol_nullable(
                        g,
                        #[trigger] s[j],
                    ) by {
                        if j > 0 {
                            assert(s[j] == tail[j - 1]);
                        }
                    }
                }
            } else {
                assert(b1[0] == Symbol::Terminal(t));
                if b1 == seq![s[0]] {
                    assert(s[0] == Symbol::Terminal(t));
                } else {
                    let p = choose|p: int| #[trigger]
                        g.is_production(p) && Symbol::Nonterminal(g.productions@[p].nonterminal)
                            == s[0] && derives_within(g, g.rhs(p), b1, (d - 1) as nat);
                    lemma_derives_by_production(g, p, b1);
                    assert(b1 =~= tt.add(b1.subrange(1, k)));
                    assert(symbol_begins_with(g, s[0], t));
                }
                assert(begins_at(g, s, t, 0));
            }
        }
        if exists|k: int| begins_at(g, s, t, k) {
            let k = choose|k: int| begins_at(g, s, t, k);
            if k == 0 {
                // the first symbol begins with `t`; the others stay
                let b1: Seq<Symbol>;
                let d: nat;
                match s[0] {
                    Symbol::Terminal(u) => {
                        b1 = tt;
                        d = 0;
                        assert(symbol_derives_within(g, s[0], b1, d));
                    },
                    Symbol::Nonterminal(n) => {
                        let rest = choose|rest: Seq<Symbol>|
                            derives(g, seq![Symbol::Nonterminal(n)], #[trigger] tt.add(rest));
                        b1 = tt.add(rest);
                        d = choose|d: nat| derives_within(g, seq![Symbol::Nonterminal(n)], b1, d);
                        lemma_single_symbol(g, s[0], b1, d);
                    },
                }
                lemma_derives_itself(g, tail, d);
                lemma_derives_cons(g, s[0], tail, b1, tail, d);
                assert(seq![s[0]].add(tail) =~= s);
                assert(b1.add(tail) =~= tt.add(b1.subrange(1, b1.len() as int).add(tail)));
                assert(derives(g, s, tt.add(b1.subrange(1, b1.len() as int).add(tail))));
            } else {
                assert(begins_at(g, tail, t, k - 1)) by {
                    assert(tail[k - 1] == s[k]);
                    assert forall|j: int| 0 <= j < k - 1 implies symbol_nullable(
                        g,
                        #[trigger] tail[j],
                    ) by {
                        assert(tail[j] == s[j + 1]);
                    }
                }
                assert(seq_begins_with(g, tail, t));
                let rest = choose|rest: Seq<Symbol>| derives(g, tail, #[trigger] tt.add(rest));
                let b2 = tt.add(rest);
                let d2 = choose|d: nat| derives_within(g, tail, b2, d);
                let e = Seq::<Symbol>::empty();
                assert(symbol_nullable(g, s[0]));
                let d1 = choose|d: nat| derives_within(g, seq![s[0]], e, d);
                let d = if d1 <= d2 {
                    d2
                } else {
                    d1
                };
                lemma_depth_monotone(g, seq![s[0]], e, d1, d);
                lemma_depth_monotone(g, tail, b2, d2, d);
                lemma_single_symbol(g, s[0], e, d);
                lemma_derives_cons(g, s[0], tail, e, b2, d);
                assert(seq![s[0]].add(tail) =~= s);
                assert(e.add(b2) =~= b2);
                assert(derives(g, s, tt.add(rest)));
            }
        }
    }
}

/// A nonterminal is nullable when the right side of one of its productions
/// is.
pub proof fn lemma_nullable_by_production(g: Grammar, p: int)
    requires
        g.is_production(p),
        seq_nullable(g, g.rhs(p)),
    ensures
        nullable(g, g.productions@[p].nonterminal),
{
    lemma_derives_by_production(g, p, Seq::empty());
}

/// A nonterminal can begin with `t` when the right side of one of its
/// productions can.
pub proof fn lemma_begins_by_production(g: Grammar, p: int, t: usize)
    requires
        g.is_production(p),
        seq_begins_with(g, g.rhs(p), t),
    ensures
        begins_with(g, g.productions@[p].nonterminal, t),
{
    let tt = seq![Symbol::Terminal(t)];
    let rest = choose|rest: Seq<Symbol>| derives(g, g.rhs(p), #[trigger] tt.add(rest));
    lemma_derives_by_production(g, p, tt.add(rest));
}

/// What a sequence in two parts derives is in two parts, one derived
/// from each.  Gives the place where the second part begins.
pub proof fn lemma_derives_split(
    g: Grammar,
    a1: Seq<Symbol>,
    a2: Seq<Symbol>,
    b: Seq<Symbol>,
    depth: nat,
) -> (k: int)
    requires
        derives_within(g, a1.add(a2), b, depth),
    ensures
        0 <= k <= b.len(),
        derives_within(g, a1, b.subrange(0, k), depth),
        derives_within(g, a2, b.subrange(k, b.len() as int), depth),
    decreases a1.len(),
{
    let a = a1.add(a2);
    if a1.len() == 0 {
        assert(a =~= a2);
        assert(b.subrange(0, b.len() as int) =~= b);
        0
    } else {
        let k0 = choose|k: int|
            0 <= k <= b.len() && symbol_derives_within(g, a[0], #[trigger] b.subrange(0, k), depth)
                && derives_within(g, a.drop_first(), b.subrange(k, b.len() as int), depth);
        let rest = b.subrange(k0, b.len() as int);
        assert(a.drop_first() =~= a1.drop_first().add(a2));
        let k1 = lemma_derives_split(g, a1.drop_first(), a2, rest, depth);
        let front = b.subrange(0, k0 + k1);
        assert(front.subrange(0, k0) =~= b.subrange(0, k0));
        assert(front.subrange(k0, front.len() as int) =~= rest.subrange(0, k1));
        assert(b.subrange(k0 + k1, b.len() as int) =~= rest.subrange(k1, rest.len() as int));
        assert(a1[0] == a[0]);
        assert(symbol_derives_within(g, a1[0], front.subrange(0, k0), depth));
        k0 + k1
    }
}

/// What is derived from what a sequence derives is derived from the
/// sequence.
pub proof fn lemma_derives_transitive(
    g: Grammar,
    a: Seq<Symbol>,
    b: Seq<Symbol>,
    c: Seq<Symbol>,
    d1: nat,
    d2: nat,
)
    requires
        derives_within(g, a, b, d1),
        derives_within(g, b, c, d2),
    ensures
        derives_within(g, a, c, d1 + d2),
    decreases d1, a.len() + 1,
{
    if a.len() > 0 {
        let k = choose|k: int|
            0 <= k <= b.len() && symbol_derives_within(g, a[0], #[trigger] b.subrange(0, k), d1)
                && derives_within(g, a.drop_first(), b.subrange(k, b.len() as int), d1);
        let b1 = b.subrange(0, k);
        let b2 = b.subrange(k, b.len() as int);
        assert(b =~= b1.add(b2));
        let j = lemma_derives_split(g, b1, b2, c, d2);
        lemma_symbol_derives_transitive(g, a[0], b1, c.subrange(0, j), d1, d2);
        lemma_derives_transitive(g, a.drop_first(), b2, c.subrange(j, c.len() as int), d1, d2);
    }
}

/// What is derived from what a symbol derives is derived from the symbol.
pub proof fn lemma_symbol_derives_transitive(
    g: Grammar,
    x: Symbol,
    b: Seq<Symbol>,
    c: Seq<Symbol>,
    d1: nat,
    d2: nat,
)
    requires
        symbol_derives_within(g, x, b, d1),
        derives_within(g, b, c, d2),
    ensures
        symbol_derives_within(g, x, c, d1 + d2),
    decreases d1, 0nat,
{
    if b == seq![x] {
        lemma_single_symbol(g, x, c, d2);
        lemma_symbol_depth_monotone(g, x, c, d2, d1 + d2);
    } else {
        let p = choose|p: int| #[trigger]
            g.is_production(p) && Symbol::Nonterminal(g.productions@[p].nonterminal) == x
                && derives_within(g, g.rhs(p), b, (d1 - 1) as nat);
        lemma_derives_transitive(g, g.rhs(p), b, c, (d1 - 1) as nat, d2);
        assert(g.is_production(p));
    }
}

/// What symbols of the grammar derive is made of symbols of the grammar.
pub proof fn lemma_derives_keeps_symbols(g: Grammar, a: Seq<Symbol>, b: Seq<Symbol>, depth: nat)
    requires
        g.wf(),
        forall|j: int| 0 <= j < a.len() ==> g.has_symbol(#[trigger] a[j]),
        derives_within(g, a, b, depth),
    ensures
        forall|j: int| 0 <= j < b.len() ==> g.has_symbol(#[trigger] b[j]),
    decreases depth, a.len() + 1,
{
    if a.len() > 0 {
        let k = choose|k: int|
            0 <= k <= b.len() && symbol_derives_within(g, a[0], #[trigger] b.subrange(0, k), depth)
                && derives_within(g, a.drop_first(), b.subrange(k, b.len() as int), depth);
        let b1 = b.subrange(0, k);
        let b2 = b.subrange(k, b.len() as int);
        let tail = a.drop_first();
        assert forall|j: int| 0 <= j < tail.len() implies g.has_symbol(#[trigger] tail[j]) by {
            assert(tail[j] == a[j + 1]);
        }
        lemma_derives_keeps_symbols(g, tail, b2, depth);
        if b1 != seq![a[0]] {
            let p = choose|p: int| #[trigger]
                g.is_production(p) && Symbol::Nonterminal(g.productions@[p].nonterminal) == a[0]
                    && derives_within(g, g.rhs(p), b1, (depth - 1) as nat);
            assert(g.productions@[p].symbols@ == g.rhs(p));
            lemma_derives_keeps_symbols(g, g.rhs(p), b1, (depth - 1) as nat);
        } else {
            assert(g.has_symbol(a[0]));
            assert forall|j: int| 0 <= j < b1.len() implies g.has_symbol(#[trigger] b1[j]) by {
                assert(b1[j] == a[0]);
            }
        }
        assert forall|j: int| 0 <= j < b.len() implies g.has_symbol(#[trigger] b[j]) by {
            if j < k {
                assert(b[j] == b1[j]);
                assert(g.has_symbol(b1[j]));
            } else {
                assert(b[j] == b2[j - k]);
                assert(g.has_symbol(b2[j - k]));
            }
        }
    }
}

/// Every symbol is a terminal.
pub open spec fn all_terminals(w: Seq<Symbol>) -> bool {
    forall|i: int| 0 <= i < w.len() ==> (#[trigger] w[i]) is Terminal
}

/// Nonterminal `nt` derives a string of terminals.
pub open spec fn productive(g: Grammar, nt: usize) -> bool {
    exists|w: Seq<Symbol>| all_terminals(w) && #[trigger] derives(g, seq![Symbol::Nonterminal(nt)], w)
}

/// Every nonterminal of the grammar derives a string of terminals.
pub open spec fn all_productive(g: Grammar) -> bool {
    forall|nt: usize| nt < g.num_nonterminals ==> #[trigger] productive(g, nt)
}

/// The sequence derives a string of terminals that begins with `t`.
pub open spec fn seq_begins_string(g: Grammar, s: Seq<Symbol>, t: usize) -> bool {
    exists|w: Seq<Symbol>|
        all_terminals(w) && derives(g, s, #[trigger] seq![Symbol::Terminal(t)].add(w))
}

/// Where every nonterminal is productive, every sequence of symbols of the
/// grammar derives a string of terminals.
pub proof fn lemma_derives_some_string(g: Grammar, s: Seq<Symbol>) -> (w: Seq<Symbol>)
    requires
        all_productive(g),
        forall|j: int| 0 <= j < s.len() ==> g.has_symbol(#[trigger] s[j]),
    ensures
        all_terminals(w),
        derives(g, s, w),
    decreases s.len(),
{
    if s.len() == 0 {
        assert(derives_within(g, s, Seq::<Symbol>::empty(), 0));
        Seq::empty()
    } else {
        let tail = s.drop_first();
        assert forall|j: int| 0 <= j < tail.len() implies g.has_symbol(#[trigger] tail[j]) by {
            assert(tail[j] == s[j + 1]);
        }
        let w2 = lemma_derives_some_string(g, tail);
        let d2 = choose|d: nat| derives_within(g, tail, w2, d);
        assert(g.has_symbol(s[0]));
        let w1: Seq<Symbol>;
        let d1: nat;
        match s[0] {
            Symbol::Terminal(u) => {
                w1 = seq![s[0]];
                d1 = 0;
                assert(symbol_derives_within(g, s[0], w1, d1));
            },
            Symbol::Nonterminal(n) => {
                assert(productive(g, n));
                w1 = choose|w: Seq<Symbol>|
                    all_terminals(w) && #[trigger] derives(g, seq![Symbol::Nonterminal(n)], w);
                d1 = choose|d: nat| derives_within(g, seq![Symbol::Nonterminal(n)], w1, d);
                lemma_single_symbol(g, s[0], w1, d1);
            },
        }
        let d = if d1 <= d2 {
            d2
        } else {
            d1
        };
        lemma_symbol_depth_monotone(g, s[0], w1, d1, d);
        lemma_depth_monotone(g, tail, w2, d2, d);
        lemma_derives_cons(g, s[0], tail, w1, w2, d);
        assert(seq![s[0]].add(tail) =~= s);
        w1.add(w2)
    }
}

/// Where every nonterminal is productive, a sequence of symbols of the
/// grammar can begin with `t` exactly when it derives a string of terminals
/// that begins with `t`; and `t` is then a terminal of the grammar.
pub proof fn lemma_begins_with_is_begins_string(g: Grammar, s: Seq<Symbol>, t: usize)
    requires
        g.wf(),
        all_productive(g),
        forall|j: int| 0 <= j < s.len() ==> g.has_symbol(#[trigger] s[j]),
    ensures
        seq_begins_with(g, s, t) <==> seq_begins_string(g, s, t),
        seq_begins_with(g, s, t) ==> t < g.num_terminals,
{
    let tt = seq![Symbol::Terminal(t)];
    if seq_begins_with(g, s, t) {
        let rest = choose|rest: Seq<Symbol>| derives(g, s, #[trigger] tt.add(rest));
        let b = tt.add(rest);
        let d1 = choose|d: nat| derives_within(g, s, b, d);
        lemma_derives_keeps_symbols(g, s, b, d1);
        assert(g.has_symbol(b[0]));
        assert forall|j: int| 0 <= j < rest.len() implies g.has_symbol(#[trigger] rest[j]) by {
            assert(rest[j] == b[j + 1]);
        }
        let w = lemma_derives_some_string(g, rest);
        let d2 = choose|d: nat| derives_within(g, rest, w, d);
        assert(symbol_derives_within(g, Symbol::Terminal(t), tt, d2));
        lemma_derives_cons(g, Symbol::Terminal(t), rest, tt, w, d2);
        lemma_derives_transitive(g, s, b, tt.add(w), d1, d2);
        assert(derives(g, s, tt.add(w)));
    }
    if seq_begins_string(g, s, t) {
        let w = choose|w: Seq<Symbol>| all_terminals(w) && derives(g, s, #[trigger] tt.add(w));
        assert(derives(g, s, tt.add(w)));
    }
}

} // verus!
