//! FIRST sets: for each nonterminal, whether it is nullable and which
//! terminals can begin what it derives; and from these, the tokens that can
//! begin what a sequence of symbols followed by a lookahead derives.

use crate::derivation::{
    all_productive, lemma_begins_with_is_begins_string, seq_begins_string, begins_at, begins_with,
    derives, derives_within, lemma_begins_by_production, lemma_nullable_by_production,
    lemma_seq_begins_with, lemma_seq_nullable, nullable, seq_begins_with, seq_nullable,
    symbol_begins_with, symbol_derives_within, symbol_nullable,
};
use crate::grammar::{Grammar, Symbol};
use crate::token_set::{bits_empty, bits_has, TokenSet};
use vstd::prelude::*;

verus! {

/// Whether token `t` can begin what `s` followed by one of the tokens of
/// `la` derives: either `s` derives something that begins with terminal `t`,
/// or `s` derives the empty sequence and `t` is a token of `la`.
pub open spec fn first1_has(g: Grammar, s: Seq<Symbol>, la: Seq<bool>, t: int) -> bool {
    ||| 0 <= t < g.num_terminals && seq_begins_with(g, s, t as usize)
    ||| seq_nullable(g, s) && bits_has(la, t)
}

/// The set of tokens that can begin what `s` followed by one of the tokens
/// of `la` derives.
pub open spec fn first1_spec(g: Grammar, s: Seq<Symbol>, la: Seq<bool>) -> Seq<bool> {
    Seq::new((g.num_terminals + 1) as nat, |t: int| first1_has(g, s, la, t))
}

/// Where every nonterminal derives a string of terminals, token `t` is in
/// the set that `first1_spec` gives exactly when the symbols derive a string
/// of terminals that begins with `t`, or derive the empty string and `t` is
/// a token of the lookahead.
pub proof fn lemma_first1_begins_strings(g: Grammar, s: Seq<Symbol>, la: Seq<bool>, t: int)
    requires
        g.wf(),
        all_productive(g),
        forall|j: int| 0 <= j < s.len() ==> g.has_symbol(#[trigger] s[j]),
        0 <= t <= usize::MAX,
    ensures
        first1_has(g, s, la, t) <==> seq_begins_string(g, s, t as usize) || (seq_nullable(g, s)
            && bits_has(la, t)),
{
    lemma_begins_with_is_begins_string(g, s, t as usize);
}

/// `begins_at` for a token given as an integer.
pub open spec fn starts_at(g: Grammar, s: Seq<Symbol>, t: int, k: int) -> bool {
    begins_at(g, s, t as usize, k)
}

/// The rows of bits of a sequence of token sets.
pub open spec fn rows(v: Seq<TokenSet>) -> Seq<Seq<bool>> {
    Seq::new(v.len(), |i: int| v[i]@)
}

/// The tables have one entry for each nonterminal and one bit for each token.
pub open spec fn table_shape(g: Grammar, null: Seq<bool>, first: Seq<Seq<bool>>) -> bool {
    &&& null.len() == g.num_nonterminals
    &&& first.len() == g.num_nonterminals
    &&& forall|n: int| 0 <= n < first.len() ==> (#[trigger] first[n]).len() == g.num_terminals + 1
}

/// The symbol is a nonterminal that the table marks nullable.
pub open spec fn table_nullable(null: Seq<bool>, x: Symbol) -> bool {
    x matches Symbol::Nonterminal(n) && n < null.len() && null[n as int]
}

/// The symbol is terminal `t`, or a nonterminal in whose row `t` is.
pub open spec fn table_begins(first: Seq<Seq<bool>>, x: Symbol, t: int) -> bool {
    match x {
        Symbol::Terminal(u) => u == t,
        Symbol::Nonterminal(n) => n < first.len() && bits_has(first[n as int], t),
    }
}

/// By the tables, `s[k]` can begin with `t` and all symbols before it are
/// nullable.
pub open spec fn table_begins_at(
    null: Seq<bool>,
    first: Seq<Seq<bool>>,
    s: Seq<Symbol>,
    t: int,
    k: int,
) -> bool {
    &&& 0 <= k < s.len()
    &&& table_begins(first, s[k], t)
    &&& forall|j: int| 0 <= j < k ==> table_nullable(null, #[trigger] s[j])
}

/// By the tables, every symbol of `s` is nullable.
pub open spec fn table_all_nullable(null: Seq<bool>, s: Seq<Symbol>) -> bool {
    forall|j: int| 0 <= j < s.len() ==> table_nullable(null, #[trigger] s[j])
}

/// The tables hold what production `p` contributes.
pub open spec fn closed_for(g: Grammar, null: Seq<bool>, first: Seq<Seq<bool>>, p: int) -> bool {
    &&& table_all_nullable(null, g.rhs(p)) ==> null[g.lhs(p)]
    &&& forall|t: int, k: int| #[trigger]
        table_begins_at(null, first, g.rhs(p), t, k) ==> bits_has(first[g.lhs(p)], t)
}

/// The tables hold what every production contributes.
pub open spec fn closed(g: Grammar, null: Seq<bool>, first: Seq<Seq<bool>>) -> bool {
    forall|p: int| g.is_production(p) ==> #[trigger] closed_for(g, null, first, p)
}

/// Every entry of the tables is borne out by a derivation.
pub open spec fn sound(g: Grammar, null: Seq<bool>, first: Seq<Seq<bool>>) -> bool {
    &&& forall|n: int| 0 <= n < null.len() && #[trigger] null[n] ==> nullable(g, n as usize)
    &&& forall|n: int, t: int|
        0 <= n < first.len() && #[trigger] bits_has(first[n], t) ==> t < g.num_terminals
            && begins_with(g, n as usize, t as usize)
}

/// The tables say exactly what the grammar derives.
pub open spec fn exact(g: Grammar, null: Seq<bool>, first: Seq<Seq<bool>>) -> bool {
    &&& table_shape(g, null, first)
    &&& forall|n: int| 0 <= n < null.len() ==> #[trigger] null[n] == nullable(g, n as usize)
    &&& forall|n: int, t: int|
        0 <= n < first.len() && 0 <= t < g.num_terminals ==> #[trigger] bits_has(first[n], t)
            == begins_with(g, n as usize, t as usize)
    &&& forall|n: int| 0 <= n < first.len() ==> !(#[trigger] first[n])[g.num_terminals as int]
}

/// Closed tables hold everything that a derivation from `a` shows.
proof fn lemma_closed_covers(
    g: Grammar,
    null: Seq<bool>,
    first: Seq<Seq<bool>>,
    a: Seq<Symbol>,
    b: Seq<Symbol>,
    depth: nat,
)
    requires
        g.wf(),
        table_shape(g, null, first),
        closed(g, null, first),
        derives_within(g, a, b, depth),
        forall|j: int| 0 <= j < a.len() ==> g.has_symbol(#[trigger] a[j]),
    ensures
        b.len() == 0 ==> table_all_nullable(null, a),
        b.len() > 0 ==> (b[0] matches Symbol::Terminal(t) ==> exists|k: int|
            table_begins_at(null, first, a, t as int, k)),
    decreases depth, a.len() + 1,
{
    if a.len() > 0 {
        let k = choose|k: int|
            0 <= k <= b.len() && symbol_derives_within(g, a[0], #[trigger] b.subrange(0, k), depth)
                && derives_within(g, a.drop_first(), b.subrange(k, b.len() as int), depth);
        let b1 = b.subrange(0, k);
        let b2 = b.subrange(k, b.len() as int);
        let tail = a.drop_first();
        assert forall|j: int| 0 <= j < tail.len() implies g.has_symbol(#[trigger] tail[j]) by {
            assert(tail[j] == a[j + 1]);
        }
        lemma_closed_covers_symbol(g, null, first, a[0], b1, depth);
        lemma_closed_covers(g, null, first, tail, b2, depth);
        if b.len() == 0 {
            assert forall|j: int| 0 <= j < a.len() implies table_nullable(null, #[trigger] a[j]) by {
                if j > 0 {
                    assert(a[j] == tail[j - 1]);
                }
            }
        } else if let Symbol::Terminal(t) = b[0] {
            if k == 0 {
                assert(b2 =~= b);
                let k2 = choose|k2: int| table_begins_at(null, first, tail, t as int, k2);
                assert(table_begins_at(null, first, a, t as int, k2 + 1)) by {
                    assert(a[k2 + 1] == tail[k2]);
                    assert forall|j: int| 0 <= j < k2 + 1 implies table_nullable(
                        null,
                        #[trigger] a[j],
                    ) by {
                        if j > 0 {
                            assert(a[j] == tail[j - 1]);
                        }
                    }
                }
            } else {
                assert(b1[0] == b[0]);
                assert(table_begins_at(null, first, a, t as int, 0));
            }
        }
    }
}

/// Closed tables hold everything that a derivation from `x` shows.
proof fn lemma_closed_covers_symbol(
    g: Grammar,
    null: Seq<bool>,
    first: Seq<Seq<bool>>,
    x: Symbol,
    b: Seq<Symbol>,
    depth: nat,
)
    requires
        g.wf(),
        table_shape(g, null, first),
        closed(g, null, first),
        symbol_derives_within(g, x, b, depth),
        g.has_symbol(x),
    ensures
        b.len() == 0 ==> table_nullable(null, x),
        b.len() > 0 ==> (b[0] matches Symbol::Terminal(t) ==> table_begins(first, x, t as int)),
    decreases depth, 0nat,
{
    if b == seq![x] {
        assert(b.len() == 1);
        assert(b[0] == x);
    } else {
        let p = choose|p: int| #[trigger]
            g.is_production(p) && Symbol::Nonterminal(g.productions@[p].nonterminal) == x
                && derives_within(g, g.rhs(p), b, (depth - 1) as nat);
        assert(g.productions@[p].nonterminal == g.lhs(p));
        lemma_closed_covers(g, null, first, g.rhs(p), b, (depth - 1) as nat);
        assert(closed_for(g, null, first, p));
        if b.len() > 0 {
            if let Symbol::Terminal(t) = b[0] {
                let k = choose|k: int| table_begins_at(null, first, g.rhs(p), t as int, k);
                assert(table_begins_at(null, first, g.rhs(p), t as int, k));
            }
        }
    }
}

/// Tables that are sound and closed are exact.
proof fn lemma_sound_and_closed_is_exact(g: Grammar, null: Seq<bool>, first: Seq<Seq<bool>>)
    requires
        g.wf(),
        table_shape(g, null, first),
        sound(g, null, first),
        closed(g, null, first),
    ensures
        exact(g, null, first),
{
    assert forall|n: int| 0 <= n < null.len() implies #[trigger] null[n] == nullable(
        g,
        n as usize,
    ) by {
        if nullable(g, n as usize) {
            let a = seq![Symbol::Nonterminal(n as usize)];
            let e = Seq::<Symbol>::empty();
            let d = choose|d: nat| derives_within(g, a, e, d);
            lemma_closed_covers(g, null, first, a, e, d);
            assert(table_nullable(null, a[0]));
        }
    }
    assert forall|n: int, t: int|
        0 <= n < first.len() && 0 <= t < g.num_terminals implies #[trigger] bits_has(first[n], t)
        == begins_with(g, n as usize, t as usize) by {
        if begins_with(g, n as usize, t as usize) {
            let a = seq![Symbol::Nonterminal(n as usize)];
            let tt = seq![Symbol::Terminal(t as usize)];
            let rest = choose|rest: Seq<Symbol>| derives(g, a, #[trigger] tt.add(rest));
            let b = tt.add(rest);
            let d = choose|d: nat| derives_within(g, a, b, d);
            lemma_closed_covers(g, null, first, a, b, d);
            assert(b[0] == Symbol::Terminal(t as usize));
            let k = choose|k: int| table_begins_at(null, first, a, t, k);
            assert(table_begins(first, a[0], t));
        }
    }
    assert forall|n: int| 0 <= n < first.len() implies !(#[trigger] first[n])[g.num_terminals as int] by {
        if first[n][g.num_terminals as int] {
            assert(bits_has(first[n], g.num_terminals as int));
        }
    }
}

/// The number of bits that are set in a row.
pub open spec fn count_bits(s: Seq<bool>) -> nat
    decreases s.len(),
{
    if s.len() == 0 {
        0
    } else {
        count_bits(s.drop_last()) + if s.last() {
            1nat
        } else {
            0nat
        }
    }
}

/// The number of bits that are set in all rows.
pub open spec fn count_rows(r: Seq<Seq<bool>>) -> nat
    decreases r.len(),
{
    if r.len() == 0 {
        0
    } else {
        count_rows(r.drop_last()) + count_bits(r.last())
    }
}

proof fn lemma_count_bits_bound(s: Seq<bool>)
    ensures
        count_bits(s) <= s.len(),
    decreases s.len(),
{
    if s.len() > 0 {
        lemma_count_bits_bound(s.drop_last());
    }
}

proof fn lemma_count_rows_bound(r: Seq<Seq<bool>>, w: nat)
    requires
        forall|i: int| 0 <= i < r.len() ==> (#[trigger] r[i]).len() == w,
    ensures
        count_rows(r) <= r.len() * w,
    decreases r.len(),
{
    if r.len() > 0 {
        let h = r.drop_last();
        assert forall|i: int| 0 <= i < h.len() implies (#[trigger] h[i]).len() == w by {
            assert(h[i] == r[i]);
        }
        lemma_count_rows_bound(h, w);
        lemma_count_bits_bound(r.last());
        assert(r.len() * w == h.len() * w + w) by (nonlinear_arith)
            requires
                r.len() == h.len() + 1,
        ;
    }
}

/// A row that gains bits counts more.
proof fn lemma_count_bits_grow(a: Seq<bool>, b: Seq<bool>)
    requires
        a.len() == b.len(),
        forall|i: int| 0 <= i < a.len() && a[i] ==> b[i],
    ensures
        count_bits(a) <= count_bits(b),
        a != b ==> count_bits(a) < count_bits(b),
    decreases a.len(),
{
    if a.len() > 0 {
        lemma_count_bits_grow(a.drop_last(), b.drop_last());
        if a.drop_last() == b.drop_last() && a.last() == b.last() {
            assert(a =~= a.drop_last().push(a.last()));
            assert(b =~= b.drop_last().push(b.last()));
        }
    } else {
        assert(a =~= b);
    }
}

/// Replacing one row changes the count by the difference of the two rows.
proof fn lemma_count_rows_update(r: Seq<Seq<bool>>, i: int, row: Seq<bool>)
    requires
        0 <= i < r.len(),
    ensures
        count_rows(r.update(i, row)) + count_bits(r[i]) == count_rows(r) + count_bits(row),
    decreases r.len(),
{
    let u = r.update(i, row);
    if i == r.len() - 1 {
        assert(u.drop_last() =~= r.drop_last());
    } else {
        lemma_count_rows_update(r.drop_last(), i, row);
        assert(u.drop_last() =~= r.drop_last().update(i, row));
    }
}

/// Every row of `a` is within the row of `b` at the same place.
pub open spec fn rows_within(a: Seq<Seq<bool>>, b: Seq<Seq<bool>>) -> bool {
    &&& a.len() == b.len()
    &&& forall|n: int, t: int| 0 <= n < a.len() && #[trigger] bits_has(a[n], t) ==> bits_has(b[n], t)
}

/// How far the tables are from full.
pub open spec fn room(g: Grammar, null: Seq<bool>, first: Seq<Seq<bool>>) -> int {
    g.num_nonterminals * (g.num_terminals + 1) + g.num_nonterminals - count_rows(first)
        - count_bits(null)
}

proof fn lemma_room_nonnegative(g: Grammar, null: Seq<bool>, first: Seq<Seq<bool>>)
    requires
        table_shape(g, null, first),
    ensures
        room(g, null, first) >= 0,
{
    lemma_count_rows_bound(first, (g.num_terminals + 1) as nat);
    lemma_count_bits_bound(null);
}

/// The nullable nonterminals and the FIRST set of each nonterminal.
#[derive(Clone, Debug, PartialEq, Eq)]
pub struct FirstSets {
    pub nullable: Vec<bool>,
    pub first: Vec<TokenSet>,
}

impl FirstSets {
    /// The tables are those of grammar `g`.
    pub open spec fn wf(&self, g: Grammar) -> bool {
        exact(g, self.nullable@, rows(self.first@))
    }

    /// Computes the tables of a grammar: starting from empty tables, the
    /// contribution of every production is added until nothing grows.
    pub fn new(grammar: &Grammar) -> (r: FirstSets)
        requires
            grammar.wf(),
        ensures
            r.wf(*grammar),
    {
        let mut nullable: Vec<bool> = Vec::new();
        let mut first: Vec<TokenSet> = Vec::new();
        let mut n: usize = 0;
        while n < grammar.num_nonterminals
            invariant
                grammar.wf(),
                n <= grammar.num_nonterminals,
                nullable@.len() == n,
                first@.len() == n,
                forall|i: int| 0 <= i < n ==> !(#[trigger] nullable@[i]),
                forall|i: int|
                    0 <= i < n ==> (#[trigger] first@[i])@ == bits_empty(
                        (grammar.num_terminals + 1) as nat,
                    ),
            decreases grammar.num_nonterminals - n,
        {
            nullable.push(false);
            first.push(TokenSet::new(grammar.num_terminals + 1));
            n += 1;
        }
        loop
            invariant
                grammar.wf(),
                table_shape(*grammar, nullable@, rows(first@)),
                sound(*grammar, nullable@, rows(first@)),
            ensures
                table_shape(*grammar, nullable@, rows(first@)),
                sound(*grammar, nullable@, rows(first@)),
                closed(*grammar, nullable@, rows(first@)),
            decreases room(*grammar, nullable@, rows(first@)),
        {
            proof {
                lemma_room_nonnegative(*grammar, nullable@, rows(first@));
            }
            let grew = relax_all(grammar, &mut nullable, &mut first);
            proof {
                lemma_room_nonnegative(*grammar, nullable@, rows(first@));
            }
            if !grew {
                break ;
            }
        }
        proof {
            lemma_sound_and_closed_is_exact(*grammar, nullable@, rows(first@));
        }
        FirstSets { nullable, first }
    }

    /// Whether nonterminal `nt` derives the empty sequence.
    pub fn is_nullable(&self, grammar: &Grammar, nt: usize) -> (b: bool)
        requires
            self.wf(*grammar),
            nt < grammar.num_nonterminals,
        ensures
            b == nullable(*grammar, nt),
    {
        self.nullable[nt]
    }

    /// The terminals that can begin what nonterminal `nt` derives.
    pub fn first(&self, grammar: &Grammar, nt: usize) -> (r: &TokenSet)
        requires
            self.wf(*grammar),
            nt < grammar.num_nonterminals,
        ensures
            r@.len() == grammar.num_terminals + 1,
            forall|t: int|
                0 <= t < grammar.num_terminals ==> r@[t] == begins_with(*grammar, nt, t as usize),
            !r@[grammar.num_terminals as int],
    {
        let r = &self.first[nt];
        proof {
            let f = rows(self.first@);
            assert(f[nt as int] == r@);
            assert forall|t: int| 0 <= t < grammar.num_terminals implies r@[t] == begins_with(
                *grammar,
                nt,
                t as usize,
            ) by {
                assert(bits_has(f[nt as int], t) == r@[t]);
            }
        }
        r
    }

    /// The tokens that can begin what `symbols` followed by one of the
    /// tokens of `lookahead` derives.
    pub fn first1(&self, grammar: &Grammar, symbols: &[Symbol], lookahead: &TokenSet) -> (r:
        TokenSet)
        requires
            grammar.wf(),
            self.wf(*grammar),
            forall|j: int| 0 <= j < symbols@.len() ==> grammar.has_symbol(#[trigger] symbols@[j]),
            lookahead@.len() == grammar.num_terminals + 1,
        ensures
            r@ == first1_spec(*grammar, symbols@, lookahead@),
    {
        let ghost g = *grammar;
        let ghost s = symbols@;
        let ghost f = rows(self.first@);
        let mut result = TokenSet::new(lookahead.len());
        let mut k: usize = 0;
        while k < symbols.len()
            invariant
                g == *grammar,
                s == symbols@,
                f == rows(self.first@),
                g.wf(),
                self.wf(g),
                forall|j: int| 0 <= j < s.len() ==> g.has_symbol(#[trigger] s[j]),
                lookahead@.len() == g.num_terminals + 1,
                k <= s.len(),
                result@.len() == g.num_terminals + 1,
                forall|j: int| 0 <= j < k ==> symbol_nullable(g, #[trigger] s[j]),
                forall|t: int|
                    0 <= t <= g.num_terminals ==> (#[trigger] result@[t] <==> t < g.num_terminals
                        && exists|i: int| 0 <= i < k && starts_at(g, s, t, i)),
            decreases s.len() - k,
        {
            let ghost before = result@;
            let x = symbols[k];
            assert(g.has_symbol(s[k as int]));
            let stop = match x {
                Symbol::Terminal(u) => {
                    result.insert(u);
                    true
                },
                Symbol::Nonterminal(m) => {
                    assert(f[m as int] == self.first@[m as int]@);
                    result.union_with(&self.first[m]);
                    !self.nullable[m]
                },
            };
            assert forall|t: int| 0 <= t <= g.num_terminals implies (#[trigger] result@[t] <==> t
                < g.num_terminals && exists|i: int| 0 <= i < k + 1 && starts_at(g, s, t, i)) by {
                let here = t < g.num_terminals && starts_at(g, s, t, k as int);
                assert(result@[t] == (before[t] || here)) by {
                    match x {
                        Symbol::Terminal(u) => {},
                        Symbol::Nonterminal(m) => {
                            if t < g.num_terminals {
                                assert(bits_has(f[m as int], t) == begins_with(g, m, t as usize));
                            }
                        },
                    }
                }
                if before[t] {
                    let i = choose|i: int| 0 <= i < k && starts_at(g, s, t, i);
                    assert(0 <= i < k + 1 && starts_at(g, s, t, i));
                }
                if t < g.num_terminals && exists|i: int|
                    0 <= i < k + 1 && starts_at(g, s, t, i) {
                    let i = choose|i: int| 0 <= i < k + 1 && starts_at(g, s, t, i);
                    if i < k {
                        assert(before[t]);
                    }
                }
            }
            if stop {
                proof {
                    assert(!symbol_nullable(g, s[k as int]));
                    lemma_seq_nullable(g, s);
                    assert forall|t: int| 0 <= t <= g.num_terminals implies #[trigger] result@[t]
                        == first1_has(g, s, lookahead@, t) by {
                        if t < g.num_terminals {
                            lemma_seq_begins_with(g, s, t as usize);
                            if seq_begins_with(g, s, t as usize) {
                                let tu = t as usize;
                                let i = choose|i: int| begins_at(g, s, tu, i);
                                assert(starts_at(g, s, t, i));
                                if i > k {
                                    assert(symbol_nullable(g, s[k as int]));
                                }
                                assert(0 <= i < k + 1 && starts_at(g, s, t, i));
                            }
                        }
                    }
                    assert(result@ =~= first1_spec(g, s, lookahead@));
                }
                return result;
            }
            k += 1;
        }
        let ghost before = result@;
        result.union_with(lookahead);
        proof {
            lemma_seq_nullable(g, s);
            assert forall|t: int| 0 <= t <= g.num_terminals implies #[trigger] result@[t]
                == first1_has(g, s, lookahead@, t) by {
                assert(result@[t] == (before[t] || lookahead@[t]));
                if t < g.num_terminals {
                    lemma_seq_begins_with(g, s, t as usize);
                    if seq_begins_with(g, s, t as usize) {
                        let tu = t as usize;
                        let i = choose|i: int| begins_at(g, s, tu, i);
                        assert(starts_at(g, s, t, i));
                        assert(0 <= i < k && starts_at(g, s, t, i));
                    }
                }
            }
            assert(result@ =~= first1_spec(g, s, lookahead@));
        }
        result
    }
}

/// Adds to the tables what every production contributes; tells whether
/// anything grew.
fn relax_all(grammar: &Grammar, nullable: &mut Vec<bool>, first: &mut Vec<TokenSet>) -> (grew: bool)
    requires
        grammar.wf(),
        table_shape(*grammar, old(nullable)@, rows(old(first)@)),
        sound(*grammar, old(nullable)@, rows(old(first)@)),
    ensures
        table_shape(*grammar, final(nullable)@, rows(final(first)@)),
        sound(*grammar, final(nullable)@, rows(final(first)@)),
        grew ==> room(*grammar, final(nullable)@, rows(final(first)@)) < room(
            *grammar,
            old(nullable)@,
            rows(old(first)@),
        ),
        !grew ==> closed(*grammar, final(nullable)@, rows(final(first)@)),
{
    let ghost g = *grammar;
    let ghost null0 = nullable@;
    let ghost first0 = rows(first@);
    let mut grew = false;
    let mut p: usize = 0;
    while p < grammar.productions.len()
        invariant
            g == *grammar,
            g.wf(),
            p <= g.num_productions(),
            table_shape(g, nullable@, rows(first@)),
            sound(g, nullable@, rows(first@)),
            room(g, nullable@, rows(first@)) <= room(g, null0, first0),
            grew ==> room(g, nullable@, rows(first@)) < room(g, null0, first0),
            !grew ==> forall|q: int| 0 <= q < p ==> #[trigger] closed_for(g, nullable@, rows(first@), q),
        decreases g.num_productions() - p,
    {
        let ghost null1 = nullable@;
        let ghost first1 = rows(first@);
        let here = relax_production(grammar, p, nullable, first);
        proof {
            if !here && !grew {
                assert(nullable@ == null1);
                assert(rows(first@) == first1);
            }
        }
        if here {
            grew = true;
        }
        p += 1;
    }
    grew
}

/// Adds to the tables what production `p` contributes; tells whether
/// anything grew.
fn relax_production(
    grammar: &Grammar,
    p: usize,
    nullable: &mut Vec<bool>,
    first: &mut Vec<TokenSet>,
) -> (grew: bool)
    requires
        grammar.wf(),
        p < grammar.num_productions(),
        table_shape(*grammar, old(nullable)@, rows(old(first)@)),
        sound(*grammar, old(nullable)@, rows(old(first)@)),
    ensures
        table_shape(*grammar, final(nullable)@, rows(final(first)@)),
        sound(*grammar, final(nullable)@, rows(final(first)@)),
        room(*grammar, final(nullable)@, rows(final(first)@)) <= room(
            *grammar,
            old(nullable)@,
            rows(old(first)@),
        ),
        grew ==> room(*grammar, final(nullable)@, rows(final(first)@)) < room(
            *grammar,
            old(nullable)@,
            rows(old(first)@),
        ),
        !grew ==> final(nullable)@ == old(nullable)@ && rows(final(first)@) == rows(old(first)@)
            && closed_for(*grammar, final(nullable)@, rows(final(first)@), p as int),
{
    let ghost g = *grammar;
    let ghost null0 = nullable@;
    let ghost first0 = rows(first@);
    let ghost rhs = g.rhs(p as int);
    let lhs = grammar.productions[p].nonterminal;
    let len = grammar.productions[p].symbols.len();
    assert(g.productions@[p as int].nonterminal == lhs);
    assert(first0[lhs as int] == first@[lhs as int]@);
    let mut row = TokenSet::new(grammar.num_terminals + 1);
    row.union_with(&first[lhs]);
    assert(row@ =~= first0[lhs as int]);
    let mut k: usize = 0;
    let mut stopped = false;
    while k < len && !stopped
        invariant
            g == *grammar,
            g.wf(),
            p < g.num_productions(),
            rhs == g.rhs(p as int),
            len == rhs.len(),
            lhs == g.lhs(p as int),
            null0 == nullable@,
            first0 == rows(first@),
            table_shape(g, null0, first0),
            sound(g, null0, first0),
            k <= len,
            row@.len() == g.num_terminals + 1,
            forall|j: int| 0 <= j < k ==> table_nullable(null0, #[trigger] rhs[j]),
            stopped ==> k < len && !table_nullable(null0, rhs[k as int]),
            forall|t: int| bits_has(first0[lhs as int], t) ==> #[trigger] bits_has(row@, t),
            forall|t: int| #[trigger]
                bits_has(row@, t) ==> t < g.num_terminals && begins_with(g, lhs, t as usize),
            forall|t: int, i: int|
                0 <= i < k + (if stopped {
                    1int
                } else {
                    0int
                }) && #[trigger] table_begins_at(null0, first0, rhs, t, i) ==> bits_has(row@, t),
        decreases len - k + (if stopped { 0int } else { 1int }),
    {
        let ghost before = row@;
        let x = grammar.productions[p].symbols[k];
        assert(x == rhs[k as int]);
        assert(g.has_symbol(rhs[k as int]));
        match x {
            Symbol::Terminal(u) => {
                row.insert(u);
                stopped = true;
            },
            Symbol::Nonterminal(m) => {
                assert(first0[m as int] == first@[m as int]@);
                row.union_with(&first[m]);
                if !nullable[m] {
                    stopped = true;
                }
            },
        }
        proof {
            assert forall|t: int| #[trigger]
                bits_has(row@, t) == (bits_has(before, t) || table_begins(first0, x, t)) by {}
            assert forall|t: int| #[trigger] bits_has(row@, t) implies t < g.num_terminals
                && begins_with(g, lhs, t as usize) by {
                if !bits_has(before, t) {
                    assert(table_begins(first0, x, t));
                    assert(symbol_begins_with(g, x, t as usize)) by {
                        match x {
                            Symbol::Terminal(u) => {},
                            Symbol::Nonterminal(m) => {
                                assert(bits_has(first0[m as int], t));
                            },
                        }
                    }
                    assert(begins_at(g, rhs, t as usize, k as int)) by {
                        assert forall|j: int| 0 <= j < k implies symbol_nullable(
                            g,
                            #[trigger] rhs[j],
                        ) by {
                            assert(table_nullable(null0, rhs[j]));
                        }
                    }
                    lemma_seq_begins_with(g, rhs, t as usize);
                    lemma_begins_by_production(g, p as int, t as usize);
                }
            }
            assert forall|t: int, i: int|
                0 <= i < k + 1 && #[trigger] table_begins_at(
                    null0,
                    first0,
                    rhs,
                    t,
                    i,
                ) implies bits_has(row@, t) by {
                if i == k {
                    assert(table_begins(first0, x, t));
                } else {
                    assert(bits_has(before, t));
                }
            }
        }
        if !stopped {
            k += 1;
        }
    }
    proof {
        assert forall|t: int, i: int| #[trigger]
            table_begins_at(null0, first0, rhs, t, i) implies bits_has(row@, t) by {
            if stopped && i > k {
                assert(table_nullable(null0, rhs[k as int]));
            }
        }
    }
    let mut grew = false;
    if !stopped && !nullable[lhs] {
        nullable.set(lhs, true);
        grew = true;
        proof {
            assert forall|j: int| 0 <= j < rhs.len() implies symbol_nullable(g, #[trigger] rhs[j]) by {
                assert(table_nullable(null0, rhs[j]));
            }
            lemma_seq_nullable(g, rhs);
            lemma_nullable_by_production(g, p as int);
            lemma_count_bits_grow(null0, nullable@);
            assert(nullable@ != null0) by {
                assert(nullable@[lhs as int] != null0[lhs as int]);
            }
        }
    }
    proof {
        assert forall|i: int| 0 <= i < row@.len() && first0[lhs as int][i] implies row@[i] by {
            assert(bits_has(first0[lhs as int], i));
            assert(bits_has(row@, i));
        }
        lemma_count_bits_grow(first0[lhs as int], row@);
        lemma_count_rows_update(first0, lhs as int, row@);
    }
    let row_grew = !same_bits(&row, &first[lhs]);
    if row_grew {
        let ghost row_bits = row@;
        first.set(lhs, row);
        grew = true;
        proof {
            assert(rows(first@) =~= first0.update(lhs as int, row_bits));
        }
    } else {
        proof {
            assert(rows(first@) =~= first0);
            if !stopped {
                assert(table_all_nullable(null0, rhs));
            }
            if table_all_nullable(null0, rhs) {
                if stopped {
                    assert(table_nullable(null0, rhs[k as int]));
                }
            }
        }
    }
    grew
}

/// Whether two token sets hold the same bits.
pub fn same_bits(a: &TokenSet, b: &TokenSet) -> (r: bool)
    ensures
        r == (a@ == b@),
{
    if a.bits.len() != b.bits.len() {
        return false;
    }
    let mut i: usize = 0;
    while i < a.bits.len()
        invariant
            a@.len() == b@.len(),
            i <= a@.len(),
            forall|j: int| 0 <= j < i ==> a@[j] == b@[j],
        decreases a@.len() - i,
    {
        if a.bits[i] != b.bits[i] {
            return false;
        }
        i += 1;
    }
    assert(a@ =~= b@);
    true
}

} // verus!
