//! Grammars: numbered terminals and nonterminals, and productions over them.

use vstd::prelude::*;

verus! {

/// A grammar symbol.  Terminals and nonterminals are numbered separately,
/// each from zero.
#[derive(Clone, Copy, Debug, PartialEq, Eq, Structural, Hash)]
pub enum Symbol {
    Terminal(usize),
    Nonterminal(usize),
}

/// One production `nonterminal -> symbols`, with the number of the action
/// that a generated parser runs when it reduces by it.
#[derive(Clone, Debug, PartialEq, Eq)]
pub struct Production {
    pub nonterminal: usize,
    pub symbols: Vec<Symbol>,
    pub action: usize,
}

/// A grammar.  A production is known by its position in `productions`.
#[derive(Clone, Debug, PartialEq, Eq)]
pub struct Grammar {
    pub num_terminals: usize,
    pub num_nonterminals: usize,
    pub productions: Vec<Production>,
}

impl Grammar {
    /// The number of productions.
    pub open spec fn num_productions(&self) -> int {
        self.productions@.len() as int
    }

    /// Whether `p` numbers a production.
    pub open spec fn is_production(&self, p: int) -> bool {
        0 <= p < self.productions@.len()
    }

    /// The nonterminal on the left of production `p`.
    pub open spec fn lhs(&self, p: int) -> int {
        self.productions@[p].nonterminal as int
    }

    /// The symbols on the right of production `p`.
    pub open spec fn rhs(&self, p: int) -> Seq<Symbol> {
        self.productions@[p].symbols@
    }

    /// Whether `s` is a symbol of this grammar.
    pub open spec fn has_symbol(&self, s: Symbol) -> bool {
        match s {
            Symbol::Terminal(t) => t < self.num_terminals,
            Symbol::Nonterminal(n) => n < self.num_nonterminals,
        }
    }

    /// A grammar is well formed when every production rewrites one of its
    /// nonterminals into symbols of the grammar, and the terminals leave room
    /// for the end-of-input marker, which is numbered `num_terminals`.
    pub open spec fn wf(&self) -> bool {
        &&& self.num_terminals < usize::MAX
        &&& forall|p: int|
            #![trigger self.productions@[p]]
            self.is_production(p) ==> {
                &&& self.lhs(p) < self.num_nonterminals
                &&& forall|k: int|
                    0 <= k < self.rhs(p).len() ==> self.has_symbol(#[trigger] self.rhs(p)[k])
            }
    }

    /// The productions of `nt` among the first `n` productions, in order.
    pub open spec fn productions_upto(&self, nt: int, n: int) -> Seq<int>
        decreases n,
    {
        if n <= 0 {
            Seq::empty()
        } else if self.lhs(n - 1) == nt {
            self.productions_upto(nt, n - 1).push(n - 1)
        } else {
            self.productions_upto(nt, n - 1)
        }
    }

    /// The productions of `nt`, in order.
    pub open spec fn productions_of(&self, nt: int) -> Seq<int> {
        self.productions_upto(nt, self.num_productions())
    }

    /// `productions_upto` holds exactly the productions of `nt` below `n`,
    /// in increasing order.
    pub proof fn lemma_productions_upto(&self, nt: int, n: int)
        requires
            0 <= n <= self.num_productions(),
        ensures
            forall|p: int|
                self.productions_upto(nt, n).contains(p) <==> 0 <= p < n && self.lhs(p) == nt,
            forall|i: int, j: int|
                0 <= i < j < self.productions_upto(nt, n).len() ==> self.productions_upto(nt, n)[i]
                    < self.productions_upto(nt, n)[j],
            forall|i: int|
                0 <= i < self.productions_upto(nt, n).len() ==> 0 <= #[trigger] self.productions_upto(
                    nt,
                    n,
                )[i] < n,
        decreases n,
    {
        if n > 0 {
            self.lemma_productions_upto(nt, n - 1);
            let prev = self.productions_upto(nt, n - 1);
            let cur = self.productions_upto(nt, n);
            if self.lhs(n - 1) == nt {
                assert(cur == prev.push(n - 1));
                assert forall|p: int| cur.contains(p) <==> 0 <= p < n && self.lhs(p) == nt by {
                    if cur.contains(p) {
                        let i = choose|i: int| 0 <= i < cur.len() && cur[i] == p;
                        if i < prev.len() {
                            assert(prev.contains(p));
                        }
                    }
                    if 0 <= p < n && self.lhs(p) == nt {
                        if p == n - 1 {
                            assert(cur[cur.len() - 1] == p);
                        } else {
                            assert(prev.contains(p));
                            let i = choose|i: int| 0 <= i < prev.len() && prev[i] == p;
                            assert(cur[i] == p);
                        }
                    }
                }
            }
        }
    }

    /// Checks the productions against the symbol counts and makes the
    /// grammar; `None` when a production names a symbol out of range.
    pub fn new(num_terminals: usize, num_nonterminals: usize, productions: Vec<Production>) -> (r:
        Option<Grammar>)
        ensures
            r is Some <==> (Grammar { num_terminals, num_nonterminals, productions }).wf(),
            r matches Some(g) ==> g.num_terminals == num_terminals && g.num_nonterminals
                == num_nonterminals && g.productions == productions,
    {
        let g = Grammar { num_terminals, num_nonterminals, productions };
        if num_terminals == usize::MAX {
            return None;
        }
        let mut p: usize = 0;
        while p < g.productions.len()
            invariant
                p <= g.productions@.len(),
                g == (Grammar { num_terminals, num_nonterminals, productions }),
                num_terminals < usize::MAX,
                forall|q: int|
                    #![trigger g.productions@[q]]
                    0 <= q < p ==> {
                        &&& g.lhs(q) < g.num_nonterminals
                        &&& forall|k: int|
                            0 <= k < g.rhs(q).len() ==> g.has_symbol(#[trigger] g.rhs(q)[k])
                    },
            decreases g.productions@.len() - p,
        {
            if g.productions[p].nonterminal >= num_nonterminals {
                assert(!(g.lhs(p as int) < g.num_nonterminals));
                return None;
            }
            let mut k: usize = 0;
            while k < g.productions[p].symbols.len()
                invariant
                    p < g.productions@.len(),
                    k <= g.rhs(p as int).len(),
                    g == (Grammar { num_terminals, num_nonterminals, productions }),
                    forall|j: int| 0 <= j < k ==> g.has_symbol(#[trigger] g.rhs(p as int)[j]),
                decreases g.rhs(p as int).len() - k,
            {
                let ok = match g.productions[p].symbols[k] {
                    Symbol::Terminal(t) => t < num_terminals,
                    Symbol::Nonterminal(n) => n < num_nonterminals,
                };
                if !ok {
                    assert(!g.has_symbol(g.rhs(p as int)[k as int]));
                    assert(g.productions@[p as int].symbols@ == g.rhs(p as int));
                    return None;
                }
                k += 1;
            }
            p += 1;
        }
        Some(g)
    }

    /// The nonterminals, in order.
    pub fn all_nonterminals(&self) -> (r: Vec<usize>)
        ensures
            r@ == Seq::new(self.num_nonterminals as nat, |i: int| i as usize),
    {
        let mut out: Vec<usize> = Vec::new();
        let mut n: usize = 0;
        while n < self.num_nonterminals
            invariant
                n <= self.num_nonterminals,
                out@ == Seq::new(n as nat, |i: int| i as usize),
            decreases self.num_nonterminals - n,
        {
            out.push(n);
            assert(out@ =~= Seq::new((n + 1) as nat, |i: int| i as usize));
            n += 1;
        }
        out
    }

    /// The numbers of the productions of `nt`, in order.
    pub fn productions_for(&self, nt: usize) -> (r: Vec<usize>)
        ensures
            r@.map_values(|p: usize| p as int) == self.productions_of(nt as int),
    {
        let mut out: Vec<usize> = Vec::new();
        let mut p: usize = 0;
        while p < self.productions.len()
            invariant
                p <= self.productions@.len(),
                out@.map_values(|p: usize| p as int) == self.productions_upto(nt as int, p as int),
            decreases self.productions@.len() - p,
        {
            if self.productions[p].nonterminal == nt {
                out.push(p);
            }
            p += 1;
        }
        out
    }
}

} // verus!
