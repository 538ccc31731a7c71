//! The construction of the states of an LR(0) or LR(1) automaton.

use crate::automaton::{
    build_view, builds, expand, halted, is_build, kernel_ok, lemma_all_conflicts_empty,
    lemma_closure_all_ok, lemma_initial_well_built, lemma_kernels_distinct,
    lemma_step_well_built, link_upto, run, state_kernel, step, symbol_of, target_kernel,
    well_built, Links,
};
use crate::closure::{
    all_ok, eps_lookahead, eps_step, holds_item, in_closure, is_closure_of, items, items_spec,
    lemma_closed_holds_closure, lemma_closure_holds_seed, lemma_closure_step,
    lemma_closure_unique, lemma_eps_step_items, lemma_items_upto, reaches, sort_dedup,
    strictly_sorted,
};
use crate::first::FirstSets;
use crate::grammar::{Grammar, Symbol};
use crate::item::{item_views, la_len, Item, ItemView, LR0Item, LR1Item};
use crate::kernel_set::{register, Kernel, KernelSet, StateIndex};
use crate::lookahead::{Lookahead, Nil};
use crate::state::{
    conflict_free, conflict_views, state_views, Conflict, ConflictView, Items, LR0State,
    LR0TableConstructionError, LR1State, LR1TableConstructionError, State, StateView,
    TableConstructionError,
};
use crate::successor::{lemma_successor_shape, successor};
use crate::token_set::{bits_single, TokenSet};
use vstd::prelude::*;

verus! {

/// The outcome of an LR(1) construction.
pub type LR1Result = Result<Vec<LR1State>, LR1TableConstructionError>;

/// The outcome of an LR(0) construction.
pub type LR0Result = Result<Vec<LR0State>, LR0TableConstructionError>;

/// A lookahead that can be carried through epsilon moves.
pub trait LookaheadBuild: Lookahead {
    /// The items that an epsilon move adds for nonterminal `nt`, when the
    /// item that causes the move has `remainder` behind the nonterminal and
    /// carries `lookahead`: one for each production of `nt`, with the dot at
    /// the start.
    fn epsilon_moves(
        grammar: &Grammar,
        first_sets: &FirstSets,
        nt: usize,
        remainder: &[Symbol],
        lookahead: Self,
    ) -> (r: Vec<Item<Self>>)
        requires
            grammar.wf(),
            first_sets.wf(*grammar),
            forall|j: int| 0 <= j < remainder@.len() ==> grammar.has_symbol(#[trigger] remainder@[j]),
            lookahead.bits().len() == la_len(*grammar, Self::carries_tokens()),
        ensures
            item_views(r@) == items_spec(
                *grammar,
                nt as int,
                0,
                eps_lookahead(*grammar, Self::carries_tokens(), remainder@, lookahead.bits()),
            ),
    ;
}

impl LookaheadBuild for Nil {
    fn epsilon_moves(
        grammar: &Grammar,
        first_sets: &FirstSets,
        nt: usize,
        remainder: &[Symbol],
        lookahead: Nil,
    ) -> (r: Vec<LR0Item>) {
        items(grammar, nt, 0, &lookahead)
    }
}

impl LookaheadBuild for TokenSet {
    fn epsilon_moves(
        grammar: &Grammar,
        first_sets: &FirstSets,
        nt: usize,
        remainder: &[Symbol],
        lookahead: TokenSet,
    ) -> (r: Vec<LR1Item>) {
        let first_set = first_sets.first1(grammar, remainder, &lookahead);
        items(grammar, nt, 0, &first_set)
    }
}

/// `b` begins with `a`.
pub open spec fn extends(a: Seq<ItemView>, b: Seq<ItemView>) -> bool {
    &&& a.len() <= b.len()
    &&& forall|i: int| 0 <= i < a.len() ==> #[trigger] b[i] == a[i]
}

proof fn lemma_extends_contains(a: Seq<ItemView>, b: Seq<ItemView>, x: ItemView)
    requires
        extends(a, b),
        a.contains(x),
    ensures
        b.contains(x),
{
    let i = choose|i: int| 0 <= i < a.len() && a[i] == x;
    assert(b[i] == x);
}

/// The states that the construction ends with, whatever its outcome.
pub open spec fn outcome_states<L: Lookahead>(
    r: Result<Vec<State<L>>, TableConstructionError<L>>,
) -> Seq<StateView> {
    match r {
        Ok(states) => state_views(states@),
        Err(e) => state_views(e.states@),
    }
}

/// The conflicts that the construction ends with, whatever its outcome.
pub open spec fn outcome_conflicts<L: Lookahead>(
    r: Result<Vec<State<L>>, TableConstructionError<L>>,
) -> Seq<ConflictView> {
    match r {
        Ok(states) => Seq::empty(),
        Err(e) => conflict_views(e.conflicts@),
    }
}

/// A construction: a grammar with its FIRST sets, the start nonterminal and
/// the lookahead of the start items.
pub struct LR<'grammar, L: LookaheadBuild> {
    grammar: &'grammar Grammar,
    first_sets: FirstSets,
    start_nt: usize,
    start_lookahead: L,
    permit_early_stop: bool,
    conflict_budget: Option<usize>,
}

/// Registers the successor kernels of a state with these items over all
/// terminals (or all nonterminals), by increasing symbol, and gives the
/// transition table.
fn link<L: Lookahead>(
    grammar: &Grammar,
    items: &Vec<Item<L>>,
    kernel_set: &mut KernelSet<L>,
    nonterminal: bool,
) -> (table: Vec<(usize, StateIndex)>)
    requires
        old(kernel_set).wf(),
        all_ok(*grammar, L::carries_tokens(), item_views(items@)),
        strictly_sorted(item_views(items@)),
    ensures
        final(kernel_set).wf(),
        final(kernel_set).next == old(kernel_set).next,
        link_upto(
            *grammar,
            old(kernel_set).registered(),
            item_views(items@),
            nonterminal,
            (if nonterminal {
                grammar.num_nonterminals
            } else {
                grammar.num_terminals
            }) as int,
        ) == (Links { kernels: final(kernel_set).registered(), table: table@ }),
{
    let ghost g = *grammar;
    let ghost wt = L::carries_tokens();
    let ghost views = item_views(items@);
    let ghost ks0 = kernel_set.registered();
    let ghost next0 = kernel_set.next;
    let bound = if nonterminal {
        grammar.num_nonterminals
    } else {
        grammar.num_terminals
    };
    let mut table: Vec<(usize, StateIndex)> = Vec::new();
    let mut n: usize = 0;
    while n < bound
        invariant
            g == *grammar,
            wt == L::carries_tokens(),
            views == item_views(items@),
            all_ok(g, wt, views),
            strictly_sorted(views),
            n <= bound,
            kernel_set.wf(),
            kernel_set.next == next0,
            link_upto(g, ks0, views, nonterminal, n as int) == (Links {
                kernels: kernel_set.registered(),
                table: table@,
            }),
        decreases bound - n,
    {
        let x = if nonterminal {
            Symbol::Nonterminal(n)
        } else {
            Symbol::Terminal(n)
        };
        assert(x == symbol_of(nonterminal, n as int));
        let kernel = successor(grammar, items, x);
        let ghost k = item_views(kernel@);
        assert(k == target_kernel(g, views, nonterminal, n as int));
        if kernel.len() > 0 {
            proof {
                lemma_successor_shape(g, wt, views, x, views.len() as int);
            }
            let ghost before = kernel_set.registered();
            let idx = kernel_set.add_state(Kernel::shifted(kernel));
            table.push((n, idx));
            assert(idx == StateIndex(register(before, k).1 as usize));
        }
        n += 1;
    }
    table
}

impl<'grammar, L: LookaheadBuild> LR<'grammar, L> {
    /// The grammar of the construction.
    pub closed spec fn grammar(&self) -> Grammar {
        *self.grammar
    }

    /// The start nonterminal.
    pub closed spec fn start_nt(&self) -> usize {
        self.start_nt
    }

    /// The lookahead of the start items.
    pub closed spec fn start_lookahead(&self) -> Seq<bool> {
        self.start_lookahead.bits()
    }

    /// The number of conflicts beyond which the construction stops early,
    /// if it may.
    pub closed spec fn budget(&self) -> Option<usize> {
        if self.permit_early_stop {
            self.conflict_budget
        } else {
            None
        }
    }

    /// The kernel of the first state: the items of the start nonterminal
    /// with the dot at the start.
    pub open spec fn seed(&self) -> Seq<ItemView> {
        items_spec(self.grammar(), self.start_nt() as int, 0, self.start_lookahead())
    }

    /// The grammar is well formed and has the start nonterminal, the FIRST
    /// sets are its own, and the start lookahead has the width of the
    /// construction.
    pub closed spec fn wf(&self) -> bool {
        &&& self.grammar.wf()
        &&& self.first_sets.wf(*self.grammar)
        &&& self.start_nt < self.grammar.num_nonterminals
        &&& self.start_lookahead.bits().len() == la_len(*self.grammar, L::carries_tokens())
    }

    /// A construction for `grammar` from `start_nt`.  It may not stop early.
    pub fn new(grammar: &'grammar Grammar, start_nt: usize, start_lookahead: L) -> (r: Self)
        requires
            grammar.wf(),
            start_nt < grammar.num_nonterminals,
            start_lookahead.bits().len() == la_len(*grammar, L::carries_tokens()),
        ensures
            r.wf(),
            r.grammar() == *grammar,
            r.start_nt() == start_nt,
            r.start_lookahead() == start_lookahead.bits(),
            r.budget() is None,
    {
        LR {
            grammar: grammar,
            first_sets: FirstSets::new(grammar),
            start_nt: start_nt,
            start_lookahead: start_lookahead,
            permit_early_stop: false,
            conflict_budget: None,
        }
    }

    /// Says whether the construction may stop early, once it has met more
    /// conflicts than `budget`; without a budget it never stops early.
    pub fn set_permit_early_stop(&mut self, v: bool, budget: Option<usize>)
        requires
            old(self).wf(),
        ensures
            final(self).wf(),
            final(self).grammar() == old(self).grammar(),
            final(self).start_nt() == old(self).start_nt(),
            final(self).start_lookahead() == old(self).start_lookahead(),
            final(self).budget() == (if v {
                budget
            } else {
                None
            }),
    {
        self.permit_early_stop = v;
        self.conflict_budget = budget;
    }

    /// The items with dot `index` and the given lookahead for the
    /// productions of `id`.
    pub fn items(&self, id: usize, index: usize, lookahead: &L) -> (r: Vec<Item<L>>)
        ensures
            item_views(r@) == items_spec(self.grammar(), id as int, index as int, lookahead.bits()),
    {
        items(self.grammar, id, index, lookahead)
    }

    /// The closure of `items` under epsilon moves, each item once, in the
    /// order of items.
    pub fn transitive_closure(&self, items: Vec<Item<L>>) -> (r: Items<L>)
        requires
            self.wf(),
            all_ok(self.grammar(), L::carries_tokens(), item_views(items@)),
        ensures
            is_closure_of(
                self.grammar(),
                L::carries_tokens(),
                item_views(r.vec@),
                item_views(items@),
            ),
    {
        let ghost g = *self.grammar;
        let ghost wt = L::carries_tokens();
        let ghost seed = item_views(items@);
        let mut items = items;
        let mut counter: usize = 0;
        proof {
            assert forall|j: int| 0 <= j < seed.len() implies in_closure(
                g,
                wt,
                seed,
                #[trigger] seed[j],
            ) by {
                assert(seed.contains(seed[j]));
                lemma_closure_holds_seed(g, wt, seed, seed[j]);
            }
        }
        while counter < items.len()
            invariant
                self.wf(),
                g == *self.grammar,
                wt == L::carries_tokens(),
                counter <= items@.len(),
                all_ok(g, wt, item_views(items@)),
                extends(seed, item_views(items@)),
                forall|j: int|
                    0 <= j < items@.len() ==> in_closure(g, wt, seed, #[trigger] item_views(items@)[j]),
                forall|j: int, child: ItemView|
                    0 <= j < counter && #[trigger] eps_step(g, wt, item_views(items@)[j], child)
                        ==> item_views(items@).contains(child),
            decreases usize::MAX - counter,
        {
            let ghost v0 = item_views(items@);
            let ghost parent = v0[counter as int];
            assert(parent == items@[counter as int]@);
            assert(parent.ok(g, wt));
            let moves: Vec<Item<L>> = match items[counter].shift_symbol(self.grammar) {
                Some((Symbol::Nonterminal(nt), remainder)) => {
                    proof {
                        assert forall|j: int| 0 <= j < remainder@.len() implies g.has_symbol(
                            #[trigger] remainder@[j],
                        ) by {
                            assert(remainder@[j] == g.rhs(parent.production)[parent.index + 1 + j]);
                            assert(g.productions@[parent.production].symbols@ == g.rhs(
                                parent.production,
                            ));
                        }
                        lemma_eps_step_items(g, wt, parent, nt);
                    }
                    L::epsilon_moves(
                        self.grammar,
                        &self.first_sets,
                        nt,
                        remainder,
                        items[counter].lookahead.dup(),
                    )
                },
                _ => {
                    let v: Vec<Item<L>> = Vec::new();
                    v
                },
            };
            let ghost mv = item_views(moves@);
            assert forall|child: ItemView| #[trigger]
                eps_step(g, wt, parent, child) <==> mv.contains(child) by {
                if mv.contains(child) {
                    assert(mv.len() > 0);
                }
            }
            let mut j: usize = 0;
            while j < moves.len()
                invariant
                    g == *self.grammar,
                    wt == L::carries_tokens(),
                    mv == item_views(moves@),
                    j <= mv.len(),
                    counter < v0.len(),
                    parent == v0[counter as int],
                    extends(v0, item_views(items@)),
                    all_ok(g, wt, item_views(items@)),
                    in_closure(g, wt, seed, parent),
                    forall|i: int|
                        0 <= i < items@.len() ==> in_closure(
                            g,
                            wt,
                            seed,
                            #[trigger] item_views(items@)[i],
                        ),
                    forall|m: int| 0 <= m < j ==> item_views(items@).contains(#[trigger] mv[m]),
                    forall|child: ItemView| #[trigger]
                        eps_step(g, wt, parent, child) <==> mv.contains(child),
                decreases mv.len() - j,
            {
                let ghost v1 = item_views(items@);
                let ghost child = mv[j as int];
                assert(child == moves@[j as int]@);
                assert(mv.contains(child));
                assert(eps_step(g, wt, parent, child));
                if !holds_item(&items, &moves[j]) {
                    items.push(moves[j].dup());
                    proof {
                        let v2 = item_views(items@);
                        assert(v2 =~= v1.push(child));
                        lemma_closure_step(g, wt, seed, parent, child);
                        assert(child.lookahead == eps_lookahead(
                            g,
                            wt,
                            parent.remainder(g),
                            parent.lookahead,
                        ));
                        assert(child.ok(g, wt));
                        assert(v2[v2.len() - 1] == child);
                        assert forall|m: int| 0 <= m < j + 1 implies v2.contains(
                            #[trigger] mv[m],
                        ) by {
                            if m < j {
                                assert(v1.contains(mv[m]));
                                let i = choose|i: int| 0 <= i < v1.len() && v1[i] == mv[m];
                                assert(v2[i] == mv[m]);
                            }
                        }
                    }
                }
                j += 1;
            }
            proof {
                let v2 = item_views(items@);
                assert(extends(seed, v2));
                assert forall|i: int, child: ItemView|
                    0 <= i < counter + 1 && #[trigger] eps_step(
                        g,
                        wt,
                        v2[i],
                        child,
                    ) implies v2.contains(child) by {
                    assert(v2[i] == v0[i]);
                    if i < counter {
                        assert(v0.contains(child));
                        lemma_extends_contains(v0, v2, child);
                    } else {
                        assert(mv.contains(child));
                        let m = choose|m: int| 0 <= m < mv.len() && mv[m] == child;
                        assert(v2.contains(mv[m]));
                    }
                }
            }
            counter += 1;
        }
        let ghost full = item_views(items@);
        let sorted = sort_dedup(items);
        proof {
            let c = item_views(sorted@);
            assert forall|it: ItemView| #[trigger] c.contains(it) <==> in_closure(
                g,
                wt,
                seed,
                it,
            ) by {
                if c.contains(it) {
                    assert(full.contains(it));
                    let i = choose|i: int| 0 <= i < full.len() && full[i] == it;
                    assert(in_closure(g, wt, seed, full[i]));
                }
                if in_closure(g, wt, seed, it) {
                    let n = choose|n: nat| reaches(g, wt, seed, it, n);
                    assert forall|x: ItemView| #[trigger] seed.contains(x) implies full.contains(
                        x,
                    ) by {
                        lemma_extends_contains(seed, full, x);
                    }
                    assert forall|parent: ItemView, child: ItemView|
                        full.contains(parent) && #[trigger] eps_step(
                            g,
                            wt,
                            parent,
                            child,
                        ) implies full.contains(child) by {
                        let i = choose|i: int| 0 <= i < full.len() && full[i] == parent;
                        assert(eps_step(g, wt, full[i], child));
                    }
                    lemma_closed_holds_closure(g, wt, seed, full, it, n);
                }
            }
        }
        Items { vec: sorted }
    }

    /// Builds the states: starting from the kernel of the start
    /// nonterminal, each registered kernel in turn is closed, its successor
    /// kernels are registered over the terminals and then over the
    /// nonterminals, by increasing symbol, and its reductions and conflicts
    /// are collected.  `Ok` with the states when no conflict was met; else
    /// the states built and the conflicts.
    pub fn build_states(&self) -> (r: Result<Vec<State<L>>, TableConstructionError<L>>)
        requires
            self.wf(),
        ensures
            builds(
                self.grammar(),
                L::carries_tokens(),
                self.seed(),
                self.budget(),
                outcome_states(r),
                outcome_conflicts(r),
            ),
            r matches Err(e) ==> e.conflicts@.len() > 0,
            r is Ok ==> forall|i: int|
                0 <= i < outcome_states(r).len() ==> conflict_free(
                    self.grammar(),
                    L::carries_tokens(),
                    #[trigger] outcome_states(r)[i],
                ),
            forall|i: int, j: int|
                0 <= i < j < outcome_states(r).len() ==> state_kernel(
                    outcome_states(r),
                    self.seed(),
                    i,
                ) != state_kernel(outcome_states(r), self.seed(), j),
    {
        let ghost g = *self.grammar;
        let ghost wt = L::carries_tokens();
        let ghost seed = self.seed();
        let ghost budget = self.budget();
        let mut kernel_set: KernelSet<L> = KernelSet::new();
        let mut states: Vec<State<L>> = Vec::new();
        let mut conflicts: Vec<Conflict<L>> = Vec::new();

        // create the starting state
        let start_items = self.items(self.start_nt, 0, &self.start_lookahead);
        proof {
            lemma_items_upto(
                g,
                self.start_nt as int,
                0,
                self.start_lookahead.bits(),
                g.num_productions(),
            );
            assert forall|i: int| 0 <= i < seed.len() implies (#[trigger] seed[i]).ok(g, wt)
                && seed[i].index == 0 by {
                assert(seed.contains(seed[i]));
            }
        }
        kernel_set.add_state(Kernel::start(start_items));
        let ghost mut n: nat = 0;
        proof {
            assert(state_views(states@) =~= Seq::<StateView>::empty());
            assert(conflict_views(conflicts@) =~= Seq::<ConflictView>::empty());
            assert(kernel_set.registered() =~= seq![seed]);
            lemma_initial_well_built(g, wt, seed);
        }
        loop
            invariant_except_break
                !(budget matches Some(m) && conflicts@.len() > m),
            invariant
                self.wf(),
                g == *self.grammar,
                wt == L::carries_tokens(),
                seed == self.seed(),
                budget == self.budget(),
                kernel_set.wf(),
                kernel_set.next == states@.len(),
                build_view(
                    kernel_set.registered(),
                    state_views(states@),
                    conflict_views(conflicts@),
                ) == run(g, wt, seed, budget, n),
                well_built(
                    g,
                    wt,
                    seed,
                    build_view(
                        kernel_set.registered(),
                        state_views(states@),
                        conflict_views(conflicts@),
                    ),
                ),
            ensures
                halted(
                    build_view(
                        kernel_set.registered(),
                        state_views(states@),
                        conflict_views(conflicts@),
                    ),
                    budget,
                ),
            decreases usize::MAX - states@.len(),
        {
            let ghost b = build_view(
                kernel_set.registered(),
                state_views(states@),
                conflict_views(conflicts@),
            );
            match kernel_set.next() {
                None => {
                    break ;
                },
                Some(kernel) => {
                    let ghost i = states@.len() as int;
                    assert(!halted(b, budget));
                    assert(kernel_ok(g, wt, b.kernels[i]));
                    let items = self.transitive_closure(kernel.items);
                    let ghost c = item_views(items.vec@);
                    proof {
                        lemma_closure_all_ok(g, wt, b.kernels[i], c);
                        lemma_closure_unique(g, wt, c, b.kernels[i]);
                    }
                    let index = StateIndex(states.len());
                    let shifts = link(self.grammar, &items.vec, &mut kernel_set, false);
                    let gotos = link(self.grammar, &items.vec, &mut kernel_set, true);
                    let reductions = State::reductions_for(self.grammar, &items.vec);
                    let this_state = State {
                        index: index,
                        items: items,
                        shifts: shifts,
                        reductions: reductions,
                        gotos: gotos,
                    };
                    let ghost st = this_state@;
                    assert(st == expand(g, wt, b.kernels, i).1);
                    assert(kernel_set.registered() == expand(
                        g,
                        wt,
                        b.kernels,
                        i,
                    ).0);

                    // check for conflicts
                    let mut found = this_state.conflicts(self.grammar);
                    let ghost before_states = state_views(states@);
                    let ghost before_conflicts = conflict_views(conflicts@);
                    let ghost found_views = conflict_views(found@);
                    conflicts.append(&mut found);
                    states.push(this_state);
                    proof {
                        assert(state_views(states@) =~= before_states.push(st));
                        assert(conflict_views(conflicts@) =~= before_conflicts.add(found_views));
                        let nb = build_view(
                            kernel_set.registered(),
                            state_views(states@),
                            conflict_views(conflicts@),
                        );
                        assert(nb == step(g, wt, b));
                        assert(kernel_set.kernels@.len() == kernel_set.kernels.len());
                        lemma_step_well_built(g, wt, seed, b, c);
                        n = n + 1;
                        assert(run(g, wt, seed, budget, n) == nb);
                    }
                    if self.permit_early_stop {
                        match self.conflict_budget {
                            Some(m) => {
                                if conflicts.len() > m {
                                    break ;
                                }
                            },
                            None => {},
                        }
                    }
                },
            }
        }
        proof {
            let b = build_view(
                kernel_set.registered(),
                state_views(states@),
                conflict_views(conflicts@),
            );
            assert(is_build(g, wt, seed, budget, b));
            lemma_all_conflicts_empty(g, wt, b.states, b.states.len() as int);
            assert forall|i: int, j: int| 0 <= i < j < b.states.len() implies state_kernel(
                b.states,
                seed,
                i,
            ) != state_kernel(b.states, seed, j) by {
                lemma_kernels_distinct(g, wt, seed, b, i, j);
            }
            if conflicts@.len() == 0 {
                assert(conflict_views(conflicts@) =~= Seq::<ConflictView>::empty());
            }
        }
        if conflicts.len() > 0 {
            Err(TableConstructionError { states: states, conflicts: conflicts })
        } else {
            Ok(states)
        }
    }
}

/// Builds the states of the LR(1) automaton of `grammar` for start
/// nonterminal `start`, with the end of input as the lookahead of the start
/// items.  The construction stops early once it has met more conflicts than
/// `conflict_budget`, if there is one.
pub fn build_lr1_states(grammar: &Grammar, start: usize, conflict_budget: Option<usize>) -> (r:
    LR1Result)
    requires
        grammar.wf(),
        start < grammar.num_nonterminals,
    ensures
        builds(
            *grammar,
            true,
            items_spec(
                *grammar,
                start as int,
                0,
                bits_single((grammar.num_terminals + 1) as nat, grammar.num_terminals as int),
            ),
            conflict_budget,
            outcome_states(r),
            outcome_conflicts(r),
        ),
        r matches Err(e) ==> e.conflicts@.len() > 0,
        r is Ok ==> forall|i: int|
            0 <= i < outcome_states(r).len() ==> conflict_free(
                *grammar,
                true,
                #[trigger] outcome_states(r)[i],
            ),
{
    let eof = TokenSet::eof(grammar.num_terminals);
    let mut lr1: LR<TokenSet> = LR::new(grammar, start, eof);
    lr1.set_permit_early_stop(true, conflict_budget);
    lr1.build_states()
}

/// Builds the states of the LR(0) automaton of `grammar` for start
/// nonterminal `start`.  The construction never stops early.
pub fn build_lr0_states(grammar: &Grammar, start: usize) -> (r: LR0Result)
    requires
        grammar.wf(),
        start < grammar.num_nonterminals,
    ensures
        builds(
            *grammar,
            false,
            items_spec(*grammar, start as int, 0, Seq::empty()),
            None,
            outcome_states(r),
            outcome_conflicts(r),
        ),
        r matches Err(e) ==> e.conflicts@.len() > 0,
        r is Ok ==> forall|i: int|
            0 <= i < outcome_states(r).len() ==> conflict_free(
                *grammar,
                false,
                #[trigger] outcome_states(r)[i],
            ),
{
    let lr0: LR<Nil> = LR::new(grammar, start, Nil);
    lr0.build_states()
}

} // verus!
