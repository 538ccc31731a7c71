//! The states of the automaton and the conflicts within a state.

use crate::closure::all_ok;
use crate::grammar::{Grammar, Symbol};
use crate::item::{item_views, Item, ItemView};
use crate::kernel_set::StateIndex;
use crate::lookahead::{la_admits, la_overlap, Lookahead, Nil};
use crate::token_set::TokenSet;
use vstd::prelude::*;

verus! {

/// The items of a state, each once, in the order of items.
#[derive(Clone, Debug, PartialEq, Eq)]
pub struct Items<L> {
    pub vec: Vec<Item<L>>,
}

/// A state of the automaton.  `shifts` gives the next state for each
/// terminal that can be shifted and `gotos` for each nonterminal, both by
/// increasing symbol; `reductions` gives, for each item with the dot at the
/// end, its lookahead and its production, in the order of the items.
#[derive(Clone, Debug, PartialEq, Eq)]
pub struct State<L> {
    pub index: StateIndex,
    pub items: Items<L>,
    pub shifts: Vec<(usize, StateIndex)>,
    pub reductions: Vec<(L, usize)>,
    pub gotos: Vec<(usize, StateIndex)>,
}

/// A state of an LR(0) automaton.
pub type LR0State = State<Nil>;

/// A state of an LR(1) automaton.
pub type LR1State = State<TokenSet>;

/// What a parser does on a token: shift the terminal, or reduce by the
/// production.
#[derive(Clone, Copy, Debug, PartialEq, Eq, Structural, Hash)]
pub enum Action {
    Shift(usize),
    Reduce(usize),
}

/// A conflict: in state `state`, reducing by `item` competes with `action`.
#[derive(Clone, Debug, PartialEq, Eq)]
pub struct Conflict<L> {
    pub state: StateIndex,
    pub item: Item<L>,
    pub action: Action,
}

/// The outcome of a construction that met conflicts: the states built so
/// far and the conflicts.
#[derive(Clone, Debug, PartialEq, Eq)]
pub struct TableConstructionError<L> {
    pub states: Vec<State<L>>,
    pub conflicts: Vec<Conflict<L>>,
}

/// The outcome of an LR(0) construction that met conflicts.
pub type LR0TableConstructionError = TableConstructionError<Nil>;

/// The outcome of an LR(1) construction that met conflicts.
pub type LR1TableConstructionError = TableConstructionError<TokenSet>;

/// What a state stands for.
pub struct StateView {
    pub index: StateIndex,
    pub items: Seq<ItemView>,
    pub shifts: Seq<(usize, StateIndex)>,
    pub reductions: Seq<(Seq<bool>, int)>,
    pub gotos: Seq<(usize, StateIndex)>,
}

/// What a conflict stands for.
pub struct ConflictView {
    pub state: StateIndex,
    pub item: ItemView,
    pub action: Action,
}

/// What the reductions of a sequence stand for.
pub open spec fn reduction_views<L: Lookahead>(s: Seq<(L, usize)>) -> Seq<(Seq<bool>, int)> {
    Seq::new(s.len(), |i: int| (s[i].0.bits(), s[i].1 as int))
}

impl<L: Lookahead> View for State<L> {
    type V = StateView;

    open spec fn view(&self) -> StateView {
        StateView {
            index: self.index,
            items: item_views(self.items.vec@),
            shifts: self.shifts@,
            reductions: reduction_views(self.reductions@),
            gotos: self.gotos@,
        }
    }
}

impl<L: Lookahead> View for Conflict<L> {
    type V = ConflictView;

    open spec fn view(&self) -> ConflictView {
        ConflictView { state: self.state, item: self.item@, action: self.action }
    }
}

/// What the states of a sequence stand for.
pub open spec fn state_views<L: Lookahead>(s: Seq<State<L>>) -> Seq<StateView> {
    Seq::new(s.len(), |i: int| s[i]@)
}

/// What the conflicts of a sequence stand for.
pub open spec fn conflict_views<L: Lookahead>(s: Seq<Conflict<L>>) -> Seq<ConflictView> {
    Seq::new(s.len(), |i: int| s[i]@)
}

/// Entry `e` of the table of shifts (or, with `in_gotos`, of gotos) of the
/// state is a transition over `x`.
pub open spec fn transition_on(st: StateView, x: Symbol, in_gotos: bool, e: int) -> bool {
    if in_gotos {
        0 <= e < st.gotos.len() && x == Symbol::Nonterminal(st.gotos[e].0)
    } else {
        0 <= e < st.shifts.len() && x == Symbol::Terminal(st.shifts[e].0)
    }
}

/// The state to which entry `e` leads.
pub open spec fn transition_target(st: StateView, in_gotos: bool, e: int) -> StateIndex {
    if in_gotos {
        st.gotos[e].1
    } else {
        st.shifts[e].1
    }
}

/// The place of the first entry for symbol number `x` among the first `n`
/// entries of the table, or `n` if there is none.
pub open spec fn first_entry(table: Seq<(usize, StateIndex)>, x: usize, n: int) -> int
    decreases n,
{
    if n <= 0 {
        0
    } else if first_entry(table, x, n - 1) < n - 1 {
        first_entry(table, x, n - 1)
    } else if table[n - 1].0 == x {
        n - 1
    } else {
        n
    }
}

/// The state that is entered from the state over `x`: that of the first
/// entry for `x`, in the table of shifts for a terminal and in the table of
/// gotos for a nonterminal; `None` when there is no entry for `x`.
pub open spec fn next_state_of(st: StateView, x: Symbol) -> Option<StateIndex> {
    let (table, key) = match x {
        Symbol::Terminal(t) => (st.shifts, t),
        Symbol::Nonterminal(n) => (st.gotos, n),
    };
    let e = first_entry(table, key, table.len() as int);
    if e < table.len() {
        Some(table[e].1)
    } else {
        None
    }
}

/// `first_entry` gives the place of the first entry for `x`, if there is
/// one.
pub proof fn lemma_first_entry(table: Seq<(usize, StateIndex)>, x: usize, n: int)
    requires
        0 <= n <= table.len(),
    ensures
        0 <= first_entry(table, x, n) <= n,
        first_entry(table, x, n) < n ==> table[first_entry(table, x, n)].0 == x,
        forall|e: int| 0 <= e < n && e < first_entry(table, x, n) ==> (#[trigger] table[e]).0 != x,
    decreases n,
{
    if n > 0 {
        lemma_first_entry(table, x, n - 1);
    }
}

/// Once an entry for `x` is found, it stays the first.
proof fn lemma_first_entry_stays(table: Seq<(usize, StateIndex)>, x: usize, e: int, n: int)
    requires
        0 <= e < n <= table.len(),
        first_entry(table, x, e) == e,
        table[e].0 == x,
    ensures
        first_entry(table, x, n) == e,
    decreases n,
{
    if n > e + 1 {
        lemma_first_entry_stays(table, x, e, n - 1);
    }
}

/// The reductions of the first `n` items: for each with the dot at the end,
/// its lookahead and production.
pub open spec fn reductions_upto(g: Grammar, items: Seq<ItemView>, n: int) -> Seq<(Seq<bool>, int)>
    decreases n,
{
    if n <= 0 {
        Seq::empty()
    } else if items[n - 1].can_reduce(g) {
        reductions_upto(g, items, n - 1).push((items[n - 1].lookahead, items[n - 1].production))
    } else {
        reductions_upto(g, items, n - 1)
    }
}

/// The reductions of a state with these items.
pub open spec fn reductions_of(g: Grammar, items: Seq<ItemView>) -> Seq<(Seq<bool>, int)> {
    reductions_upto(g, items, items.len() as int)
}

/// The conflicts of shifting `t` with the reductions among the first `n`
/// items: one for each item with the dot at the end whose lookahead admits
/// `t`.
pub open spec fn shift_reduce_upto(
    g: Grammar,
    with_tokens: bool,
    state: StateIndex,
    items: Seq<ItemView>,
    t: usize,
    n: int,
) -> Seq<ConflictView>
    decreases n,
{
    if n <= 0 {
        Seq::empty()
    } else if items[n - 1].can_reduce(g) && la_admits(with_tokens, items[n - 1].lookahead, t as int) {
        shift_reduce_upto(g, with_tokens, state, items, t, n - 1).push(
            ConflictView { state: state, item: items[n - 1], action: Action::Shift(t) },
        )
    } else {
        shift_reduce_upto(g, with_tokens, state, items, t, n - 1)
    }
}

/// The conflicts of the first `m` shifts with the reductions.
pub open spec fn shift_conflicts_upto(
    g: Grammar,
    with_tokens: bool,
    state: StateIndex,
    items: Seq<ItemView>,
    shifts: Seq<(usize, StateIndex)>,
    m: int,
) -> Seq<ConflictView>
    decreases m,
{
    if m <= 0 {
        Seq::empty()
    } else {
        shift_conflicts_upto(g, with_tokens, state, items, shifts, m - 1).add(
            shift_reduce_upto(g, with_tokens, state, items, shifts[m - 1].0, items.len() as int),
        )
    }
}

/// The conflicts of reducing by item `i` with the reductions among the items
/// after it and before `n`: one for each item with the dot at the end whose
/// lookahead admits a token that the lookahead of item `i` admits.
pub open spec fn reduce_reduce_upto(
    g: Grammar,
    with_tokens: bool,
    state: StateIndex,
    items: Seq<ItemView>,
    i: int,
    n: int,
) -> Seq<ConflictView>
    decreases n - i,
{
    if n <= i + 1 {
        Seq::empty()
    } else if items[n - 1].can_reduce(g) && la_overlap(
        with_tokens,
        items[i].lookahead,
        items[n - 1].lookahead,
    ) {
        reduce_reduce_upto(g, with_tokens, state, items, i, n - 1).push(
            ConflictView {
                state: state,
                item: items[i],
                action: Action::Reduce(items[n - 1].production as usize),
            },
        )
    } else {
        reduce_reduce_upto(g, with_tokens, state, items, i, n - 1)
    }
}

/// The conflicts among the reductions of the first `m` items with all that
/// follow them.
pub open spec fn reduce_conflicts_upto(
    g: Grammar,
    with_tokens: bool,
    state: StateIndex,
    items: Seq<ItemView>,
    m: int,
) -> Seq<ConflictView>
    decreases m,
{
    if m <= 0 {
        Seq::empty()
    } else if items[m - 1].can_reduce(g) {
        reduce_conflicts_upto(g, with_tokens, state, items, m - 1).add(
            reduce_reduce_upto(g, with_tokens, state, items, m - 1, items.len() as int),
        )
    } else {
        reduce_conflicts_upto(g, with_tokens, state, items, m - 1)
    }
}

/// The conflicts of a state: those of each shift with the reductions, by
/// increasing terminal, then those among the reductions.
pub open spec fn conflicts_of(g: Grammar, with_tokens: bool, st: StateView) -> Seq<ConflictView> {
    shift_conflicts_upto(g, with_tokens, st.index, st.items, st.shifts, st.shifts.len() as int).add(
        reduce_conflicts_upto(g, with_tokens, st.index, st.items, st.items.len() as int),
    )
}

/// No reduction of the state admits a terminal that the state shifts.
pub open spec fn no_shift_reduce(g: Grammar, with_tokens: bool, st: StateView) -> bool {
    forall|s: int, i: int|
        0 <= s < st.shifts.len() && 0 <= i < st.items.len() && (#[trigger] st.items[i]).can_reduce(
            g,
        ) ==> !la_admits(with_tokens, st.items[i].lookahead, (#[trigger] st.shifts[s]).0 as int)
}

/// No two reductions of the state admit a common token.
pub open spec fn no_reduce_reduce(g: Grammar, with_tokens: bool, st: StateView) -> bool {
    forall|i: int, j: int|
        0 <= i < j < st.items.len() && (#[trigger] st.items[i]).can_reduce(g) && (
        #[trigger] st.items[j]).can_reduce(g) ==> !la_overlap(
            with_tokens,
            st.items[i].lookahead,
            st.items[j].lookahead,
        )
}

/// On every token the state has at most one action.
pub open spec fn conflict_free(g: Grammar, with_tokens: bool, st: StateView) -> bool {
    no_shift_reduce(g, with_tokens, st) && no_reduce_reduce(g, with_tokens, st)
}

proof fn lemma_shift_reduce_empty(
    g: Grammar,
    with_tokens: bool,
    state: StateIndex,
    items: Seq<ItemView>,
    t: usize,
    n: int,
)
    requires
        0 <= n <= items.len(),
    ensures
        shift_reduce_upto(g, with_tokens, state, items, t, n).len() == 0 <==> forall|i: int|
            0 <= i < n && (#[trigger] items[i]).can_reduce(g) ==> !la_admits(
                with_tokens,
                items[i].lookahead,
                t as int,
            ),
    decreases n,
{
    if n > 0 {
        lemma_shift_reduce_empty(g, with_tokens, state, items, t, n - 1);
        if items[n - 1].can_reduce(g) && la_admits(with_tokens, items[n - 1].lookahead, t as int) {
            assert(shift_reduce_upto(g, with_tokens, state, items, t, n).len() > 0);
        }
    }
}

proof fn lemma_shift_conflicts_empty(
    g: Grammar,
    with_tokens: bool,
    state: StateIndex,
    items: Seq<ItemView>,
    shifts: Seq<(usize, StateIndex)>,
    m: int,
)
    requires
        0 <= m <= shifts.len(),
    ensures
        shift_conflicts_upto(g, with_tokens, state, items, shifts, m).len() == 0 <==> forall|
            s: int,
            i: int,
        |
            0 <= s < m && 0 <= i < items.len() && (#[trigger] items[i]).can_reduce(g)
                ==> !la_admits(with_tokens, items[i].lookahead, (#[trigger] shifts[s]).0 as int),
    decreases m,
{
    if m > 0 {
        lemma_shift_conflicts_empty(g, with_tokens, state, items, shifts, m - 1);
        lemma_shift_reduce_empty(g, with_tokens, state, items, shifts[m - 1].0, items.len() as int);
        let here = shift_reduce_upto(
            g,
            with_tokens,
            state,
            items,
            shifts[m - 1].0,
            items.len() as int,
        );
        if shift_conflicts_upto(g, with_tokens, state, items, shifts, m).len() == 0 {
            assert(here.len() == 0);
            assert forall|s: int, i: int|
                0 <= s < m && 0 <= i < items.len() && (#[trigger] items[i]).can_reduce(
                    g,
                ) implies !la_admits(
                with_tokens,
                items[i].lookahead,
                (#[trigger] shifts[s]).0 as int,
            ) by {}
        } else if here.len() > 0 {
            let i = choose|i: int|
                0 <= i < items.len() && (#[trigger] items[i]).can_reduce(g) && la_admits(
                    with_tokens,
                    items[i].lookahead,
                    shifts[m - 1].0 as int,
                );
            assert(items[i].can_reduce(g) && la_admits(
                with_tokens,
                items[i].lookahead,
                shifts[m - 1].0 as int,
            ));
        }
    }
}

proof fn lemma_reduce_reduce_empty(
    g: Grammar,
    with_tokens: bool,
    state: StateIndex,
    items: Seq<ItemView>,
    i: int,
    n: int,
)
    requires
        0 <= i < items.len(),
        n <= items.len(),
    ensures
        reduce_reduce_upto(g, with_tokens, state, items, i, n).len() == 0 <==> forall|j: int|
            i < j < n && (#[trigger] items[j]).can_reduce(g) ==> !la_overlap(
                with_tokens,
                items[i].lookahead,
                items[j].lookahead,
            ),
    decreases n - i,
{
    if n > i + 1 {
        lemma_reduce_reduce_empty(g, with_tokens, state, items, i, n - 1);
        if items[n - 1].can_reduce(g) && la_overlap(
            with_tokens,
            items[i].lookahead,
            items[n - 1].lookahead,
        ) {
            assert(reduce_reduce_upto(g, with_tokens, state, items, i, n).len() > 0);
        }
    }
}

proof fn lemma_reduce_conflicts_empty(
    g: Grammar,
    with_tokens: bool,
    state: StateIndex,
    items: Seq<ItemView>,
    m: int,
)
    requires
        0 <= m <= items.len(),
    ensures
        reduce_conflicts_upto(g, with_tokens, state, items, m).len() == 0 <==> forall|
            i: int,
            j: int,
        |
            0 <= i < m && i < j < items.len() && (#[trigger] items[i]).can_reduce(g) && (
            #[trigger] items[j]).can_reduce(g) ==> !la_overlap(
                with_tokens,
                items[i].lookahead,
                items[j].lookahead,
            ),
    decreases m,
{
    if m > 0 {
        lemma_reduce_conflicts_empty(g, with_tokens, state, items, m - 1);
        lemma_reduce_reduce_empty(g, with_tokens, state, items, m - 1, items.len() as int);
        let here = reduce_reduce_upto(g, with_tokens, state, items, m - 1, items.len() as int);
        if items[m - 1].can_reduce(g) && here.len() > 0 {
            let j = choose|j: int|
                m - 1 < j < items.len() && (#[trigger] items[j]).can_reduce(g) && la_overlap(
                    with_tokens,
                    items[m - 1].lookahead,
                    items[j].lookahead,
                );
            assert(items[m - 1].can_reduce(g) && items[j].can_reduce(g));
        }
    }
}

/// A state has no conflicts exactly when on every token it has at most one
/// action.
pub proof fn lemma_conflict_free(g: Grammar, with_tokens: bool, st: StateView)
    ensures
        conflicts_of(g, with_tokens, st).len() == 0 <==> conflict_free(g, with_tokens, st),
{
    lemma_shift_conflicts_empty(
        g,
        with_tokens,
        st.index,
        st.items,
        st.shifts,
        st.shifts.len() as int,
    );
    lemma_reduce_conflicts_empty(g, with_tokens, st.index, st.items, st.items.len() as int);
}

impl<L: Lookahead> State<L> {
    /// The state that is entered from this state over `x`, if there is one.
    pub fn next_state(&self, x: Symbol) -> (r: Option<StateIndex>)
        ensures
            r == next_state_of(self@, x),
            r is Some <==> exists|in_gotos: bool, e: int| transition_on(self@, x, in_gotos, e),
    {
        let (table, key) = match x {
            Symbol::Terminal(t) => (&self.shifts, t),
            Symbol::Nonterminal(n) => (&self.gotos, n),
        };
        let ghost in_gotos = x is Nonterminal;
        assert(table@ == (if in_gotos {
            self@.gotos
        } else {
            self@.shifts
        }));
        assert(x == (if in_gotos {
            Symbol::Nonterminal(key)
        } else {
            Symbol::Terminal(key)
        }));
        let mut e: usize = 0;
        while e < table.len()
            invariant
                table@ == (if in_gotos {
                    self@.gotos
                } else {
                    self@.shifts
                }),
                x == (if in_gotos {
                    Symbol::Nonterminal(key)
                } else {
                    Symbol::Terminal(key)
                }),
                e <= table@.len(),
                first_entry(table@, key, e as int) == e,
                forall|k: int| 0 <= k < e ==> (#[trigger] table@[k]).0 != key,
            decreases table@.len() - e,
        {
            if table[e].0 == key {
                proof {
                    lemma_first_entry_stays(table@, key, e as int, table@.len() as int);
                    assert(transition_on(self@, x, in_gotos, e as int));
                }
                return Some(table[e].1);
            }
            e += 1;
        }
        proof {
            assert forall|g: bool, k: int| !transition_on(self@, x, g, k) by {
                if transition_on(self@, x, g, k) {
                    assert(table@[k].0 == key);
                }
            }
        }
        None
    }

    /// The reductions of a state with these items.
    pub fn reductions_for(grammar: &Grammar, items: &Vec<Item<L>>) -> (r: Vec<(L, usize)>)
        requires
            all_ok(*grammar, L::carries_tokens(), item_views(items@)),
        ensures
            reduction_views(r@) == reductions_of(*grammar, item_views(items@)),
    {
        let ghost views = item_views(items@);
        let mut out: Vec<(L, usize)> = Vec::new();
        let mut i: usize = 0;
        while i < items.len()
            invariant
                views == item_views(items@),
                all_ok(*grammar, L::carries_tokens(), views),
                i <= views.len(),
                reduction_views(out@) == reductions_upto(*grammar, views, i as int),
            decreases views.len() - i,
        {
            assert(views[i as int].ok(*grammar, L::carries_tokens()));
            assert(views[i as int] == items@[i as int]@);
            if items[i].can_reduce(grammar) {
                let ghost before = reduction_views(out@);
                out.push((items[i].lookahead.dup(), items[i].production));
                assert(reduction_views(out@) =~= before.push(
                    (views[i as int].lookahead, views[i as int].production),
                ));
            }
            i += 1;
        }
        out
    }

    /// The conflicts of the state.
    pub fn conflicts(&self, grammar: &Grammar) -> (r: Vec<Conflict<L>>)
        requires
            all_ok(*grammar, L::carries_tokens(), self@.items),
        ensures
            conflict_views(r@) == conflicts_of(*grammar, L::carries_tokens(), self@),
    {
        let ghost g = *grammar;
        let ghost wt = L::carries_tokens();
        let ghost items = self@.items;
        let ghost shifts = self@.shifts;
        let n = self.items.vec.len();
        let mut out: Vec<Conflict<L>> = Vec::new();
        let mut s: usize = 0;
        assert(conflict_views(out@) =~= Seq::<ConflictView>::empty());
        while s < self.shifts.len()
            invariant
                g == *grammar,
                wt == L::carries_tokens(),
                items == self@.items,
                shifts == self@.shifts,
                n == items.len(),
                all_ok(g, wt, items),
                s <= shifts.len(),
                conflict_views(out@) == shift_conflicts_upto(
                    g,
                    wt,
                    self.index,
                    items,
                    shifts,
                    s as int,
                ),
            decreases shifts.len() - s,
        {
            let t = self.shifts[s].0;
            let ghost base = conflict_views(out@);
            let mut i: usize = 0;
            while i < n
                invariant
                    g == *grammar,
                    wt == L::carries_tokens(),
                    items == self@.items,
                    n == items.len(),
                    all_ok(g, wt, items),
                    i <= n,
                    conflict_views(out@) == base.add(
                        shift_reduce_upto(g, wt, self.index, items, t, i as int),
                    ),
                decreases n - i,
            {
                let it = &self.items.vec[i];
                assert(items[i as int] == it@);
                assert(items[i as int].ok(g, wt));
                if it.can_reduce(grammar) && it.lookahead.admits(t) {
                    let ghost before = conflict_views(out@);
                    out.push(Conflict { state: self.index, item: it.dup(), action: Action::Shift(t) });
                    assert(conflict_views(out@) =~= before.push(
                        ConflictView { state: self.index, item: items[i as int], action: Action::Shift(t) },
                    ));
                    assert(conflict_views(out@) =~= base.add(
                        shift_reduce_upto(g, wt, self.index, items, t, i + 1),
                    ));
                }
                i += 1;
            }
            s += 1;
        }
        let ghost shift_part = conflict_views(out@);
        let mut i: usize = 0;
        assert(shift_part =~= shift_part.add(
            reduce_conflicts_upto(g, wt, self.index, items, 0),
        ));
        while i < n
            invariant
                g == *grammar,
                wt == L::carries_tokens(),
                items == self@.items,
                n == items.len(),
                all_ok(g, wt, items),
                i <= n,
                conflict_views(out@) == shift_part.add(
                    reduce_conflicts_upto(g, wt, self.index, items, i as int),
                ),
            decreases n - i,
        {
            let a = &self.items.vec[i];
            assert(items[i as int] == a@);
            assert(items[i as int].ok(g, wt));
            if a.can_reduce(grammar) {
                let ghost base = conflict_views(out@);
                let mut j: usize = i + 1;
                assert(base =~= base.add(
                    reduce_reduce_upto(g, wt, self.index, items, i as int, j as int),
                ));
                while j < n
                    invariant
                        g == *grammar,
                        wt == L::carries_tokens(),
                        items == self@.items,
                        n == items.len(),
                        all_ok(g, wt, items),
                        i < j <= n,
                        items[i as int] == a@,
                        conflict_views(out@) == base.add(
                            reduce_reduce_upto(g, wt, self.index, items, i as int, j as int),
                        ),
                    decreases n - j,
                {
                    let b = &self.items.vec[j];
                    assert(items[j as int] == b@);
                    assert(items[j as int].ok(g, wt));
                    if b.can_reduce(grammar) && a.lookahead.meets(&b.lookahead) {
                        let ghost before = conflict_views(out@);
                        out.push(
                            Conflict {
                                state: self.index,
                                item: a.dup(),
                                action: Action::Reduce(b.production),
                            },
                        );
                        assert(conflict_views(out@) =~= before.push(
                            ConflictView {
                                state: self.index,
                                item: items[i as int],
                                action: Action::Reduce(items[j as int].production as usize),
                            },
                        ));
                        assert(conflict_views(out@) =~= base.add(
                            reduce_reduce_upto(g, wt, self.index, items, i as int, j + 1),
                        ));
                    }
                    j += 1;
                }
                assert(conflict_views(out@) =~= shift_part.add(
                    reduce_conflicts_upto(g, wt, self.index, items, i + 1),
                ));
            }
            i += 1;
        }
        out
    }
}

} // verus!
