//! The shape of a recursive-ascent parser for an automaton: for each state
//! one function, with what it does on each token and after each nonterminal
//! that a callee hands back.
//!
//! A state function is called with the symbols of the state's prefix, the
//! longest run of symbols that has certainly been shifted when the state is
//! entered.  Shifting adds the token to these and calls the next state with
//! as many of the last symbols as that state takes; reducing pops the
//! symbols of the production.

use crate::grammar::{Grammar, Symbol};
use crate::item::ItemView;
use crate::kernel_set::StateIndex;
use crate::lookahead::{la_admits, Lookahead};
use crate::state::{state_views, State, StateView};
use vstd::prelude::*;
use vstd::slice::slice_subrange;

verus! {

/// The place, among the first `n` items, of the first item whose dot is
/// farthest from the start.
pub open spec fn deepest_upto(items: Seq<ItemView>, n: int) -> int
    decreases n,
{
    if n <= 1 {
        0
    } else {
        let p = deepest_upto(items, n - 1);
        if items[n - 1].index > items[p].index {
            n - 1
        } else {
            p
        }
    }
}

/// The place of the first item whose dot is farthest from the start.
pub open spec fn deepest(items: Seq<ItemView>) -> int {
    deepest_upto(items, items.len() as int)
}

/// The number of symbols in the prefix of a state with these items: the
/// greatest distance of a dot from the start.
pub open spec fn depth_of(items: Seq<ItemView>) -> int {
    items[deepest(items)].index
}

/// The prefix of a state with these items: the symbols before the dot of
/// the first item whose dot is farthest from the start.
pub open spec fn prefix_of(g: Grammar, items: Seq<ItemView>) -> Seq<Symbol> {
    g.rhs(items[deepest(items)].production).subrange(0, items[deepest(items)].index)
}

/// The deepest item is one of the items, no dot is farther from the start
/// than its dot, and it is the first such.
pub proof fn lemma_deepest(items: Seq<ItemView>, n: int)
    requires
        0 < n <= items.len(),
    ensures
        0 <= deepest_upto(items, n) < n,
        forall|i: int| 0 <= i < n ==> (#[trigger] items[i]).index <= items[deepest_upto(items, n)].index,
        forall|i: int|
            0 <= i < deepest_upto(items, n) ==> (#[trigger] items[i]).index < items[deepest_upto(
                items,
                n,
            )].index,
    decreases n,
{
    if n > 1 {
        lemma_deepest(items, n - 1);
    }
}

/// Every item has a production of the grammar and its dot within the right
/// side.
pub open spec fn in_grammar(g: Grammar, items: Seq<ItemView>) -> bool {
    forall|i: int|
        0 <= i < items.len() ==> g.is_production((#[trigger] items[i]).production) && 0
            <= items[i].index <= g.rhs(items[i].production).len()
}

/// The symbols numbered `depth - to_pop` up to `depth`: the last `to_pop`
/// of `depth` symbols.
pub fn pop_syms(depth: usize, to_pop: usize) -> (r: Vec<usize>)
    requires
        to_pop <= depth,
    ensures
        r@ == Seq::new(to_pop as nat, |i: int| (depth - to_pop + i) as usize),
{
    let mut out: Vec<usize> = Vec::new();
    let mut i: usize = depth - to_pop;
    while i < depth
        invariant
            depth - to_pop <= i <= depth,
            out@ == Seq::new((i - (depth - to_pop)) as nat, |k: int| (depth - to_pop + k) as usize),
        decreases depth - i,
    {
        out.push(i);
        assert(out@ =~= Seq::new(
            (i + 1 - (depth - to_pop)) as nat,
            |k: int| (depth - to_pop + k) as usize,
        ));
        i += 1;
    }
    assert(out@ =~= Seq::new(to_pop as nat, |k: int| (depth - to_pop + k) as usize));
    out
}

/// The symbols that a state with a prefix of `depth` symbols hands to a next
/// state that takes `takes` symbols, after a symbol was shifted.
pub fn transition(depth: usize, takes: usize) -> (r: Vec<usize>)
    requires
        1 <= takes <= depth + 1,
        depth < usize::MAX,
    ensures
        r@ == Seq::new(takes as nat, |i: int| (depth + 1 - takes + i) as usize),
{
    pop_syms(depth + 1, takes)
}

/// What a state function does on a token.
#[derive(Clone, Copy, Debug, PartialEq, Eq, Structural, Hash)]
pub enum Step {
    /// Shift the token and call state `next` with the last `takes` symbols.
    Shift { next: StateIndex, takes: usize },
    /// Pop the last `pops` symbols and run the action of `production`.
    Reduce { production: usize, pops: usize },
}

/// What a state function does on token `token`; the end of input is the
/// token behind the last terminal.
#[derive(Clone, Copy, Debug, PartialEq, Eq, Structural, Hash)]
pub struct Arm {
    pub token: usize,
    pub step: Step,
}

/// What a state function does when a callee hands back `nonterminal`: call
/// state `next` with the last `takes` symbols.
#[derive(Clone, Copy, Debug, PartialEq, Eq, Structural, Hash)]
pub struct GotoArm {
    pub nonterminal: usize,
    pub next: StateIndex,
    pub takes: usize,
}

/// The function of one state.
#[derive(Clone, Debug, PartialEq, Eq)]
pub struct StateFn {
    pub index: StateIndex,
    /// The symbols with which the function is called.
    pub prefix: Vec<Symbol>,
    /// What it does on each token, by increasing token.
    pub arms: Vec<Arm>,
    /// Whether some arm goes on to the gotos: one that shifts, or one that
    /// reduces without popping.
    pub fallthrough: bool,
    /// What it does after each nonterminal, by increasing nonterminal.
    pub gotos: Vec<GotoArm>,
}

/// What a state function stands for.
pub struct StateFnView {
    pub index: StateIndex,
    pub prefix: Seq<Symbol>,
    pub arms: Seq<Arm>,
    pub fallthrough: bool,
    pub gotos: Seq<GotoArm>,
}

impl View for StateFn {
    type V = StateFnView;

    open spec fn view(&self) -> StateFnView {
        StateFnView {
            index: self.index,
            prefix: self.prefix@,
            arms: self.arms@,
            fallthrough: self.fallthrough,
            gotos: self.gotos@,
        }
    }
}

/// What the state functions of a sequence stand for.
pub open spec fn fn_views(s: Seq<StateFn>) -> Seq<StateFnView> {
    Seq::new(s.len(), |i: int| s[i]@)
}

/// The prefix lengths of the states.
pub open spec fn depths_of(states: Seq<StateView>) -> Seq<int> {
    Seq::new(states.len(), |i: int| depth_of(states[i].items))
}

/// A transition from a state with a prefix of `depth` symbols leads to an
/// existing state that takes at least the symbol just shifted and no more
/// symbols than there are.
pub open spec fn target_ok(depths: Seq<int>, depth: int, entry: (usize, StateIndex)) -> bool {
    &&& entry.1.0 < depths.len()
    &&& 1 <= depths[entry.1.0 as int] <= depth + 1
}

/// A state for which a function can be made: it has items, all of the
/// grammar; its transitions are as `target_ok` says; and its reductions are
/// by productions of the grammar with no more symbols than the prefix has.
pub open spec fn state_emittable(g: Grammar, st: StateView, depths: Seq<int>) -> bool {
    &&& st.items.len() > 0
    &&& in_grammar(g, st.items)
    &&& forall|e: int|
        0 <= e < st.shifts.len() ==> target_ok(depths, depth_of(st.items), #[trigger] st.shifts[e])
    &&& forall|e: int|
        0 <= e < st.gotos.len() ==> target_ok(depths, depth_of(st.items), #[trigger] st.gotos[e])
    &&& forall|r: int|
        0 <= r < st.reductions.len() ==> g.is_production((#[trigger] st.reductions[r]).1) && g.rhs(
            st.reductions[r].1,
        ).len() <= depth_of(st.items)
}

/// Every state has items, all of the grammar.
pub open spec fn all_have_items(g: Grammar, states: Seq<StateView>) -> bool {
    forall|i: int|
        0 <= i < states.len() ==> (#[trigger] states[i]).items.len() > 0 && in_grammar(
            g,
            states[i].items,
        )
}

/// States for which a parser can be made.
pub open spec fn emittable(g: Grammar, states: Seq<StateView>) -> bool {
    forall|i: int|
        0 <= i < states.len() ==> state_emittable(g, #[trigger] states[i], depths_of(states))
}

/// The arms for shifting token `t`, from the first `e` entries of the table
/// of shifts.
pub open spec fn shift_arms_upto(st: StateView, depths: Seq<int>, t: int, e: int) -> Seq<Arm>
    decreases e,
{
    if e <= 0 {
        Seq::empty()
    } else if st.shifts[e - 1].0 == t {
        shift_arms_upto(st, depths, t, e - 1).push(
            Arm {
                token: t as usize,
                step: Step::Shift {
                    next: st.shifts[e - 1].1,
                    takes: depths[st.shifts[e - 1].1.0 as int] as usize,
                },
            },
        )
    } else {
        shift_arms_upto(st, depths, t, e - 1)
    }
}

/// The arms for reducing on token `t`, from the first `r` reductions.
pub open spec fn reduce_arms_upto(g: Grammar, with_tokens: bool, st: StateView, t: int, r: int) -> Seq<
    Arm,
>
    decreases r,
{
    if r <= 0 {
        Seq::empty()
    } else if la_admits(with_tokens, st.reductions[r - 1].0, t) {
        reduce_arms_upto(g, with_tokens, st, t, r - 1).push(
            Arm {
                token: t as usize,
                step: Step::Reduce {
                    production: st.reductions[r - 1].1 as usize,
                    pops: g.rhs(st.reductions[r - 1].1).len() as usize,
                },
            },
        )
    } else {
        reduce_arms_upto(g, with_tokens, st, t, r - 1)
    }
}

/// The arms of a state for the tokens below `t`: for each token first the
/// shift, then the reductions whose lookahead admits it.
pub open spec fn arms_upto(g: Grammar, with_tokens: bool, st: StateView, depths: Seq<int>, t: int) -> Seq<
    Arm,
>
    decreases t,
{
    if t <= 0 {
        Seq::empty()
    } else {
        arms_upto(g, with_tokens, st, depths, t - 1).add(
            shift_arms_upto(st, depths, t - 1, st.shifts.len() as int),
        ).add(reduce_arms_upto(g, with_tokens, st, t - 1, st.reductions.len() as int))
    }
}

/// The arms of a state: those for every terminal and for the end of input.
pub open spec fn arms_of(g: Grammar, with_tokens: bool, st: StateView, depths: Seq<int>) -> Seq<Arm> {
    arms_upto(g, with_tokens, st, depths, g.num_terminals + 1)
}

/// Whether the arm goes on to the gotos.
pub open spec fn falls_through(arm: Arm) -> bool {
    match arm.step {
        Step::Shift { .. } => true,
        Step::Reduce { pops, .. } => pops == 0,
    }
}

/// Whether one of the arms goes on to the gotos.
pub open spec fn any_falls_through(arms: Seq<Arm>) -> bool {
    exists|i: int| 0 <= i < arms.len() && falls_through(#[trigger] arms[i])
}

/// The goto arms of a state, one for each entry of its table of gotos.
pub open spec fn gotos_of(st: StateView, depths: Seq<int>) -> Seq<GotoArm> {
    Seq::new(
        st.gotos.len(),
        |e: int|
            GotoArm {
                nonterminal: st.gotos[e].0,
                next: st.gotos[e].1,
                takes: depths[st.gotos[e].1.0 as int] as usize,
            },
    )
}

/// The function of a state.
pub open spec fn state_fn_of(g: Grammar, with_tokens: bool, st: StateView, depths: Seq<int>) -> StateFnView {
    StateFnView {
        index: st.index,
        prefix: prefix_of(g, st.items),
        arms: arms_of(g, with_tokens, st, depths),
        fallthrough: any_falls_through(arms_of(g, with_tokens, st, depths)),
        gotos: gotos_of(st, depths),
    }
}

/// The functions of the states.
pub open spec fn plan_of(g: Grammar, with_tokens: bool, states: Seq<StateView>) -> Seq<StateFnView> {
    Seq::new(states.len(), |i: int| state_fn_of(g, with_tokens, states[i], depths_of(states)))
}

/// What the depths of a sequence stand for.
pub open spec fn depth_views(d: Seq<usize>) -> Seq<int> {
    Seq::new(d.len(), |i: int| d[i] as int)
}

impl<L: Lookahead> State<L> {
    /// The place of the first item whose dot is farthest from the start;
    /// `None` when the state has no items or an item that is not of the
    /// grammar.
    pub fn deepest_item(&self, grammar: &Grammar) -> (r: Option<usize>)
        ensures
            r is Some <==> self@.items.len() > 0 && in_grammar(*grammar, self@.items),
            r matches Some(p) ==> p == deepest(self@.items) && p < self@.items.len(),
    {
        let ghost items = self@.items;
        let n = self.items.vec.len();
        if n == 0 {
            return None;
        }
        let mut best: usize = 0;
        let mut i: usize = 0;
        while i < n
            invariant
                items == self@.items,
                n == items.len(),
                n > 0,
                i <= n,
                best < n,
                i > 0 ==> best == deepest_upto(items, i as int),
                i == 0 ==> best == 0,
                forall|j: int|
                    0 <= j < i ==> grammar.is_production((#[trigger] items[j]).production) && 0
                        <= items[j].index <= grammar.rhs(items[j].production).len(),
            decreases n - i,
        {
            let it = &self.items.vec[i];
            assert(items[i as int] == it@);
            if it.production >= grammar.productions.len() {
                assert(!grammar.is_production(items[i as int].production));
                return None;
            }
            if it.index > grammar.productions[it.production].symbols.len() {
                assert(!(items[i as int].index <= grammar.rhs(items[i as int].production).len()));
                return None;
            }
            assert(items[best as int] == self.items.vec@[best as int]@);
            if i > 0 && it.index > self.items.vec[best].index {
                best = i;
            }
            i += 1;
        }
        Some(best)
    }

    /// The symbols that have certainly been shifted when the state is
    /// entered: those before the dot of the first item whose dot is farthest
    /// from the start.
    pub fn prefix<'a>(&self, grammar: &'a Grammar) -> (r: &'a [Symbol])
        requires
            self@.items.len() > 0,
            in_grammar(*grammar, self@.items),
        ensures
            r@ == prefix_of(*grammar, self@.items),
            r@.len() == depth_of(self@.items),
    {
        let p = self.deepest_item(grammar).unwrap();
        let it = &self.items.vec[p];
        assert(self@.items[p as int] == it@);
        let symbols = &grammar.productions[it.production].symbols;
        slice_subrange(symbols.as_slice(), 0, it.index)
    }
}

/// The prefix lengths of the states; `None` when a state has no items or an
/// item that is not of the grammar.
pub fn depths<L: Lookahead>(grammar: &Grammar, states: &Vec<State<L>>) -> (r: Option<Vec<usize>>)
    ensures
        r is Some <==> all_have_items(*grammar, state_views(states@)),
        r matches Some(d) ==> depth_views(d@) == depths_of(state_views(states@)),
{
    let ghost views = state_views(states@);
    let mut out: Vec<usize> = Vec::new();
    let mut i: usize = 0;
    while i < states.len()
        invariant
            views == state_views(states@),
            i <= views.len(),
            out@.len() == i,
            forall|j: int|
                0 <= j < i ==> (#[trigger] views[j]).items.len() > 0 && in_grammar(
                    *grammar,
                    views[j].items,
                ),
            forall|j: int| 0 <= j < i ==> #[trigger] out@[j] == depth_of(views[j].items),
        decreases views.len() - i,
    {
        assert(views[i as int] == states@[i as int]@);
        match states[i].deepest_item(grammar) {
            None => {
                return None;
            },
            Some(p) => {
                let it = &states[i].items.vec[p];
                assert(views[i as int].items[p as int] == it@);
                out.push(it.index);
            },
        }
        i += 1;
    }
    assert(depth_views(out@) =~= depths_of(views));
    Some(out)
}

/// Whether a function can be made for the state, given the prefix lengths
/// of all states.
pub fn check_state<L: Lookahead>(grammar: &Grammar, state: &State<L>, depths: &Vec<usize>) -> (ok:
    bool)
    requires
        state@.items.len() > 0,
        in_grammar(*grammar, state@.items),
    ensures
        ok == state_emittable(*grammar, state@, depth_views(depths@)),
{
    let ghost g = *grammar;
    let ghost st = state@;
    let ghost dv = depth_views(depths@);
    let p = state.deepest_item(grammar).unwrap();
    assert(st.items[p as int] == state.items.vec@[p as int]@);
    let depth = state.items.vec[p].index;
    let mut e: usize = 0;
    while e < state.shifts.len()
        invariant
            st == state@,
            dv == depth_views(depths@),
            depth == depth_of(st.items),
            e <= st.shifts.len(),
            forall|k: int| 0 <= k < e ==> target_ok(dv, depth as int, #[trigger] st.shifts[k]),
        decreases st.shifts.len() - e,
    {
        let next = state.shifts[e].1.0;
        if next >= depths.len() || depths[next] < 1 || depths[next] - 1 > depth {
            assert(!target_ok(dv, depth as int, st.shifts[e as int]));
            return false;
        }
        e += 1;
    }
    let mut e: usize = 0;
    while e < state.gotos.len()
        invariant
            st == state@,
            dv == depth_views(depths@),
            depth == depth_of(st.items),
            e <= st.gotos.len(),
            forall|k: int| 0 <= k < e ==> target_ok(dv, depth as int, #[trigger] st.gotos[k]),
        decreases st.gotos.len() - e,
    {
        let next = state.gotos[e].1.0;
        if next >= depths.len() || depths[next] < 1 || depths[next] - 1 > depth {
            assert(!target_ok(dv, depth as int, st.gotos[e as int]));
            return false;
        }
        e += 1;
    }
    let mut r: usize = 0;
    while r < state.reductions.len()
        invariant
            g == *grammar,
            st == state@,
            depth == depth_of(st.items),
            r <= st.reductions.len(),
            forall|k: int|
                0 <= k < r ==> g.is_production((#[trigger] st.reductions[k]).1) && g.rhs(
                    st.reductions[k].1,
                ).len() <= depth,
        decreases st.reductions.len() - r,
    {
        let production = state.reductions[r].1;
        assert(st.reductions[r as int].1 == production);
        if production >= grammar.productions.len() {
            assert(!g.is_production(st.reductions[r as int].1));
            return false;
        }
        if grammar.productions[production].symbols.len() > depth {
            assert(!(g.rhs(st.reductions[r as int].1).len() <= depth));
            return false;
        }
        r += 1;
    }
    true
}

/// The function of a state, given the prefix lengths of all states.
pub fn plan_state<L: Lookahead>(grammar: &Grammar, state: &State<L>, depths: &Vec<usize>) -> (f:
    StateFn)
    requires
        grammar.wf(),
        state_emittable(*grammar, state@, depth_views(depths@)),
    ensures
        f@ == state_fn_of(*grammar, L::carries_tokens(), state@, depth_views(depths@)),
{
    let ghost g = *grammar;
    let ghost wt = L::carries_tokens();
    let ghost st = state@;
    let ghost dv = depth_views(depths@);
    let prefix_slice = state.prefix(grammar);
    let mut prefix: Vec<Symbol> = Vec::new();
    let mut i: usize = 0;
    while i < prefix_slice.len()
        invariant
            i <= prefix_slice@.len(),
            prefix@ == prefix_slice@.subrange(0, i as int),
        decreases prefix_slice@.len() - i,
    {
        prefix.push(prefix_slice[i]);
        assert(prefix@ =~= prefix_slice@.subrange(0, i + 1));
        i += 1;
    }
    assert(prefix@ =~= prefix_slice@);
    let mut arms: Vec<Arm> = Vec::new();
    let mut fallthrough = false;
    let mut t: usize = 0;
    while t <= grammar.num_terminals
        invariant
            g == *grammar,
            g.wf(),
            wt == L::carries_tokens(),
            st == state@,
            dv == depth_views(depths@),
            state_emittable(g, st, dv),
            t <= g.num_terminals + 1,
            arms@ == arms_upto(g, wt, st, dv, t as int),
            fallthrough == any_falls_through(arms@),
        decreases g.num_terminals + 1 - t,
    {
        let ghost base = arms@;
        let mut e: usize = 0;
        assert(arms@ =~= base.add(shift_arms_upto(st, dv, t as int, 0)));
        while e < state.shifts.len()
            invariant
                st == state@,
                dv == depth_views(depths@),
                state_emittable(g, st, dv),
                e <= st.shifts.len(),
                arms@ == base.add(shift_arms_upto(st, dv, t as int, e as int)),
                fallthrough == any_falls_through(arms@),
            decreases st.shifts.len() - e,
        {
            if state.shifts[e].0 == t {
                let next = state.shifts[e].1;
                assert(target_ok(dv, depth_of(st.items), st.shifts[e as int]));
                let arm = Arm { token: t, step: Step::Shift { next: next, takes: depths[next.0] } };
                arms.push(arm);
                assert(arms@ =~= base.add(shift_arms_upto(st, dv, t as int, e + 1)));
                assert(arms@[arms@.len() - 1] == arm);
                fallthrough = true;
            }
            e += 1;
        }
        let ghost base2 = arms@;
        let mut r: usize = 0;
        assert(arms@ =~= base2.add(reduce_arms_upto(g, wt, st, t as int, 0)));
        while r < state.reductions.len()
            invariant
                g == *grammar,
                wt == L::carries_tokens(),
                st == state@,
                dv == depth_views(depths@),
                state_emittable(g, st, dv),
                r <= st.reductions.len(),
                arms@ == base2.add(reduce_arms_upto(g, wt, st, t as int, r as int)),
                fallthrough == any_falls_through(arms@),
            decreases st.reductions.len() - r,
        {
            assert(st.reductions[r as int].0 == state.reductions@[r as int].0.bits());
            assert(st.reductions[r as int].1 == state.reductions@[r as int].1);
            assert(g.is_production(st.reductions[r as int].1));
            if state.reductions[r].0.admits(t) {
                let production = state.reductions[r].1;
                let pops = grammar.productions[production].symbols.len();
                let ghost before = arms@;
                let arm = Arm { token: t, step: Step::Reduce { production: production, pops: pops } };
                arms.push(arm);
                assert(arms@ =~= base2.add(reduce_arms_upto(g, wt, st, t as int, r + 1)));
                proof {
                    assert(arms@[arms@.len() - 1] == arm);
                    if any_falls_through(arms@) {
                        let w = choose|w: int| 0 <= w < arms@.len() && falls_through(#[trigger] arms@[w]);
                        if w < before.len() {
                            assert(before[w] == arms@[w]);
                        }
                    }
                    if any_falls_through(before) {
                        let w = choose|w: int| 0 <= w < before.len() && falls_through(
                            #[trigger] before[w],
                        );
                        assert(arms@[w] == before[w]);
                    }
                }
                if pops == 0 {
                    fallthrough = true;
                }
            }
            r += 1;
        }
        assert(arms@ =~= arms_upto(g, wt, st, dv, t + 1));
        t += 1;
    }
    let mut gotos: Vec<GotoArm> = Vec::new();
    let mut e: usize = 0;
    while e < state.gotos.len()
        invariant
            st == state@,
            dv == depth_views(depths@),
            state_emittable(g, st, dv),
            e <= st.gotos.len(),
            gotos@ == gotos_of(st, dv).subrange(0, e as int),
        decreases st.gotos.len() - e,
    {
        let entry = state.gotos[e];
        assert(target_ok(dv, depth_of(st.items), st.gotos[e as int]));
        gotos.push(GotoArm { nonterminal: entry.0, next: entry.1, takes: depths[entry.1.0] });
        assert(gotos@ =~= gotos_of(st, dv).subrange(0, e + 1));
        e += 1;
    }
    assert(gotos@ =~= gotos_of(st, dv));
    StateFn { index: state.index, prefix: prefix, arms: arms, fallthrough: fallthrough, gotos: gotos }
}

/// The functions of the states of an automaton; `None` when there is a
/// state for which none can be made.
pub fn plan<L: Lookahead>(grammar: &Grammar, states: &Vec<State<L>>) -> (r: Option<Vec<StateFn>>)
    requires
        grammar.wf(),
    ensures
        r is Some <==> emittable(*grammar, state_views(states@)),
        r matches Some(fns) ==> fn_views(fns@) == plan_of(
            *grammar,
            L::carries_tokens(),
            state_views(states@),
        ),
{
    let ghost g = *grammar;
    let ghost views = state_views(states@);
    let depths = match depths(grammar, states) {
        None => {
            proof {
                if emittable(g, views) {
                    assert forall|i: int| 0 <= i < views.len() implies (#[trigger] views[i]).items.len()
                        > 0 && in_grammar(g, views[i].items) by {
                        assert(state_emittable(g, views[i], depths_of(views)));
                    }
                }
            }
            return None;
        },
        Some(d) => d,
    };
    let mut out: Vec<StateFn> = Vec::new();
    let mut i: usize = 0;
    while i < states.len()
        invariant
            g == *grammar,
            g.wf(),
            views == state_views(states@),
            depth_views(depths@) == depths_of(views),
            all_have_items(g, views),
            i <= views.len(),
            forall|j: int| 0 <= j < i ==> state_emittable(g, #[trigger] views[j], depths_of(views)),
            fn_views(out@) == plan_of(g, L::carries_tokens(), views).subrange(0, i as int),
        decreases views.len() - i,
    {
        assert(views[i as int] == states@[i as int]@);
        assert(views[i as int].items.len() > 0);
        if !check_state(grammar, &states[i], &depths) {
            return None;
        }
        let f = plan_state(grammar, &states[i], &depths);
        let ghost before = fn_views(out@);
        out.push(f);
        assert(fn_views(out@) =~= before.push(f@));
        assert(fn_views(out@) =~= plan_of(g, L::carries_tokens(), views).subrange(0, i + 1));
        i += 1;
    }
    assert(fn_views(out@) =~= plan_of(g, L::carries_tokens(), views));
    Some(out)
}

} // verus!
