//! What holds of every automaton that the construction builds.

use crate::ascent::{
    deepest, depth_of, depths_of, emittable, lemma_deepest, prefix_of, state_emittable, target_ok,
};
use crate::automaton::{
    build_view, builds, entry_ok, halted, has_entry, has_parent, is_build, kernel_ok,
    lemma_all_conflicts_empty, lemma_build_unique, lemma_kernels_distinct, lemma_state_kernel,
    parent_at, run, state_kernel, state_ok, symbol_of, table_ok, target_kernel, well_built,
    BuildView,
};
use crate::closure::{
    all_ok, is_closure_of, items_spec, lemma_closure_adds_fresh_items, lemma_closure_holds_seed,
    strictly_sorted,
};
use crate::grammar::{Grammar, Symbol};
use crate::item::ItemView;
use crate::kernel_set::StateIndex;
use crate::prefix::{compatible, is_suffix, shifted_prefix};
use crate::projection::{
    is_core_image, lemma_closure_projection, lemma_core_image_empty, lemma_core_image_unique,
    lemma_seed_projection, lemma_successor_projection,
};
use crate::state::{
    conflict_free, reductions_upto, transition_on, transition_target, ConflictView, StateView,
};
use crate::successor::{fed, feeds, lemma_successor_shape, successor_kernel};
use vstd::prelude::*;

verus! {

/// No two states of an automaton have the same kernel.
pub proof fn lemma_states_have_distinct_kernels(
    g: Grammar,
    with_tokens: bool,
    seed: Seq<ItemView>,
    budget: Option<usize>,
    states: Seq<StateView>,
    conflicts: Seq<ConflictView>,
    i: int,
    j: int,
)
    requires
        builds(g, with_tokens, seed, budget, states, conflicts),
        0 <= i < states.len(),
        0 <= j < states.len(),
        i != j,
    ensures
        state_kernel(states, seed, i) != state_kernel(states, seed, j),
{
    let kernels = choose|kernels: Seq<Seq<ItemView>>|
        {
            &&& is_build(g, with_tokens, seed, budget, #[trigger] build_view(kernels, states, conflicts))
            &&& well_built(g, with_tokens, seed, build_view(kernels, states, conflicts))
        };
    let b = build_view(kernels, states, conflicts);
    if i < j {
        lemma_kernels_distinct(g, with_tokens, seed, b, i, j);
    } else {
        lemma_kernels_distinct(g, with_tokens, seed, b, j, i);
    }
}

/// Each state holds the closure of its kernel.
pub proof fn lemma_states_are_closures(
    g: Grammar,
    with_tokens: bool,
    seed: Seq<ItemView>,
    budget: Option<usize>,
    states: Seq<StateView>,
    conflicts: Seq<ConflictView>,
    i: int,
)
    requires
        builds(g, with_tokens, seed, budget, states, conflicts),
        0 <= i < states.len(),
    ensures
        states[i].index == StateIndex(i as usize),
        is_closure_of(g, with_tokens, states[i].items, state_kernel(states, seed, i)),
{
    let kernels = choose|kernels: Seq<Seq<ItemView>>|
        {
            &&& is_build(g, with_tokens, seed, budget, #[trigger] build_view(kernels, states, conflicts))
            &&& well_built(g, with_tokens, seed, build_view(kernels, states, conflicts))
        };
    let b = build_view(kernels, states, conflicts);
    lemma_state_kernel(g, with_tokens, seed, b, i);
    assert(state_ok(g, with_tokens, kernels, b.states[i], i));
}

/// Two constructions for one grammar from one seed with one budget end
/// with the same states, in the same order, and the same conflicts.
pub proof fn lemma_construction_is_deterministic(
    g: Grammar,
    with_tokens: bool,
    seed: Seq<ItemView>,
    budget: Option<usize>,
    states1: Seq<StateView>,
    conflicts1: Seq<ConflictView>,
    states2: Seq<StateView>,
    conflicts2: Seq<ConflictView>,
)
    requires
        builds(g, with_tokens, seed, budget, states1, conflicts1),
        builds(g, with_tokens, seed, budget, states2, conflicts2),
    ensures
        states1 == states2,
        conflicts1 == conflicts2,
{
    let k1 = choose|kernels: Seq<Seq<ItemView>>|
        {
            &&& is_build(
                g,
                with_tokens,
                seed,
                budget,
                #[trigger] build_view(kernels, states1, conflicts1),
            )
            &&& well_built(g, with_tokens, seed, build_view(kernels, states1, conflicts1))
        };
    let k2 = choose|kernels: Seq<Seq<ItemView>>|
        {
            &&& is_build(
                g,
                with_tokens,
                seed,
                budget,
                #[trigger] build_view(kernels, states2, conflicts2),
            )
            &&& well_built(g, with_tokens, seed, build_view(kernels, states2, conflicts2))
        };
    lemma_build_unique(
        g,
        with_tokens,
        seed,
        budget,
        build_view(k1, states1, conflicts1),
        build_view(k2, states2, conflicts2),
    );
}

/// From each state there is at most one transition over each symbol: a
/// symbol never has an entry in both tables, nor two in one.
pub proof fn lemma_at_most_one_transition(
    g: Grammar,
    with_tokens: bool,
    seed: Seq<ItemView>,
    budget: Option<usize>,
    states: Seq<StateView>,
    conflicts: Seq<ConflictView>,
    i: int,
    x: Symbol,
    in_gotos1: bool,
    e1: int,
    in_gotos2: bool,
    e2: int,
)
    requires
        builds(g, with_tokens, seed, budget, states, conflicts),
        0 <= i < states.len(),
        transition_on(states[i], x, in_gotos1, e1),
        transition_on(states[i], x, in_gotos2, e2),
    ensures
        in_gotos1 == in_gotos2,
        e1 == e2,
{
    let kernels = choose|kernels: Seq<Seq<ItemView>>|
        {
            &&& is_build(g, with_tokens, seed, budget, #[trigger] build_view(kernels, states, conflicts))
            &&& well_built(g, with_tokens, seed, build_view(kernels, states, conflicts))
        };
    let b = build_view(kernels, states, conflicts);
    let st = states[i];
    assert(state_ok(g, with_tokens, kernels, b.states[i], i));
    if in_gotos1 {
        if e1 < e2 {
            assert(st.gotos[e1].0 < st.gotos[e2].0);
        } else if e2 < e1 {
            assert(st.gotos[e2].0 < st.gotos[e1].0);
        }
    } else {
        if e1 < e2 {
            assert(st.shifts[e1].0 < st.shifts[e2].0);
        } else if e2 < e1 {
            assert(st.shifts[e2].0 < st.shifts[e1].0);
        }
    }
}

/// A state has a transition over a symbol of the grammar exactly when some
/// item has its dot before the symbol, that is, when the successor kernel
/// over the symbol is not empty; and the state to which it leads has that
/// kernel.
pub proof fn lemma_transitions_follow_kernels(
    g: Grammar,
    with_tokens: bool,
    seed: Seq<ItemView>,
    budget: Option<usize>,
    states: Seq<StateView>,
    conflicts: Seq<ConflictView>,
    i: int,
    in_gotos: bool,
    x: int,
)
    requires
        builds(g, with_tokens, seed, budget, states, conflicts),
        0 <= i < states.len(),
        0 <= x < (if in_gotos {
            g.num_nonterminals
        } else {
            g.num_terminals
        }),
    ensures
        has_entry(
            if in_gotos {
                states[i].gotos
            } else {
                states[i].shifts
            },
            x,
        ) <==> target_kernel(g, states[i].items, in_gotos, x).len() > 0,
        forall|e: int|
            transition_on(states[i], symbol_of(in_gotos, x), in_gotos, e) ==> {
                let next = #[trigger] transition_target(states[i], in_gotos, e);
                &&& next.0 > 0
                &&& next.0 < states.len() ==> state_kernel(states, seed, next.0 as int)
                    == target_kernel(g, states[i].items, in_gotos, x)
            },
{
    let kernels = choose|kernels: Seq<Seq<ItemView>>|
        {
            &&& is_build(g, with_tokens, seed, budget, #[trigger] build_view(kernels, states, conflicts))
            &&& well_built(g, with_tokens, seed, build_view(kernels, states, conflicts))
        };
    let b = build_view(kernels, states, conflicts);
    let st = states[i];
    assert(state_ok(g, with_tokens, kernels, b.states[i], i));
    let table = if in_gotos {
        st.gotos
    } else {
        st.shifts
    };
    let n: int = if in_gotos {
        g.num_nonterminals as int
    } else {
        g.num_terminals as int
    };
    assert(table_ok(g, kernels, st.items, table, in_gotos, n));
    if has_entry(table, x) {
        let e = choose|e: int| 0 <= e < table.len() && (#[trigger] table[e]).0 == x;
        assert(entry_ok(g, kernels, st.items, in_gotos, n, table[e]));
    }
    assert forall|e: int|
        transition_on(st, symbol_of(in_gotos, x), in_gotos, e) implies {
        let next = #[trigger] transition_target(st, in_gotos, e);
        &&& next.0 > 0
        &&& next.0 < states.len() ==> state_kernel(states, seed, next.0 as int) == target_kernel(
            g,
            st.items,
            in_gotos,
            x,
        )
    } by {
        let next = transition_target(st, in_gotos, e);
        assert(entry_ok(g, kernels, st.items, in_gotos, n, table[e]));
        assert(table[e].0 == x);
        if next.0 < states.len() {
            lemma_state_kernel(g, with_tokens, seed, b, next.0 as int);
        }
    }
}

/// A construction that ends without conflicts has built a state for every
/// kernel, so every transition leads to a state; and in every state the
/// terminals that are shifted are apart from the lookahead of every item
/// with the dot at the end, and any two such items have lookaheads without a
/// common token.
pub proof fn lemma_no_conflicts_is_deterministic_table(
    g: Grammar,
    with_tokens: bool,
    seed: Seq<ItemView>,
    budget: Option<usize>,
    states: Seq<StateView>,
    conflicts: Seq<ConflictView>,
)
    requires
        builds(g, with_tokens, seed, budget, states, conflicts),
        conflicts.len() == 0,
    ensures
        forall|i: int| 0 <= i < states.len() ==> conflict_free(g, with_tokens, #[trigger] states[i]),
        forall|i: int, e: int|
            0 <= i < states.len() && 0 <= e < states[i].shifts.len() ==> (
            #[trigger] states[i].shifts[e]).1.0 < states.len(),
        forall|i: int, e: int|
            0 <= i < states.len() && 0 <= e < states[i].gotos.len() ==> (
            #[trigger] states[i].gotos[e]).1.0 < states.len(),
{
    let kernels = choose|kernels: Seq<Seq<ItemView>>|
        {
            &&& is_build(g, with_tokens, seed, budget, #[trigger] build_view(kernels, states, conflicts))
            &&& well_built(g, with_tokens, seed, build_view(kernels, states, conflicts))
        };
    let b = build_view(kernels, states, conflicts);
    lemma_all_conflicts_empty(g, with_tokens, states, states.len() as int);
    let n = choose|n: nat|
        halted(run(g, with_tokens, seed, budget, n), budget) && b == run(
            g,
            with_tokens,
            seed,
            budget,
            n,
        );
    assert(halted(b, budget));
    assert(states.len() >= kernels.len());
    assert forall|i: int, e: int|
        0 <= i < states.len() && 0 <= e < states[i].shifts.len() implies (
    #[trigger] states[i].shifts[e]).1.0 < states.len() by {
        assert(state_ok(g, with_tokens, kernels, b.states[i], i));
        assert(entry_ok(
            g,
            kernels,
            states[i].items,
            false,
            g.num_terminals as int,
            states[i].shifts[e],
        ));
    }
    assert forall|i: int, e: int|
        0 <= i < states.len() && 0 <= e < states[i].gotos.len() implies (
    #[trigger] states[i].gotos[e]).1.0 < states.len() by {
        assert(state_ok(g, with_tokens, kernels, b.states[i], i));
        assert(entry_ok(
            g,
            kernels,
            states[i].items,
            true,
            g.num_nonterminals as int,
            states[i].gotos[e],
        ));
    }
}

/// Each reduction of a state is that of an item with the dot at the end.
pub proof fn lemma_reductions_upto(g: Grammar, items: Seq<ItemView>, n: int, r: int)
    requires
        0 <= n <= items.len(),
        0 <= r < reductions_upto(g, items, n).len(),
    ensures
        exists|i: int|
            0 <= i < n && (#[trigger] items[i]).can_reduce(g) && reductions_upto(g, items, n)[r] == (
                items[i].lookahead,
                items[i].production,
            ),
    decreases n,
{
    if n > 0 {
        let prev = reductions_upto(g, items, n - 1);
        if r < prev.len() {
            lemma_reductions_upto(g, items, n - 1, r);
            let i = choose|i: int|
                0 <= i < n - 1 && (#[trigger] items[i]).can_reduce(g) && prev[r] == (
                    items[i].lookahead,
                    items[i].production,
                );
            assert(items[i].can_reduce(g));
        } else {
            assert(items[n - 1].can_reduce(g));
        }
    }
}

/// The state that is entered over a symbol takes at least the symbol and
/// at most one symbol more than the state it is entered from.
pub proof fn lemma_target_depth(
    g: Grammar,
    with_tokens: bool,
    source: Seq<ItemView>,
    x: Symbol,
    target: Seq<ItemView>,
)
    requires
        strictly_sorted(source),
        all_ok(g, with_tokens, source),
        successor_kernel(g, source, x).len() > 0,
        is_closure_of(g, with_tokens, target, successor_kernel(g, source, x)),
    ensures
        target.len() > 0,
        1 <= depth_of(target) <= depth_of(source) + 1,
{
    let kernel = successor_kernel(g, source, x);
    lemma_successor_shape(g, with_tokens, source, x, source.len() as int);
    assert(kernel.contains(kernel[0]));
    lemma_closure_holds_seed(g, with_tokens, kernel, kernel[0]);
    assert(target.contains(kernel[0]));
    let w = choose|w: int| 0 <= w < target.len() && target[w] == kernel[0];
    lemma_deepest(target, target.len() as int);
    let d = target[deepest(target)];
    assert(target[w].index <= d.index);
    assert(kernel[0].index > 0);
    assert(target.contains(d));
    lemma_closure_adds_fresh_items(g, with_tokens, kernel, d);
    let k = choose|k: int| 0 <= k < kernel.len() && kernel[k] == d;
    assert(fed(g, source, x, source.len() as int, kernel[k]));
    let j = choose|j: int| j < source.len() && #[trigger] feeds(g, source, x, j, d);
    lemma_deepest(source, source.len() as int);
    assert(source[j].index <= depth_of(source));
}

/// For the states of a construction that ended without conflicts, from a
/// seed that is not empty, a parser can be made: every state has items,
/// every transition leads to a state that takes between one symbol and one
/// more than its source, and no reduction pops more than the prefix holds.
pub proof fn lemma_built_states_are_emittable(
    g: Grammar,
    with_tokens: bool,
    seed: Seq<ItemView>,
    budget: Option<usize>,
    states: Seq<StateView>,
    conflicts: Seq<ConflictView>,
)
    requires
        builds(g, with_tokens, seed, budget, states, conflicts),
        conflicts.len() == 0,
        seed.len() > 0,
    ensures
        emittable(g, states),
{
    let kernels = choose|kernels: Seq<Seq<ItemView>>|
        {
            &&& is_build(g, with_tokens, seed, budget, #[trigger] build_view(kernels, states, conflicts))
            &&& well_built(g, with_tokens, seed, build_view(kernels, states, conflicts))
        };
    let b = build_view(kernels, states, conflicts);
    lemma_no_conflicts_is_deterministic_table(g, with_tokens, seed, budget, states, conflicts);
    let depths = depths_of(states);
    assert forall|i: int| 0 <= i < states.len() implies state_emittable(
        g,
        #[trigger] states[i],
        depths,
    ) by {
        let st = states[i];
        assert(state_ok(g, with_tokens, kernels, b.states[i], i));
        assert(kernels[i].len() > 0);
        assert(kernels[i].contains(kernels[i][0]));
        lemma_closure_holds_seed(g, with_tokens, kernels[i], kernels[i][0]);
        assert(st.items.contains(kernels[i][0]));
        assert forall|k: int| 0 <= k < st.items.len() implies g.is_production(
            (#[trigger] st.items[k]).production,
        ) && 0 <= st.items[k].index <= g.rhs(st.items[k].production).len() by {
            assert(st.items[k].ok(g, with_tokens));
        }
        lemma_deepest(st.items, st.items.len() as int);
        assert forall|e: int| 0 <= e < st.shifts.len() implies target_ok(
            depths,
            depth_of(st.items),
            #[trigger] st.shifts[e],
        ) by {
            lemma_entry_depth(g, with_tokens, seed, b, i, false, e);
        }
        assert forall|e: int| 0 <= e < st.gotos.len() implies target_ok(
            depths,
            depth_of(st.items),
            #[trigger] st.gotos[e],
        ) by {
            lemma_entry_depth(g, with_tokens, seed, b, i, true, e);
        }
        assert forall|r: int| 0 <= r < st.reductions.len() implies g.is_production(
            (#[trigger] st.reductions[r]).1,
        ) && g.rhs(st.reductions[r].1).len() <= depth_of(st.items) by {
            lemma_reductions_upto(g, st.items, st.items.len() as int, r);
            let k = choose|k: int|
                0 <= k < st.items.len() && (#[trigger] st.items[k]).can_reduce(g)
                    && st.reductions[r] == (st.items[k].lookahead, st.items[k].production);
            assert(st.items[k].ok(g, with_tokens));
            assert(st.items[k].index <= depth_of(st.items));
        }
    }
}

/// The step of `lemma_built_states_are_emittable` for one transition.
proof fn lemma_entry_depth(
    g: Grammar,
    with_tokens: bool,
    seed: Seq<ItemView>,
    b: BuildView,
    i: int,
    in_gotos: bool,
    e: int,
)
    requires
        well_built(g, with_tokens, seed, b),
        b.states.len() >= b.kernels.len(),
        0 <= i < b.states.len(),
        0 <= e < (if in_gotos {
            b.states[i].gotos
        } else {
            b.states[i].shifts
        }).len(),
    ensures
        target_ok(
            depths_of(b.states),
            depth_of(b.states[i].items),
            (if in_gotos {
                b.states[i].gotos
            } else {
                b.states[i].shifts
            })[e],
        ),
{
    let st = b.states[i];
    assert(state_ok(g, with_tokens, b.kernels, st, i));
    let table = if in_gotos {
        st.gotos
    } else {
        st.shifts
    };
    let n: int = if in_gotos {
        g.num_nonterminals as int
    } else {
        g.num_terminals as int
    };
    assert(table_ok(g, b.kernels, st.items, table, in_gotos, n));
    let entry = table[e];
    assert(entry_ok(g, b.kernels, st.items, in_gotos, n, entry));
    let next = entry.1.0 as int;
    let tgt = b.states[next];
    assert(state_ok(g, with_tokens, b.kernels, tgt, next));
    lemma_target_depth(
        g,
        with_tokens,
        st.items,
        symbol_of(in_gotos, entry.0 as int),
        tgt.items,
    );
}

/// The LR(0) state holds exactly the items of the LR(1) state with their
/// lookahead removed.
pub open spec fn corresponds(lr0_state: StateView, lr1_state: StateView) -> bool {
    is_core_image(lr0_state.items, lr1_state.items)
}

/// A construction that has a state for every kernel.
pub open spec fn complete(b: BuildView) -> bool {
    b.states.len() == b.kernels.len()
}

/// The items of states whose kernels correspond do correspond.
proof fn lemma_states_correspond(
    g: Grammar,
    seed0: Seq<ItemView>,
    seed1: Seq<ItemView>,
    b0: BuildView,
    b1: BuildView,
    j0: int,
    j1: int,
)
    requires
        well_built(g, false, seed0, b0),
        well_built(g, true, seed1, b1),
        0 <= j0 < b0.states.len(),
        0 <= j1 < b1.states.len(),
        is_core_image(b0.kernels[j0], b1.kernels[j1]),
    ensures
        corresponds(b0.states[j0], b1.states[j1]),
        strictly_sorted(b0.states[j0].items),
        strictly_sorted(b1.states[j1].items),
        all_ok(g, false, b0.states[j0].items),
        all_ok(g, true, b1.states[j1].items),
{
    assert(state_ok(g, false, b0.kernels, b0.states[j0], j0));
    assert(state_ok(g, true, b1.kernels, b1.states[j1], j1));
    lemma_closure_projection(
        g,
        b0.kernels[j0],
        b1.kernels[j1],
        b0.states[j0].items,
        b1.states[j1].items,
    );
}

/// The kernel that is entered from a state over a symbol with a successor
/// kernel is registered, at the index that the state's table gives.
proof fn lemma_target_is_registered(
    g: Grammar,
    with_tokens: bool,
    seed: Seq<ItemView>,
    b: BuildView,
    i: int,
    nonterminal: bool,
    x: int,
) -> (j: int)
    requires
        well_built(g, with_tokens, seed, b),
        0 <= i < b.states.len(),
        0 <= x < (if nonterminal {
            g.num_nonterminals
        } else {
            g.num_terminals
        }),
        target_kernel(g, b.states[i].items, nonterminal, x).len() > 0,
    ensures
        0 < j < b.kernels.len(),
        b.kernels[j] == target_kernel(g, b.states[i].items, nonterminal, x),
        exists|e: int|
            transition_on(b.states[i], symbol_of(nonterminal, x), nonterminal, e) && (
            #[trigger] transition_target(b.states[i], nonterminal, e)).0 == j,
{
    let st = b.states[i];
    assert(state_ok(g, with_tokens, b.kernels, st, i));
    let table = if nonterminal {
        st.gotos
    } else {
        st.shifts
    };
    let n: int = if nonterminal {
        g.num_nonterminals as int
    } else {
        g.num_terminals as int
    };
    assert(table_ok(g, b.kernels, st.items, table, nonterminal, n));
    assert(has_entry(table, x));
    let e = choose|e: int| 0 <= e < table.len() && (#[trigger] table[e]).0 == x;
    assert(entry_ok(g, b.kernels, st.items, nonterminal, n, table[e]));
    assert(transition_on(st, symbol_of(nonterminal, x), nonterminal, e));
    assert(transition_target(st, nonterminal, e).0 == table[e].1.0);
    table[e].1.0 as int
}

/// For every kernel of a complete LR(1) construction, a complete LR(0)
/// construction has its image.
proof fn lemma_image_exists(
    g: Grammar,
    seed0: Seq<ItemView>,
    seed1: Seq<ItemView>,
    b0: BuildView,
    b1: BuildView,
    j1: int,
) -> (j0: int)
    requires
        well_built(g, false, seed0, b0),
        well_built(g, true, seed1, b1),
        complete(b0),
        complete(b1),
        is_core_image(seed0, seed1),
        0 <= j1 < b1.kernels.len(),
    ensures
        0 <= j0 < b0.kernels.len(),
        is_core_image(b0.kernels[j0], b1.kernels[j1]),
    decreases j1,
{
    if j1 == 0 {
        0
    } else {
        assert(has_parent(g, b1.states, b1.kernels, j1));
        let (i1, nonterminal, x) = choose|i1: int, nonterminal: bool, x: int| #[trigger]
            parent_at(g, b1.states, b1.kernels, j1, i1, nonterminal, x);
        let i0 = lemma_image_exists(g, seed0, seed1, b0, b1, i1);
        lemma_states_correspond(g, seed0, seed1, b0, b1, i0, i1);
        lemma_successor_projection(
            g,
            b0.states[i0].items,
            b1.states[i1].items,
            symbol_of(nonterminal, x),
        );
        let t0 = target_kernel(g, b0.states[i0].items, nonterminal, x);
        let t1 = target_kernel(g, b1.states[i1].items, nonterminal, x);
        assert(t1.len() > 0);
        lemma_core_image_empty(t0, t1);
        lemma_target_is_registered(g, false, seed0, b0, i0, nonterminal, x)
    }
}

/// Every kernel of a complete LR(0) construction is the image of a kernel of
/// a complete LR(1) construction.
proof fn lemma_preimage_exists(
    g: Grammar,
    seed0: Seq<ItemView>,
    seed1: Seq<ItemView>,
    b0: BuildView,
    b1: BuildView,
    j0: int,
) -> (j1: int)
    requires
        well_built(g, false, seed0, b0),
        well_built(g, true, seed1, b1),
        complete(b0),
        complete(b1),
        is_core_image(seed0, seed1),
        0 <= j0 < b0.kernels.len(),
    ensures
        0 <= j1 < b1.kernels.len(),
        is_core_image(b0.kernels[j0], b1.kernels[j1]),
    decreases j0,
{
    if j0 == 0 {
        0
    } else {
        assert(has_parent(g, b0.states, b0.kernels, j0));
        let (i0, nonterminal, x) = choose|i0: int, nonterminal: bool, x: int| #[trigger]
            parent_at(g, b0.states, b0.kernels, j0, i0, nonterminal, x);
        let i1 = lemma_preimage_exists(g, seed0, seed1, b0, b1, i0);
        lemma_states_correspond(g, seed0, seed1, b0, b1, i0, i1);
        lemma_successor_projection(
            g,
            b0.states[i0].items,
            b1.states[i1].items,
            symbol_of(nonterminal, x),
        );
        let t0 = target_kernel(g, b0.states[i0].items, nonterminal, x);
        let t1 = target_kernel(g, b1.states[i1].items, nonterminal, x);
        assert(t0.len() > 0);
        lemma_core_image_empty(t0, t1);
        lemma_target_is_registered(g, true, seed1, b1, i1, nonterminal, x)
    }
}

/// A function that maps the numbers below `n` to distinct numbers below `m`
/// shows that `n` is at most `m`.
pub proof fn lemma_injection_bound(f: spec_fn(int) -> int, n: int, m: int)
    requires
        0 <= n,
        0 <= m,
        forall|a: int| 0 <= a < n ==> 0 <= #[trigger] f(a) < m,
        forall|a: int, b: int| 0 <= a < b < n ==> #[trigger] f(a) != #[trigger] f(b),
    ensures
        n <= m,
    decreases m,
{
    if n > 0 {
        assert(0 <= f(0) < m);
        if exists|a: int| 0 <= a < n && #[trigger] f(a) == m - 1 {
            let a0 = choose|a: int| 0 <= a < n && #[trigger] f(a) == m - 1;
            let f2 = |a: int|
                if a < a0 {
                    f(a)
                } else {
                    f(a + 1)
                };
            assert forall|a: int| 0 <= a < n - 1 implies 0 <= #[trigger] f2(a) < m - 1 by {
                if a < a0 {
                    assert(f(a) != f(a0));
                } else {
                    assert(f(a0) != f(a + 1));
                }
            }
            assert forall|a: int, b: int| 0 <= a < b < n - 1 implies #[trigger] f2(a) != #[trigger] f2(
                b,
            ) by {
                let a2 = if a < a0 {
                    a
                } else {
                    a + 1
                };
                let b2 = if b < a0 {
                    b
                } else {
                    b + 1
                };
                assert(f(a2) != f(b2));
            }
            lemma_injection_bound(f2, n - 1, m - 1);
        } else {
            assert forall|a: int| 0 <= a < n - 1 implies 0 <= #[trigger] f(a) < m - 1 by {
                assert(0 <= f(a) < m);
            }
            lemma_injection_bound(f, n - 1, m - 1);
        }
    }
}

/// The constructions behind two outcomes without conflicts, one without
/// and one with lookahead, are complete.
proof fn lemma_complete_pair(
    g: Grammar,
    seed0: Seq<ItemView>,
    seed1: Seq<ItemView>,
    budget0: Option<usize>,
    budget1: Option<usize>,
    states0: Seq<StateView>,
    states1: Seq<StateView>,
) -> (r: (BuildView, BuildView))
    requires
        builds(g, false, seed0, budget0, states0, Seq::empty()),
        builds(g, true, seed1, budget1, states1, Seq::empty()),
    ensures
        r.0.states == states0,
        r.1.states == states1,
        well_built(g, false, seed0, r.0),
        well_built(g, true, seed1, r.1),
        complete(r.0),
        complete(r.1),
{
    let e = Seq::<ConflictView>::empty();
    let k0 = choose|kernels: Seq<Seq<ItemView>>|
        {
            &&& is_build(g, false, seed0, budget0, #[trigger] build_view(kernels, states0, e))
            &&& well_built(g, false, seed0, build_view(kernels, states0, e))
        };
    let k1 = choose|kernels: Seq<Seq<ItemView>>|
        {
            &&& is_build(g, true, seed1, budget1, #[trigger] build_view(kernels, states1, e))
            &&& well_built(g, true, seed1, build_view(kernels, states1, e))
        };
    let b0 = build_view(k0, states0, e);
    let b1 = build_view(k1, states1, e);
    let n0 = choose|n: nat|
        halted(run(g, false, seed0, budget0, n), budget0) && b0 == run(g, false, seed0, budget0, n);
    let n1 = choose|n: nat|
        halted(run(g, true, seed1, budget1, n), budget1) && b1 == run(g, true, seed1, budget1, n);
    assert(halted(b0, budget0));
    assert(halted(b1, budget1));
    (b0, b1)
}

/// Where both the LR(0) and the LR(1) construction for a grammar and a
/// start nonterminal end without conflicts, every LR(1) state has an LR(0)
/// state that holds its items with the lookahead removed, and every LR(0)
/// state is such an image; so the LR(0) automaton has no more states than
/// the LR(1) automaton.  The first states correspond.
pub proof fn lemma_lr0_is_image_of_lr1(
    g: Grammar,
    start: int,
    la: Seq<bool>,
    budget0: Option<usize>,
    budget1: Option<usize>,
    states0: Seq<StateView>,
    states1: Seq<StateView>,
)
    requires
        builds(g, false, items_spec(g, start, 0, Seq::empty()), budget0, states0, Seq::empty()),
        builds(g, true, items_spec(g, start, 0, la), budget1, states1, Seq::empty()),
    ensures
        states0.len() <= states1.len(),
        states0.len() > 0,
        states1.len() > 0,
        corresponds(states0[0], states1[0]),
        forall|i1: int|
            0 <= i1 < states1.len() ==> exists|i0: int|
                0 <= i0 < states0.len() && corresponds(states0[i0], #[trigger] states1[i1]),
        forall|i0: int|
            0 <= i0 < states0.len() ==> exists|i1: int|
                0 <= i1 < states1.len() && corresponds(#[trigger] states0[i0], states1[i1]),
{
    let seed0 = items_spec(g, start, 0, Seq::empty());
    let seed1 = items_spec(g, start, 0, la);
    let (b0, b1) = lemma_complete_pair(g, seed0, seed1, budget0, budget1, states0, states1);
    lemma_seed_projection(g, start, la);
    lemma_states_correspond(g, seed0, seed1, b0, b1, 0, 0);
    assert forall|i1: int| 0 <= i1 < states1.len() implies exists|i0: int|
        0 <= i0 < states0.len() && corresponds(states0[i0], #[trigger] states1[i1]) by {
        let i0 = lemma_image_exists(g, seed0, seed1, b0, b1, i1);
        lemma_states_correspond(g, seed0, seed1, b0, b1, i0, i1);
    }
    assert forall|i0: int| 0 <= i0 < states0.len() implies exists|i1: int|
        0 <= i1 < states1.len() && corresponds(#[trigger] states0[i0], states1[i1]) by {
        let i1 = lemma_preimage_exists(g, seed0, seed1, b0, b1, i0);
        lemma_states_correspond(g, seed0, seed1, b0, b1, i0, i1);
    }
    // a kernel of the LR(1) registry for each LR(0) kernel, distinct for
    // distinct kernels
    let pick = |i0: int|
        choose|i1: int|
            0 <= i1 < b1.kernels.len() && is_core_image(b0.kernels[i0], #[trigger] b1.kernels[i1]);
    assert forall|a: int| 0 <= a < b0.kernels.len() implies 0 <= #[trigger] pick(a)
        < b1.kernels.len() && is_core_image(b0.kernels[a], b1.kernels[pick(a)]) by {
        let i1 = lemma_preimage_exists(g, seed0, seed1, b0, b1, a);
    }
    assert forall|a: int, b: int| 0 <= a < b < b0.kernels.len() implies #[trigger] pick(a)
        != #[trigger] pick(b) by {
        if pick(a) == pick(b) {
            assert(0 <= pick(a) < b1.kernels.len() && is_core_image(
                b0.kernels[a],
                b1.kernels[pick(a)],
            ));
            assert(0 <= pick(b) < b1.kernels.len() && is_core_image(
                b0.kernels[b],
                b1.kernels[pick(b)],
            ));
            assert(kernel_ok(g, false, b0.kernels[a]));
            assert(kernel_ok(g, false, b0.kernels[b]));
            lemma_core_image_unique(b0.kernels[a], b0.kernels[b], b1.kernels[pick(a)]);
            assert(b0.kernels[a] != b0.kernels[b]);
        }
    }
    lemma_injection_bound(pick, b0.kernels.len() as int, b1.kernels.len() as int);
}

/// States that correspond have transitions over the same symbols, and the
/// transitions over one symbol lead to states that correspond.
pub proof fn lemma_transitions_correspond(
    g: Grammar,
    start: int,
    la: Seq<bool>,
    budget0: Option<usize>,
    budget1: Option<usize>,
    states0: Seq<StateView>,
    states1: Seq<StateView>,
    i0: int,
    i1: int,
    in_gotos: bool,
    x: int,
)
    requires
        builds(g, false, items_spec(g, start, 0, Seq::empty()), budget0, states0, Seq::empty()),
        builds(g, true, items_spec(g, start, 0, la), budget1, states1, Seq::empty()),
        0 <= i0 < states0.len(),
        0 <= i1 < states1.len(),
        corresponds(states0[i0], states1[i1]),
        0 <= x < (if in_gotos {
            g.num_nonterminals
        } else {
            g.num_terminals
        }),
    ensures
        has_entry(
            if in_gotos {
                states0[i0].gotos
            } else {
                states0[i0].shifts
            },
            x,
        ) <==> has_entry(
            if in_gotos {
                states1[i1].gotos
            } else {
                states1[i1].shifts
            },
            x,
        ),
        forall|e0: int, e1: int|
            transition_on(states0[i0], symbol_of(in_gotos, x), in_gotos, e0) && transition_on(
                states1[i1],
                symbol_of(in_gotos, x),
                in_gotos,
                e1,
            ) ==> {
                let t0 = #[trigger] transition_target(states0[i0], in_gotos, e0);
                let t1 = #[trigger] transition_target(states1[i1], in_gotos, e1);
                &&& t0.0 < states0.len()
                &&& t1.0 < states1.len()
                &&& corresponds(states0[t0.0 as int], states1[t1.0 as int])
            },
{
    let seed0 = items_spec(g, start, 0, Seq::empty());
    let seed1 = items_spec(g, start, 0, la);
    let e = Seq::<ConflictView>::empty();
    let (b0, b1) = lemma_complete_pair(g, seed0, seed1, budget0, budget1, states0, states1);
    let st0 = states0[i0];
    let st1 = states1[i1];
    assert(state_ok(g, false, b0.kernels, b0.states[i0], i0));
    assert(state_ok(g, true, b1.kernels, b1.states[i1], i1));
    lemma_successor_projection(g, st0.items, st1.items, symbol_of(in_gotos, x));
    let k0 = target_kernel(g, st0.items, in_gotos, x);
    let k1 = target_kernel(g, st1.items, in_gotos, x);
    lemma_core_image_empty(k0, k1);
    lemma_transitions_follow_kernels(g, false, seed0, budget0, states0, e, i0, in_gotos, x);
    lemma_transitions_follow_kernels(g, true, seed1, budget1, states1, e, i1, in_gotos, x);
    lemma_no_conflicts_is_deterministic_table(g, false, seed0, budget0, states0, e);
    lemma_no_conflicts_is_deterministic_table(g, true, seed1, budget1, states1, e);
    assert forall|e0: int, e1: int|
        transition_on(st0, symbol_of(in_gotos, x), in_gotos, e0) && transition_on(
            st1,
            symbol_of(in_gotos, x),
            in_gotos,
            e1,
        ) implies {
        let t0 = #[trigger] transition_target(st0, in_gotos, e0);
        let t1 = #[trigger] transition_target(st1, in_gotos, e1);
        &&& t0.0 < states0.len()
        &&& t1.0 < states1.len()
        &&& corresponds(states0[t0.0 as int], states1[t1.0 as int])
    } by {
        let t0 = transition_target(st0, in_gotos, e0);
        let t1 = transition_target(st1, in_gotos, e1);
        let n: int = if in_gotos {
            g.num_nonterminals as int
        } else {
            g.num_terminals as int
        };
        if in_gotos {
            assert(entry_ok(g, b0.kernels, st0.items, true, n, st0.gotos[e0]));
            assert(entry_ok(g, b1.kernels, st1.items, true, n, st1.gotos[e1]));
        } else {
            assert(entry_ok(g, b0.kernels, st0.items, false, n, st0.shifts[e0]));
            assert(entry_ok(g, b1.kernels, st1.items, false, n, st1.shifts[e1]));
        }
        assert(b0.kernels[t0.0 as int] == k0);
        assert(b1.kernels[t1.0 as int] == k1);
        lemma_states_correspond(g, seed0, seed1, b0, b1, t0.0 as int, t1.0 as int);
    }
}

/// In every state of an automaton the items agree on what has been
/// shifted: the symbols before the dot of each item are the last symbols of
/// the prefix of the state.
pub proof fn lemma_items_share_the_prefix(
    g: Grammar,
    with_tokens: bool,
    seed: Seq<ItemView>,
    budget: Option<usize>,
    states: Seq<StateView>,
    conflicts: Seq<ConflictView>,
    i: int,
    k: int,
)
    requires
        builds(g, with_tokens, seed, budget, states, conflicts),
        0 <= i < states.len(),
        0 <= k < states[i].items.len(),
    ensures
        is_suffix(
            shifted_prefix(g, states[i].items[k]),
            prefix_of(g, states[i].items),
        ),
{
    let kernels = choose|kernels: Seq<Seq<ItemView>>|
        {
            &&& is_build(g, with_tokens, seed, budget, #[trigger] build_view(kernels, states, conflicts))
            &&& well_built(g, with_tokens, seed, build_view(kernels, states, conflicts))
        };
    let b = build_view(kernels, states, conflicts);
    let items = states[i].items;
    assert(state_ok(g, with_tokens, kernels, b.states[i], i));
    lemma_deepest(items, items.len() as int);
    assert(compatible(g, items[k], items[deepest(items)]));
}

} // verus!
