//! What the construction builds: the states, one for each kernel in the
//! order in which the kernels are first met, and the conflicts.

use crate::closure::{
    all_ok, closure_items, eps_lookahead, eps_step, in_closure, is_closure_of,
    lemma_closure_unique, lemma_kernel_of_closure, reaches, strictly_sorted, kernel_part,
};
use crate::grammar::{Grammar, Symbol};
use crate::item::ItemView;
use crate::kernel_set::{
    all_at_start, all_past_start, distinct, lemma_register, register, StateIndex,
};
use crate::prefix::{
    lemma_closure_compatible, lemma_start_items_compatible, lemma_successor_compatible,
    prefix_compatible,
};
use crate::state::{
    conflict_free, conflicts_of, lemma_conflict_free, reductions_of, ConflictView, StateView,
};
use crate::successor::{lemma_core_sorted_is_sorted, lemma_successor_shape, successor_kernel};
use vstd::prelude::*;

verus! {

/// The registered kernels, the states and the conflicts at one moment of the
/// construction.
pub struct BuildView {
    pub kernels: Seq<Seq<ItemView>>,
    pub states: Seq<StateView>,
    pub conflicts: Seq<ConflictView>,
}

/// The registered kernels and one transition table of a state.
pub struct Links {
    pub kernels: Seq<Seq<ItemView>>,
    pub table: Seq<(usize, StateIndex)>,
}

/// Terminal or nonterminal number `n`.
pub open spec fn symbol_of(nonterminal: bool, n: int) -> Symbol {
    if nonterminal {
        Symbol::Nonterminal(n as usize)
    } else {
        Symbol::Terminal(n as usize)
    }
}

/// The kernel that is entered from a state with these items over terminal
/// or nonterminal number `n`.
pub open spec fn target_kernel(g: Grammar, items: Seq<ItemView>, nonterminal: bool, n: int) -> Seq<
    ItemView,
> {
    successor_kernel(g, items, symbol_of(nonterminal, n))
}

/// The transitions of a state with these items over the first `n` terminals
/// (or nonterminals), by increasing symbol: each symbol with a successor
/// kernel that is not empty has that kernel registered and gets its index.
pub open spec fn link_upto(
    g: Grammar,
    kernels: Seq<Seq<ItemView>>,
    items: Seq<ItemView>,
    nonterminal: bool,
    n: int,
) -> Links
    decreases n,
{
    if n <= 0 {
        Links { kernels: kernels, table: Seq::empty() }
    } else {
        let prev = link_upto(g, kernels, items, nonterminal, n - 1);
        let k = target_kernel(g, items, nonterminal, n - 1);
        if k.len() == 0 {
            prev
        } else {
            let r = register(prev.kernels, k);
            Links {
                kernels: r.0,
                table: prev.table.push(((n - 1) as usize, StateIndex(r.1 as usize))),
            }
        }
    }
}

/// The state for kernel number `index`, and the registry after its
/// successors were registered: first those over terminals, then those over
/// nonterminals.
pub open spec fn expand(g: Grammar, with_tokens: bool, kernels: Seq<Seq<ItemView>>, index: int) -> (
    Seq<Seq<ItemView>>,
    StateView,
) {
    let items = closure_items(g, with_tokens, kernels[index]);
    let sh = link_upto(g, kernels, items, false, g.num_terminals as int);
    let go = link_upto(g, sh.kernels, items, true, g.num_nonterminals as int);
    (
        go.kernels,
        StateView {
            index: StateIndex(index as usize),
            items: items,
            shifts: sh.table,
            reductions: reductions_of(g, items),
            gotos: go.table,
        },
    )
}

/// One round of the construction: the next kernel is expanded into a state,
/// and the conflicts of the state are added.
pub open spec fn step(g: Grammar, with_tokens: bool, b: BuildView) -> BuildView {
    let e = expand(g, with_tokens, b.kernels, b.states.len() as int);
    BuildView {
        kernels: e.0,
        states: b.states.push(e.1),
        conflicts: b.conflicts.add(conflicts_of(g, with_tokens, e.1)),
    }
}

/// The construction stops when every registered kernel has its state, or
/// when there are more conflicts than the budget allows.
pub open spec fn halted(b: BuildView, budget: Option<usize>) -> bool {
    ||| b.states.len() >= b.kernels.len()
    ||| (budget matches Some(m) && b.conflicts.len() > m)
}

/// The construction at its start: the seed kernel is registered.
pub open spec fn initial(seed: Seq<ItemView>) -> BuildView {
    BuildView { kernels: seq![seed], states: Seq::empty(), conflicts: Seq::empty() }
}

/// The construction after at most `n` rounds.
pub open spec fn run(
    g: Grammar,
    with_tokens: bool,
    seed: Seq<ItemView>,
    budget: Option<usize>,
    n: nat,
) -> BuildView
    decreases n,
{
    if n == 0 {
        initial(seed)
    } else {
        let b = run(g, with_tokens, seed, budget, (n - 1) as nat);
        if halted(b, budget) {
            b
        } else {
            step(g, with_tokens, b)
        }
    }
}

/// `b` is what the construction ends with.
pub open spec fn is_build(
    g: Grammar,
    with_tokens: bool,
    seed: Seq<ItemView>,
    budget: Option<usize>,
    b: BuildView,
) -> bool {
    exists|n: nat|
        halted(run(g, with_tokens, seed, budget, n), budget) && b == run(
            g,
            with_tokens,
            seed,
            budget,
            n,
        )
}

/// Once the construction has stopped, further rounds change nothing.
pub proof fn lemma_run_stays(
    g: Grammar,
    with_tokens: bool,
    seed: Seq<ItemView>,
    budget: Option<usize>,
    n: nat,
    m: nat,
)
    requires
        halted(run(g, with_tokens, seed, budget, n), budget),
        n <= m,
    ensures
        run(g, with_tokens, seed, budget, m) == run(g, with_tokens, seed, budget, n),
    decreases m,
{
    if m > n {
        lemma_run_stays(g, with_tokens, seed, budget, n, (m - 1) as nat);
    }
}

/// The construction is determined by the grammar, the seed and the budget:
/// two outcomes of it are equal, state for state and conflict for conflict.
pub proof fn lemma_build_unique(
    g: Grammar,
    with_tokens: bool,
    seed: Seq<ItemView>,
    budget: Option<usize>,
    a: BuildView,
    b: BuildView,
)
    requires
        is_build(g, with_tokens, seed, budget, a),
        is_build(g, with_tokens, seed, budget, b),
    ensures
        a == b,
{
    let n = choose|n: nat|
        halted(run(g, with_tokens, seed, budget, n), budget) && a == run(
            g,
            with_tokens,
            seed,
            budget,
            n,
        );
    let m = choose|m: nat|
        halted(run(g, with_tokens, seed, budget, m), budget) && b == run(
            g,
            with_tokens,
            seed,
            budget,
            m,
        );
    if n <= m {
        lemma_run_stays(g, with_tokens, seed, budget, n, m);
    } else {
        lemma_run_stays(g, with_tokens, seed, budget, m, n);
    }
}

/// The conflicts of the first `n` states, state after state.
pub open spec fn all_conflicts(g: Grammar, with_tokens: bool, states: Seq<StateView>, n: int) -> Seq<
    ConflictView,
>
    decreases n,
{
    if n <= 0 {
        Seq::empty()
    } else {
        all_conflicts(g, with_tokens, states, n - 1).add(conflicts_of(g, with_tokens, states[n - 1]))
    }
}

/// The conflicts of the first `n` states depend on those states alone.
pub proof fn lemma_all_conflicts_prefix(
    g: Grammar,
    with_tokens: bool,
    a: Seq<StateView>,
    b: Seq<StateView>,
    n: int,
)
    requires
        0 <= n <= a.len(),
        n <= b.len(),
        forall|i: int| 0 <= i < n ==> a[i] == b[i],
    ensures
        all_conflicts(g, with_tokens, a, n) == all_conflicts(g, with_tokens, b, n),
    decreases n,
{
    if n > 0 {
        lemma_all_conflicts_prefix(g, with_tokens, a, b, n - 1);
    }
}

/// There are no conflicts exactly when every state has at most one action
/// on every token.
pub proof fn lemma_all_conflicts_empty(g: Grammar, with_tokens: bool, states: Seq<StateView>, n: int)
    requires
        0 <= n <= states.len(),
    ensures
        all_conflicts(g, with_tokens, states, n).len() == 0 <==> forall|i: int|
            0 <= i < n ==> conflict_free(g, with_tokens, #[trigger] states[i]),
    decreases n,
{
    if n > 0 {
        lemma_all_conflicts_empty(g, with_tokens, states, n - 1);
        lemma_conflict_free(g, with_tokens, states[n - 1]);
    }
}

/// A kernel as the registry keeps it: items of the grammar in the order of
/// items, which agree on the symbols before their dots.
pub open spec fn kernel_ok(g: Grammar, with_tokens: bool, k: Seq<ItemView>) -> bool {
    all_ok(g, with_tokens, k) && strictly_sorted(k) && prefix_compatible(g, k)
}

/// The registry holds each kernel once, every kernel is as `kernel_ok` says,
/// the first has its dots at the start, and all others are not empty and
/// have their dots past the start.
pub open spec fn kernels_ok(g: Grammar, with_tokens: bool, kernels: Seq<Seq<ItemView>>) -> bool {
    &&& kernels.len() > 0
    &&& all_at_start(kernels[0])
    &&& distinct(kernels)
    &&& forall|i: int| 0 <= i < kernels.len() ==> kernel_ok(g, with_tokens, #[trigger] kernels[i])
    &&& forall|i: int|
        0 < i < kernels.len() ==> all_past_start(#[trigger] kernels[i]) && kernels[i].len() > 0
}

/// `a` is the beginning of `b`.
pub open spec fn is_prefix(a: Seq<Seq<ItemView>>, b: Seq<Seq<ItemView>>) -> bool {
    &&& a.len() <= b.len()
    &&& forall|i: int| 0 <= i < a.len() ==> #[trigger] b[i] == a[i]
}

/// The table has an entry for symbol number `x`.
pub open spec fn has_entry(table: Seq<(usize, StateIndex)>, x: int) -> bool {
    exists|e: int| 0 <= e < table.len() && (#[trigger] table[e]).0 == x
}

/// Entry `e` of the table leads to the registered kernel that is entered
/// over its symbol, and that kernel is not empty.
pub open spec fn entry_ok(
    g: Grammar,
    kernels: Seq<Seq<ItemView>>,
    items: Seq<ItemView>,
    nonterminal: bool,
    n: int,
    entry: (usize, StateIndex),
) -> bool {
    &&& entry.0 < n
    &&& entry.1.0 < kernels.len()
    &&& 0 < entry.1.0
    &&& kernels[entry.1.0 as int] == target_kernel(g, items, nonterminal, entry.0 as int)
    &&& kernels[entry.1.0 as int].len() > 0
}

/// A transition table over the first `n` terminals (or nonterminals) of a
/// state with these items: the entries are by increasing symbol, one for
/// each symbol with a successor kernel that is not empty, and each leads to
/// the state of that kernel.
pub open spec fn table_ok(
    g: Grammar,
    kernels: Seq<Seq<ItemView>>,
    items: Seq<ItemView>,
    table: Seq<(usize, StateIndex)>,
    nonterminal: bool,
    n: int,
) -> bool {
    &&& forall|e: int|
        0 <= e < table.len() ==> entry_ok(g, kernels, items, nonterminal, n, #[trigger] table[e])
    &&& forall|e1: int, e2: int|
        0 <= e1 < e2 < table.len() ==> (#[trigger] table[e1]).0 < (#[trigger] table[e2]).0
    &&& forall|x: int|
        0 <= x < n && (#[trigger] target_kernel(g, items, nonterminal, x)).len() > 0 ==> has_entry(
            table,
            x,
        )
}

/// `k` is the kernel that is entered from a state with these items over one
/// of the first `n` terminals (or nonterminals).
pub open spec fn is_target(
    g: Grammar,
    items: Seq<ItemView>,
    nonterminal: bool,
    n: int,
    k: Seq<ItemView>,
) -> bool {
    exists|x: int| 0 <= x < n && #[trigger] target_kernel(g, items, nonterminal, x) == k
}

/// Every kernel of `b` behind the first `from` is entered from a state with
/// these items over one of the first `n` terminals (or nonterminals).
pub open spec fn new_are_targets(
    g: Grammar,
    from: int,
    kernels: Seq<Seq<ItemView>>,
    items: Seq<ItemView>,
    nonterminal: bool,
    n: int,
) -> bool {
    forall|j: int| from <= j < kernels.len() ==> is_target(g, items, nonterminal, n, #[trigger] kernels[j])
}

/// A table that is right for a registry is right for a longer one.
pub proof fn lemma_table_ok_extends(
    g: Grammar,
    k1: Seq<Seq<ItemView>>,
    k2: Seq<Seq<ItemView>>,
    items: Seq<ItemView>,
    table: Seq<(usize, StateIndex)>,
    nonterminal: bool,
    n: int,
)
    requires
        is_prefix(k1, k2),
        table_ok(g, k1, items, table, nonterminal, n),
    ensures
        table_ok(g, k2, items, table, nonterminal, n),
{
    assert forall|e: int| 0 <= e < table.len() implies entry_ok(
        g,
        k2,
        items,
        nonterminal,
        n,
        #[trigger] table[e],
    ) by {
        assert(entry_ok(g, k1, items, nonterminal, n, table[e]));
        assert(k2[table[e].1.0 as int] == k1[table[e].1.0 as int]);
    }
}

/// What registering the successors of a state does: the registry grows at
/// its end and stays as `kernels_ok` says, and the table is right for it.
pub proof fn lemma_link_upto(
    g: Grammar,
    with_tokens: bool,
    kernels: Seq<Seq<ItemView>>,
    items: Seq<ItemView>,
    nonterminal: bool,
    n: int,
)
    requires
        kernels.len() > 0,
        kernels_ok(g, with_tokens, kernels),
        strictly_sorted(items),
        all_ok(g, with_tokens, items),
        prefix_compatible(g, items),
        0 <= n <= usize::MAX,
        link_upto(g, kernels, items, nonterminal, n).kernels.len() <= usize::MAX,
    ensures
        kernels_ok(g, with_tokens, link_upto(g, kernels, items, nonterminal, n).kernels),
        is_prefix(kernels, link_upto(g, kernels, items, nonterminal, n).kernels),
        table_ok(
            g,
            link_upto(g, kernels, items, nonterminal, n).kernels,
            items,
            link_upto(g, kernels, items, nonterminal, n).table,
            nonterminal,
            n,
        ),
        new_are_targets(
            g,
            kernels.len() as int,
            link_upto(g, kernels, items, nonterminal, n).kernels,
            items,
            nonterminal,
            n,
        ),
    decreases n,
{
    let cur = link_upto(g, kernels, items, nonterminal, n);
    if n > 0 {
        assert(link_upto(g, kernels, items, nonterminal, n - 1).kernels.len() <= cur.kernels.len());
        lemma_link_upto(g, with_tokens, kernels, items, nonterminal, n - 1);
        let prev = link_upto(g, kernels, items, nonterminal, n - 1);
        let k = target_kernel(g, items, nonterminal, n - 1);
        assert forall|j: int| kernels.len() <= j < cur.kernels.len() implies is_target(
            g,
            items,
            nonterminal,
            n,
            #[trigger] cur.kernels[j],
        ) by {
            if j < prev.kernels.len() {
                assert(is_target(g, items, nonterminal, n - 1, prev.kernels[j]));
                let x = choose|x: int|
                    0 <= x < n - 1 && #[trigger] target_kernel(g, items, nonterminal, x)
                        == prev.kernels[j];
                assert(0 <= x < n && target_kernel(g, items, nonterminal, x) == prev.kernels[j]);
                if k.len() > 0 {
                    lemma_register(prev.kernels, k);
                }
            } else {
                assert(cur.kernels[j] == k);
                assert(target_kernel(g, items, nonterminal, n - 1) == k);
            }
        }
        if k.len() == 0 {
            assert(cur == prev);
            assert forall|e: int| 0 <= e < cur.table.len() implies entry_ok(
                g,
                cur.kernels,
                items,
                nonterminal,
                n,
                #[trigger] cur.table[e],
            ) by {
                assert(entry_ok(g, prev.kernels, items, nonterminal, n - 1, prev.table[e]));
            }
            assert forall|x: int|
                0 <= x < n && (#[trigger] target_kernel(g, items, nonterminal, x)).len()
                    > 0 implies has_entry(cur.table, x) by {
                assert(x < n - 1);
            }
        } else {
            lemma_link_step(g, with_tokens, prev, items, nonterminal, n);
        }
    }
}

/// The step of `lemma_link_upto` for a symbol with a successor kernel.
proof fn lemma_link_step(
    g: Grammar,
    with_tokens: bool,
    prev: Links,
    items: Seq<ItemView>,
    nonterminal: bool,
    n: int,
)
    requires
        prev.kernels.len() > 0,
        kernels_ok(g, with_tokens, prev.kernels),
        table_ok(g, prev.kernels, items, prev.table, nonterminal, n - 1),
        strictly_sorted(items),
        all_ok(g, with_tokens, items),
        prefix_compatible(g, items),
        0 < n <= usize::MAX,
        target_kernel(g, items, nonterminal, n - 1).len() > 0,
        register(prev.kernels, target_kernel(g, items, nonterminal, n - 1)).0.len() <= usize::MAX,
    ensures
        ({
            let k = target_kernel(g, items, nonterminal, n - 1);
            let r = register(prev.kernels, k);
            let table = prev.table.push(((n - 1) as usize, StateIndex(r.1 as usize)));
            &&& kernels_ok(g, with_tokens, r.0)
            &&& is_prefix(prev.kernels, r.0)
            &&& table_ok(g, r.0, items, table, nonterminal, n)
        }),
{
    let k = target_kernel(g, items, nonterminal, n - 1);
    let r = register(prev.kernels, k);
    let entry = ((n - 1) as usize, StateIndex(r.1 as usize));
    let table = prev.table.push(entry);
    lemma_register(prev.kernels, k);
    lemma_successor_shape(g, with_tokens, items, symbol_of(nonterminal, n - 1), items.len() as int);
    lemma_core_sorted_is_sorted(k);
    lemma_successor_compatible(g, with_tokens, items, symbol_of(nonterminal, n - 1));
    assert(kernel_ok(g, with_tokens, k));
    assert(all_past_start(k));
    assert(k[0].index > 0);
    assert forall|i: int| 0 <= i < r.0.len() implies kernel_ok(g, with_tokens, #[trigger] r.0[i]) by {
        if i < prev.kernels.len() {
            assert(r.0[i] == prev.kernels[i]);
        }
    }
    assert forall|i: int| 0 < i < r.0.len() implies all_past_start(#[trigger] r.0[i]) && r.0[i].len()
        > 0 by {
        if i < prev.kernels.len() {
            assert(r.0[i] == prev.kernels[i]);
        }
    }
    assert(r.0[0] == prev.kernels[0]);
    assert(entry_ok(g, r.0, items, nonterminal, n, entry)) by {
        if r.1 == 0 {
            assert(prev.kernels[0][0].index == 0);
        }
    }
    lemma_table_ok_extends(g, prev.kernels, r.0, items, prev.table, nonterminal, n - 1);
    assert forall|e: int| 0 <= e < table.len() implies entry_ok(
        g,
        r.0,
        items,
        nonterminal,
        n,
        #[trigger] table[e],
    ) by {
        if e < prev.table.len() {
            assert(entry_ok(g, r.0, items, nonterminal, n - 1, prev.table[e]));
        }
    }
    assert forall|e1: int, e2: int| 0 <= e1 < e2 < table.len() implies (#[trigger] table[e1]).0 < (
    #[trigger] table[e2]).0 by {
        if e2 < prev.table.len() {
            assert(prev.table[e1].0 < prev.table[e2].0);
        } else {
            assert(entry_ok(g, r.0, items, nonterminal, n - 1, prev.table[e1]));
        }
    }
    assert forall|x: int|
        0 <= x < n && (#[trigger] target_kernel(g, items, nonterminal, x)).len()
            > 0 implies has_entry(table, x) by {
        if x == n - 1 {
            assert(table[table.len() - 1].0 == x);
        } else {
            assert(has_entry(prev.table, x));
            let e = choose|e: int| 0 <= e < prev.table.len() && (#[trigger] prev.table[e]).0 == x;
            assert(table[e].0 == x);
        }
    }
}

/// Registering successors never shortens the registry.
pub proof fn lemma_link_grows(
    g: Grammar,
    kernels: Seq<Seq<ItemView>>,
    items: Seq<ItemView>,
    nonterminal: bool,
    n: int,
)
    ensures
        kernels.len() <= link_upto(g, kernels, items, nonterminal, n).kernels.len(),
    decreases n,
{
    if n > 0 {
        lemma_link_grows(g, kernels, items, nonterminal, n - 1);
    }
}

/// An item reached from items of the grammar is an item of the grammar.
proof fn lemma_reaches_ok(
    g: Grammar,
    with_tokens: bool,
    seed: Seq<ItemView>,
    it: ItemView,
    n: nat,
)
    requires
        all_ok(g, with_tokens, seed),
        reaches(g, with_tokens, seed, it, n),
    ensures
        it.ok(g, with_tokens),
    decreases n,
{
    if n == 0 {
        let i = choose|i: int| 0 <= i < seed.len() && seed[i] == it;
        assert(seed[i].ok(g, with_tokens));
    } else {
        let parent = choose|parent: ItemView|
            reaches(g, with_tokens, seed, parent, (n - 1) as nat) && #[trigger] eps_step(
                g,
                with_tokens,
                parent,
                it,
            );
        assert(it.lookahead == eps_lookahead(g, with_tokens, parent.remainder(g), parent.lookahead));
    }
}

/// The closure of items of the grammar holds items of the grammar.
pub proof fn lemma_closure_all_ok(
    g: Grammar,
    with_tokens: bool,
    seed: Seq<ItemView>,
    c: Seq<ItemView>,
)
    requires
        all_ok(g, with_tokens, seed),
        is_closure_of(g, with_tokens, c, seed),
    ensures
        all_ok(g, with_tokens, c),
{
    assert forall|i: int| 0 <= i < c.len() implies (#[trigger] c[i]).ok(g, with_tokens) by {
        assert(c.contains(c[i]));
        assert(in_closure(g, with_tokens, seed, c[i]));
        let n = choose|n: nat| reaches(g, with_tokens, seed, c[i], n);
        lemma_reaches_ok(g, with_tokens, seed, c[i], n);
    }
}

/// State number `i` is right for the registry: it holds the closure of
/// kernel `i`, whose items agree on the symbols before their dots; its
/// tables lead to the states of its successor kernels; and its reductions
/// are those of its items.
pub open spec fn state_ok(
    g: Grammar,
    with_tokens: bool,
    kernels: Seq<Seq<ItemView>>,
    st: StateView,
    i: int,
) -> bool {
    &&& 0 <= i < kernels.len()
    &&& st.index == StateIndex(i as usize)
    &&& is_closure_of(g, with_tokens, st.items, kernels[i])
    &&& all_ok(g, with_tokens, st.items)
    &&& prefix_compatible(g, st.items)
    &&& table_ok(g, kernels, st.items, st.shifts, false, g.num_terminals as int)
    &&& table_ok(g, kernels, st.items, st.gotos, true, g.num_nonterminals as int)
    &&& st.reductions == reductions_of(g, st.items)
}

/// A state that is right for a registry is right for a longer one.
pub proof fn lemma_state_ok_extends(
    g: Grammar,
    with_tokens: bool,
    k1: Seq<Seq<ItemView>>,
    k2: Seq<Seq<ItemView>>,
    st: StateView,
    i: int,
)
    requires
        is_prefix(k1, k2),
        state_ok(g, with_tokens, k1, st, i),
    ensures
        state_ok(g, with_tokens, k2, st, i),
{
    assert(k2[i] == k1[i]);
    lemma_table_ok_extends(g, k1, k2, st.items, st.shifts, false, g.num_terminals as int);
    lemma_table_ok_extends(g, k1, k2, st.items, st.gotos, true, g.num_nonterminals as int);
}

/// Kernel `j` is entered from state `i`, whose index is below `j`, over
/// terminal (or nonterminal) number `x`.
pub open spec fn parent_at(
    g: Grammar,
    states: Seq<StateView>,
    kernels: Seq<Seq<ItemView>>,
    j: int,
    i: int,
    nonterminal: bool,
    x: int,
) -> bool {
    &&& 0 <= i < states.len()
    &&& i < j
    &&& 0 <= x < (if nonterminal {
        g.num_nonterminals
    } else {
        g.num_terminals
    })
    &&& kernels[j] == target_kernel(g, states[i].items, nonterminal, x)
}

/// Kernel `j` is entered from a state with an index below `j`.
pub open spec fn has_parent(
    g: Grammar,
    states: Seq<StateView>,
    kernels: Seq<Seq<ItemView>>,
    j: int,
) -> bool {
    exists|i: int, nonterminal: bool, x: int| #[trigger]
        parent_at(g, states, kernels, j, i, nonterminal, x)
}

/// What holds of the construction at every moment: the registry begins
/// with the seed and is as `kernels_ok` says; there is a state for each of
/// the first kernels, and each is as `state_ok` says; the conflicts are
/// those of the states; and every kernel but the first is entered from a
/// state with a lower index.
pub open spec fn well_built(g: Grammar, with_tokens: bool, seed: Seq<ItemView>, b: BuildView) -> bool {
    &&& kernels_ok(g, with_tokens, b.kernels)
    &&& b.kernels[0] == seed
    &&& b.kernels.len() <= usize::MAX
    &&& b.states.len() <= b.kernels.len()
    &&& forall|i: int|
        0 <= i < b.states.len() ==> state_ok(g, with_tokens, b.kernels, #[trigger] b.states[i], i)
    &&& b.conflicts == all_conflicts(g, with_tokens, b.states, b.states.len() as int)
    &&& forall|j: int| 0 < j < b.kernels.len() ==> #[trigger] has_parent(g, b.states, b.kernels, j)
}

/// The construction starts well built.
pub proof fn lemma_initial_well_built(g: Grammar, with_tokens: bool, seed: Seq<ItemView>)
    requires
        all_ok(g, with_tokens, seed),
        strictly_sorted(seed),
        all_at_start(seed),
    ensures
        well_built(g, with_tokens, seed, initial(seed)),
{
    lemma_start_items_compatible(g, seed);
    let b = initial(seed);
    assert(b.kernels[0] == seed);
}

/// The state that `expand` makes is right for the registry that it leaves.
pub proof fn lemma_expand(
    g: Grammar,
    with_tokens: bool,
    kernels: Seq<Seq<ItemView>>,
    i: int,
    c: Seq<ItemView>,
)
    requires
        kernels_ok(g, with_tokens, kernels),
        0 <= i < kernels.len(),
        is_closure_of(g, with_tokens, c, kernels[i]),
        expand(g, with_tokens, kernels, i).0.len() <= usize::MAX,
    ensures
        expand(g, with_tokens, kernels, i).1.items == c,
        kernels_ok(g, with_tokens, expand(g, with_tokens, kernels, i).0),
        is_prefix(kernels, expand(g, with_tokens, kernels, i).0),
        state_ok(
            g,
            with_tokens,
            expand(g, with_tokens, kernels, i).0,
            expand(g, with_tokens, kernels, i).1,
            i,
        ),
        forall|j: int|
            kernels.len() <= j < expand(g, with_tokens, kernels, i).0.len() ==> is_target(
                g,
                c,
                false,
                g.num_terminals as int,
                #[trigger] expand(g, with_tokens, kernels, i).0[j],
            ) || is_target(
                g,
                c,
                true,
                g.num_nonterminals as int,
                expand(g, with_tokens, kernels, i).0[j],
            ),
{
    lemma_closure_unique(g, with_tokens, c, kernels[i]);
    assert(kernel_ok(g, with_tokens, kernels[i]));
    lemma_closure_all_ok(g, with_tokens, kernels[i], c);
    lemma_closure_compatible(g, with_tokens, kernels[i], c);
    let sh = link_upto(g, kernels, c, false, g.num_terminals as int);
    let go = link_upto(g, sh.kernels, c, true, g.num_nonterminals as int);
    lemma_link_grows(g, sh.kernels, c, true, g.num_nonterminals as int);
    lemma_link_upto(g, with_tokens, kernels, c, false, g.num_terminals as int);
    lemma_link_upto(g, with_tokens, sh.kernels, c, true, g.num_nonterminals as int);
    lemma_table_ok_extends(g, sh.kernels, go.kernels, c, sh.table, false, g.num_terminals as int);
    assert(go.kernels[i] == kernels[i]) by {
        assert(sh.kernels[i] == kernels[i]);
    }
    assert forall|j: int| 0 <= j < kernels.len() implies #[trigger] go.kernels[j] == kernels[j] by {
        assert(sh.kernels[j] == kernels[j]);
    }
    assert forall|j: int| kernels.len() <= j < go.kernels.len() implies is_target(
        g,
        c,
        false,
        g.num_terminals as int,
        #[trigger] go.kernels[j],
    ) || is_target(g, c, true, g.num_nonterminals as int, go.kernels[j]) by {
        if j < sh.kernels.len() {
            assert(go.kernels[j] == sh.kernels[j]);
            assert(is_target(g, c, false, g.num_terminals as int, sh.kernels[j]));
        }
    }
}

/// A round of the construction keeps it well built.
pub proof fn lemma_step_well_built(
    g: Grammar,
    with_tokens: bool,
    seed: Seq<ItemView>,
    b: BuildView,
    c: Seq<ItemView>,
)
    requires
        well_built(g, with_tokens, seed, b),
        b.states.len() < b.kernels.len(),
        is_closure_of(g, with_tokens, c, b.kernels[b.states.len() as int]),
        step(g, with_tokens, b).kernels.len() <= usize::MAX,
    ensures
        well_built(g, with_tokens, seed, step(g, with_tokens, b)),
        step(g, with_tokens, b).states.last().items == c,
{
    let i = b.states.len() as int;
    let e = expand(g, with_tokens, b.kernels, i);
    let nb = step(g, with_tokens, b);
    lemma_expand(g, with_tokens, b.kernels, i, c);
    assert(nb.kernels == e.0);
    assert(nb.states == b.states.push(e.1));
    assert(nb.kernels[0] == b.kernels[0]);
    assert forall|j: int| 0 <= j < nb.states.len() implies state_ok(
        g,
        with_tokens,
        nb.kernels,
        #[trigger] nb.states[j],
        j,
    ) by {
        if j < i {
            assert(nb.states[j] == b.states[j]);
            lemma_state_ok_extends(g, with_tokens, b.kernels, nb.kernels, b.states[j], j);
        }
    }
    lemma_all_conflicts_prefix(g, with_tokens, b.states, nb.states, i);
    assert(nb.states[i] == e.1);
    assert forall|j: int| 0 < j < nb.kernels.len() implies #[trigger] has_parent(
        g,
        nb.states,
        nb.kernels,
        j,
    ) by {
        if j < b.kernels.len() {
            assert(has_parent(g, b.states, b.kernels, j));
            let (p, nonterminal, x) = choose|p: int, nonterminal: bool, x: int| #[trigger]
                parent_at(g, b.states, b.kernels, j, p, nonterminal, x);
            assert(nb.states[p] == b.states[p]);
            assert(nb.kernels[j] == b.kernels[j]);
            assert(parent_at(g, nb.states, nb.kernels, j, p, nonterminal, x));
        } else if is_target(g, c, false, g.num_terminals as int, nb.kernels[j]) {
            let x = choose|x: int|
                0 <= x < g.num_terminals && #[trigger] target_kernel(g, c, false, x)
                    == nb.kernels[j];
            assert(parent_at(g, nb.states, nb.kernels, j, i, false, x));
        } else {
            let x = choose|x: int|
                0 <= x < g.num_nonterminals && #[trigger] target_kernel(g, c, true, x)
                    == nb.kernels[j];
            assert(parent_at(g, nb.states, nb.kernels, j, i, true, x));
        }
    }
}

/// The kernel of state `i`: the seed for the first state, and for every
/// other state its items with the dot past the start.
pub open spec fn state_kernel(states: Seq<StateView>, seed: Seq<ItemView>, i: int) -> Seq<ItemView> {
    if i == 0 {
        seed
    } else {
        kernel_part(states[i].items)
    }
}

/// The kernel of each state is the kernel registered under its index.
pub proof fn lemma_state_kernel(
    g: Grammar,
    with_tokens: bool,
    seed: Seq<ItemView>,
    b: BuildView,
    i: int,
)
    requires
        well_built(g, with_tokens, seed, b),
        0 <= i < b.states.len(),
    ensures
        state_kernel(b.states, seed, i) == b.kernels[i],
{
    if i > 0 {
        assert(state_ok(g, with_tokens, b.kernels, b.states[i], i));
        assert(kernel_ok(g, with_tokens, b.kernels[i]));
        assert(all_past_start(b.kernels[i]));
        lemma_kernel_of_closure(g, with_tokens, b.kernels[i], b.states[i].items);
    }
}

/// No two states have the same kernel.
pub proof fn lemma_kernels_distinct(
    g: Grammar,
    with_tokens: bool,
    seed: Seq<ItemView>,
    b: BuildView,
    i: int,
    j: int,
)
    requires
        well_built(g, with_tokens, seed, b),
        0 <= i < j < b.states.len(),
    ensures
        state_kernel(b.states, seed, i) != state_kernel(b.states, seed, j),
{
    lemma_state_kernel(g, with_tokens, seed, b, i);
    lemma_state_kernel(g, with_tokens, seed, b, j);
    assert(b.kernels[i] != b.kernels[j]);
}

/// The construction with these kernels registered.
pub open spec fn build_view(
    kernels: Seq<Seq<ItemView>>,
    states: Seq<StateView>,
    conflicts: Seq<ConflictView>,
) -> BuildView {
    BuildView { kernels: kernels, states: states, conflicts: conflicts }
}

/// These states and conflicts are what the construction for grammar `g`
/// from kernel `seed` ends with.
pub open spec fn builds(
    g: Grammar,
    with_tokens: bool,
    seed: Seq<ItemView>,
    budget: Option<usize>,
    states: Seq<StateView>,
    conflicts: Seq<ConflictView>,
) -> bool {
    exists|kernels: Seq<Seq<ItemView>>|
        {
            &&& is_build(g, with_tokens, seed, budget, #[trigger] build_view(kernels, states, conflicts))
            &&& well_built(g, with_tokens, seed, build_view(kernels, states, conflicts))
        }
}

} // verus!
