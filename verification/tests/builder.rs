use lr_states::builder::{build_lr0_states, build_lr1_states, LookaheadBuild, LR};
use lr_states::closure::{holds_item, items, sort_dedup};
use lr_states::first::FirstSets;
use lr_states::grammar::{Grammar, Production, Symbol};
use lr_states::item::Item;
use lr_states::kernel_set::{Kernel, KernelSet, StateIndex};
use lr_states::lookahead::{Lookahead, Nil};
use lr_states::state::{Action, State};
use lr_states::successor::successor;
use lr_states::token_set::TokenSet;

fn term(n: usize) -> Symbol {
    Symbol::Terminal(n)
}

fn nonterm(n: usize) -> Symbol {
    Symbol::Nonterminal(n)
}

fn make(terminals: usize, nonterminals: usize, rules: Vec<(usize, Vec<Symbol>)>) -> Grammar {
    let productions = rules
        .into_iter()
        .enumerate()
        .map(|(i, (lhs, rhs))| Production { nonterminal: lhs, symbols: rhs, action: i })
        .collect();
    Grammar::new(terminals, nonterminals, productions).unwrap()
}

fn toks(len: usize, members: &[usize]) -> TokenSet {
    let mut set = TokenSet::new(len);
    for &m in members {
        set.insert(m);
    }
    set
}

fn lr1(production: usize, index: usize, lookahead: TokenSet) -> Item<TokenSet> {
    Item { production, index, lookahead }
}

fn lr0(production: usize, index: usize) -> Item<Nil> {
    Item::lr0(production, index)
}

// S' -> S ; S -> C C ; C -> c C | d       terminals: c = 0, d = 1
fn two_c() -> Grammar {
    make(
        2,
        3,
        vec![
            (0, vec![nonterm(1)]),
            (1, vec![nonterm(2), nonterm(2)]),
            (2, vec![term(0), nonterm(2)]),
            (2, vec![term(1)]),
        ],
    )
}

// S' -> S ; S -> a A c | b A d ; A -> e
// terminals: a = 0, b = 1, c = 2, d = 3, e = 4
fn two_contexts() -> Grammar {
    make(
        5,
        3,
        vec![
            (0, vec![nonterm(1)]),
            (1, vec![term(0), nonterm(2), term(2)]),
            (1, vec![term(1), nonterm(2), term(3)]),
            (2, vec![term(4)]),
        ],
    )
}

// S' -> S ; S -> A | B ; A -> x ; B -> x       terminals: x = 0
fn two_ways() -> Grammar {
    make(
        1,
        4,
        vec![
            (0, vec![nonterm(1)]),
            (1, vec![nonterm(2)]),
            (1, vec![nonterm(3)]),
            (2, vec![term(0)]),
            (3, vec![term(0)]),
        ],
    )
}

fn kernel_of<L: Clone>(state: &State<L>, start: usize, g: &Grammar) -> Vec<Item<L>> {
    state
        .items
        .vec
        .iter()
        .filter(|it| {
            if state.index.0 == 0 {
                it.index == 0 && g.productions[it.production].nonterminal == start
            } else {
                it.index > 0
            }
        })
        .cloned()
        .collect()
}

#[test]
fn states_are_numbered_in_order() {
    let states = build_lr1_states(&two_c(), 0, None).unwrap();
    for (i, st) in states.iter().enumerate() {
        assert_eq!(st.index, StateIndex(i));
    }
}

#[test]
fn no_two_states_share_a_kernel() {
    let g = two_c();
    let states = build_lr1_states(&g, 0, None).unwrap();
    for i in 0..states.len() {
        for j in (i + 1)..states.len() {
            assert_ne!(kernel_of(&states[i], 0, &g), kernel_of(&states[j], 0, &g));
        }
    }
    let states = build_lr0_states(&g, 0).unwrap();
    for i in 0..states.len() {
        for j in (i + 1)..states.len() {
            assert_ne!(kernel_of(&states[i], 0, &g), kernel_of(&states[j], 0, &g));
        }
    }
}

#[test]
fn building_twice_gives_the_same_states() {
    let g = two_c();
    assert_eq!(build_lr1_states(&g, 0, None), build_lr1_states(&g, 0, None));
    assert_eq!(build_lr0_states(&g, 0), build_lr0_states(&g, 0));
    let h = two_ways();
    assert_eq!(build_lr1_states(&h, 0, None), build_lr1_states(&h, 0, None));
}

#[test]
fn closing_a_closure_changes_nothing() {
    let g = two_c();
    let lr: LR<TokenSet> = LR::new(&g, 0, TokenSet::eof(2));
    let seed = lr.items(0, 0, &TokenSet::eof(2));
    let once = lr.transitive_closure(seed);
    let eof = toks(3, &[2]);
    let cd = toks(3, &[0, 1]);
    assert_eq!(
        once.vec,
        vec![
            lr1(0, 0, eof.clone()),
            lr1(1, 0, eof.clone()),
            lr1(2, 0, cd.clone()),
            lr1(3, 0, cd.clone()),
        ]
    );
    let twice = lr.transitive_closure(once.vec.clone());
    assert_eq!(twice, once);
}

#[test]
fn closure_without_lookahead() {
    let g = two_c();
    let lr: LR<Nil> = LR::new(&g, 0, Nil);
    let closed = lr.transitive_closure(vec![lr0(1, 1)]);
    assert_eq!(closed.vec, vec![lr0(1, 1), lr0(2, 0), lr0(3, 0)]);
}

#[test]
fn closure_drops_repeated_items() {
    let g = two_c();
    let lr: LR<Nil> = LR::new(&g, 0, Nil);
    let closed = lr.transitive_closure(vec![lr0(2, 1), lr0(1, 1), lr0(2, 1)]);
    assert_eq!(closed.vec, vec![lr0(1, 1), lr0(2, 0), lr0(2, 1), lr0(3, 0)]);
}

#[test]
fn tables_are_by_increasing_symbol() {
    let states = build_lr1_states(&two_contexts(), 0, None).unwrap();
    for st in &states {
        for w in st.shifts.windows(2) {
            assert!(w[0].0 < w[1].0);
        }
        for w in st.gotos.windows(2) {
            assert!(w[0].0 < w[1].0);
        }
        for &(_, next) in st.shifts.iter().chain(st.gotos.iter()) {
            assert!(next.0 > 0 && next.0 < states.len());
        }
    }
    assert_eq!(states[0].shifts, vec![(0, StateIndex(1)), (1, StateIndex(2))]);
    assert_eq!(states[0].gotos, vec![(1, StateIndex(3))]);
}

fn cores<L>(state: &State<L>) -> Vec<(usize, usize)> {
    let mut out: Vec<(usize, usize)> = state.items.vec.iter().map(|it| (it.production, it.index)).collect();
    out.dedup();
    out
}

#[test]
fn every_lr1_state_maps_onto_an_lr0_state() {
    for g in [two_c(), two_contexts()] {
        let with = build_lr1_states(&g, 0, None).unwrap();
        let without = build_lr0_states(&g, 0).unwrap();
        assert!(without.len() <= with.len());
        assert_eq!(cores(&without[0]), cores(&with[0]));
        for st1 in &with {
            let st0 = without.iter().find(|st0| cores(st0) == cores(st1)).unwrap();
            let keys = |table: &Vec<(usize, StateIndex)>| -> Vec<usize> {
                table.iter().map(|&(x, _)| x).collect()
            };
            assert_eq!(keys(&st0.shifts), keys(&st1.shifts));
            assert_eq!(keys(&st0.gotos), keys(&st1.gotos));
            for (e0, e1) in st0.shifts.iter().zip(st1.shifts.iter()) {
                assert_eq!(cores(&without[e0.1 .0]), cores(&with[e1.1 .0]));
            }
            for (e0, e1) in st0.gotos.iter().zip(st1.gotos.iter()) {
                assert_eq!(cores(&without[e0.1 .0]), cores(&with[e1.1 .0]));
            }
        }
        for st0 in &without {
            assert!(with.iter().any(|st1| cores(st0) == cores(st1)));
        }
    }
}

#[test]
fn lr1_can_have_more_states_than_lr0() {
    let g = two_contexts();
    assert_eq!(build_lr0_states(&g, 0).unwrap().len(), 9);
    assert_eq!(build_lr1_states(&g, 0, None).unwrap().len(), 10);
    let g = two_c();
    assert_eq!(build_lr0_states(&g, 0).unwrap().len(), 7);
    assert_eq!(build_lr1_states(&g, 0, None).unwrap().len(), 10);
}

#[test]
fn without_conflicts_every_token_has_one_action() {
    let states = build_lr1_states(&two_contexts(), 0, None).unwrap();
    for st in &states {
        for (i, (la, _)) in st.reductions.iter().enumerate() {
            for &(terminal, _) in &st.shifts {
                assert!(!la.contains(terminal));
            }
            for (other, _) in &st.reductions[i + 1..] {
                assert!(!la.overlaps(other));
            }
        }
    }
}

#[test]
fn lr0_reduce_reduce() {
    let err = build_lr0_states(&two_ways(), 0).unwrap_err();
    assert_eq!(err.conflicts.len(), 1);
    let c = &err.conflicts[0];
    assert_eq!(c.item, lr0(3, 1));
    assert_eq!(c.action, Action::Reduce(4));
    assert_eq!(c.state, StateIndex(1));
    // the states are all there
    assert_eq!(err.states.len(), 5);
}

#[test]
fn lr0_shift_reduce_comes_before_reduce_reduce() {
    // S' -> S ; S -> A b | B ; A -> a ; B -> a
    let g = make(
        2,
        4,
        vec![
            (0, vec![nonterm(1)]),
            (1, vec![nonterm(2), term(1)]),
            (1, vec![nonterm(3)]),
            (2, vec![term(0)]),
            (3, vec![term(0)]),
        ],
    );
    let err = build_lr0_states(&g, 0).unwrap_err();
    // after `a`: A -> a . and B -> a .   (reduce-reduce)
    // after `A`: S -> A . b              (no conflict)
    assert_eq!(err.conflicts.len(), 1);
    assert_eq!(err.conflicts[0].action, Action::Reduce(4));
    // with lookahead the two reductions are told apart
    let states = build_lr1_states(&g, 0, None).unwrap();
    let after_a = states[0].shifts[0].1;
    assert_eq!(
        states[after_a.0].reductions,
        vec![(toks(3, &[1]), 3), (toks(3, &[2]), 4)]
    );
}

// S' -> S ; S -> a | a b       after `a` LR(0) must reduce or shift
#[test]
fn lr0_shift_reduce() {
    let g = make(2, 2, vec![(0, vec![nonterm(1)]), (1, vec![term(0)]), (1, vec![term(0), term(1)])]);
    let err = build_lr0_states(&g, 0).unwrap_err();
    assert_eq!(err.conflicts.len(), 1);
    assert_eq!(err.conflicts[0].item, lr0(1, 1));
    assert_eq!(err.conflicts[0].action, Action::Shift(1));
    assert!(build_lr1_states(&g, 0, None).is_ok());
}

// S' -> S ; S -> A | B | x ; A -> x ; B -> x : three reductions in one state
#[test]
fn conflicts_are_listed_pair_by_pair() {
    let g = make(
        1,
        4,
        vec![
            (0, vec![nonterm(1)]),
            (1, vec![nonterm(2)]),
            (1, vec![nonterm(3)]),
            (1, vec![term(0)]),
            (2, vec![term(0)]),
            (3, vec![term(0)]),
        ],
    );
    let err = build_lr1_states(&g, 0, None).unwrap_err();
    let found: Vec<(usize, Action)> =
        err.conflicts.iter().map(|c| (c.item.production, c.action)).collect();
    assert_eq!(
        found,
        vec![(3, Action::Reduce(4)), (3, Action::Reduce(5)), (4, Action::Reduce(5))]
    );
}

// conflicts in two states: S' -> S ; S -> a A | b B ; A -> x | x ; B -> y | y
// terminals: a = 0, b = 1, x = 2, y = 3
fn many_conflicts() -> Grammar {
    make(
        4,
        4,
        vec![
            (0, vec![nonterm(1)]),
            (1, vec![term(0), nonterm(2)]),
            (1, vec![term(1), nonterm(3)]),
            (2, vec![term(2)]),
            (2, vec![term(2)]),
            (3, vec![term(3)]),
            (3, vec![term(3)]),
        ],
    )
}

#[test]
fn construction_stops_once_the_budget_is_exceeded() {
    let g = many_conflicts();
    let full = build_lr1_states(&g, 0, None).unwrap_err();
    assert_eq!(full.states.len(), 8);
    assert_eq!(full.conflicts.len(), 2);
    assert_eq!(full.conflicts[0].state, StateIndex(4));
    assert_eq!(full.conflicts[1].state, StateIndex(6));
    // the state with the first conflict is the last that is built
    let early = build_lr1_states(&g, 0, Some(0)).unwrap_err();
    assert_eq!(early.conflicts.len(), 1);
    assert_eq!(early.states.len(), 5);
    // one conflict does not exceed a budget of one
    let later = build_lr1_states(&g, 0, Some(1)).unwrap_err();
    assert_eq!(later.conflicts.len(), 2);
    assert_eq!(later.states.len(), 7);
    assert_eq!(early.states[..], full.states[..early.states.len()]);
    // a budget that is never exceeded changes nothing
    assert_eq!(build_lr1_states(&g, 0, Some(100)), Err(full));
}

#[test]
fn early_stop_must_be_permitted() {
    let g = many_conflicts();
    let mut lr: LR<TokenSet> = LR::new(&g, 0, TokenSet::eof(4));
    let full = lr.build_states().unwrap_err();
    lr.set_permit_early_stop(false, Some(0));
    assert_eq!(lr.build_states().unwrap_err(), full);
    lr.set_permit_early_stop(true, Some(0));
    assert_eq!(lr.build_states().unwrap_err().states.len(), 5);
    lr.set_permit_early_stop(true, None);
    assert_eq!(lr.build_states().unwrap_err(), full);
}

#[test]
fn start_without_productions_gives_one_empty_state() {
    let g = make(1, 2, vec![(1, vec![term(0)])]);
    let states = build_lr1_states(&g, 0, None).unwrap();
    assert_eq!(states.len(), 1);
    assert!(states[0].items.vec.is_empty());
    assert!(states[0].shifts.is_empty());
    assert!(states[0].gotos.is_empty());
}

#[test]
fn items_for_a_nonterminal() {
    let g = two_c();
    assert_eq!(items(&g, 2, 0, &Nil), vec![lr0(2, 0), lr0(3, 0)]);
    let la = toks(3, &[1]);
    assert_eq!(items(&g, 1, 0, &la), vec![lr1(1, 0, la.clone())]);
    assert!(items(&g, 5, 0, &Nil).is_empty());
}

#[test]
fn epsilon_moves_carry_first_of_the_remainder() {
    let g = two_c();
    let fs = FirstSets::new(&g);
    let eof = toks(3, &[2]);
    // from S -> . C C [$]: the remainder is C, which begins with c or d
    let moves = TokenSet::epsilon_moves(&g, &fs, 2, &[nonterm(2)], eof.clone());
    let cd = toks(3, &[0, 1]);
    assert_eq!(moves, vec![lr1(2, 0, cd.clone()), lr1(3, 0, cd)]);
    // from S -> C . C [$]: nothing follows, the lookahead comes through
    let moves = TokenSet::epsilon_moves(&g, &fs, 2, &[], eof.clone());
    assert_eq!(moves, vec![lr1(2, 0, eof.clone()), lr1(3, 0, eof)]);
    let moves = Nil::epsilon_moves(&g, &fs, 2, &[nonterm(2)], Nil);
    assert_eq!(moves, vec![lr0(2, 0), lr0(3, 0)]);
}

#[test]
fn item_operations() {
    let g = two_c();
    let it = lr1(2, 0, toks(3, &[0]));
    assert!(!it.can_reduce(&g));
    assert_eq!(it.shifted_item(&g), Some((term(0), lr1(2, 1, toks(3, &[0])))));
    let (symbol, rest) = it.shift_symbol(&g).unwrap();
    assert_eq!(symbol, term(0));
    assert_eq!(rest, &[nonterm(2)][..]);
    let end = lr1(2, 2, toks(3, &[0]));
    assert!(end.can_reduce(&g));
    assert_eq!(end.shifted_item(&g), None);
    assert!(end.shift_symbol(&g).is_none());
    assert_eq!(it.with_lookahead(Nil), lr0(2, 0));
    assert_eq!(lr0(2, 0).with_lookahead(toks(3, &[1])), lr1(2, 0, toks(3, &[1])));
    assert_eq!(it.dup(), it);
    assert!(it.same(&it.clone()));
    assert!(!it.same(&end));
    assert!(it.same_core(&lr1(2, 0, toks(3, &[1, 2]))));
    assert!(!it.same_core(&end));
}

#[test]
fn items_are_ordered_by_production_dot_and_lookahead() {
    let a = lr1(1, 2, toks(3, &[0]));
    assert!(a.before(&lr1(2, 0, toks(3, &[]))));
    assert!(a.before(&lr1(1, 3, toks(3, &[]))));
    assert!(!a.before(&lr1(1, 1, toks(3, &[0, 1, 2]))));
    assert!(!a.before(&a.clone()));
    // lookaheads: at the first token where they differ, the one without it is first
    assert!(lr1(1, 2, toks(3, &[1, 2])).before(&a));
    assert!(!a.before(&lr1(1, 2, toks(3, &[1, 2]))));
    assert!(lr1(1, 2, toks(3, &[0])).before(&lr1(1, 2, toks(3, &[0, 2]))));
    assert!(!lr0(1, 2).before(&lr0(1, 2)));
    assert!(lr0(1, 2).before(&lr0(1, 3)));
}

#[test]
fn lookahead_operations() {
    let mut a = toks(3, &[0]);
    let b = toks(3, &[2]);
    assert!(a.admits(0) && !a.admits(1) && !a.admits(9));
    assert!(!a.meets(&b));
    a.merge(&b);
    assert_eq!(a, toks(3, &[0, 2]));
    assert!(a.meets(&b));
    assert!(a.same(&toks(3, &[0, 2])));
    assert!(!a.same(&b));
    assert_eq!(Lookahead::dup(&a), a);
    let mut n = Nil;
    n.merge(&Nil);
    assert!(n.admits(7));
    assert!(n.meets(&Nil));
    assert!(n.same(&Nil));
    assert!(!n.before(&Nil));
}

#[test]
fn sorting_puts_items_in_order_once() {
    let v = vec![lr0(3, 0), lr0(1, 1), lr0(3, 0), lr0(1, 0), lr0(2, 5)];
    assert_eq!(sort_dedup(v), vec![lr0(1, 0), lr0(1, 1), lr0(2, 5), lr0(3, 0)]);
    let v = vec![lr1(1, 0, toks(2, &[0])), lr1(1, 0, toks(2, &[1])), lr1(1, 0, toks(2, &[0]))];
    assert_eq!(sort_dedup(v), vec![lr1(1, 0, toks(2, &[1])), lr1(1, 0, toks(2, &[0]))]);
    assert!(sort_dedup(Vec::<Item<Nil>>::new()).is_empty());
    let v = vec![lr0(1, 0), lr0(2, 0)];
    assert!(holds_item(&v, &lr0(2, 0)));
    assert!(!holds_item(&v, &lr0(2, 1)));
}

#[test]
fn successor_joins_lookaheads_of_equal_cores() {
    let g = two_c();
    let state = vec![
        lr1(2, 0, toks(3, &[0])),
        lr1(2, 0, toks(3, &[1])),
        lr1(2, 1, toks(3, &[2])),
        lr1(3, 0, toks(3, &[0, 1])),
    ];
    assert_eq!(successor(&g, &state, term(0)), vec![lr1(2, 1, toks(3, &[0, 1]))]);
    assert_eq!(successor(&g, &state, nonterm(2)), vec![lr1(2, 2, toks(3, &[2]))]);
    assert_eq!(successor(&g, &state, term(1)), vec![lr1(3, 1, toks(3, &[0, 1]))]);
    assert!(successor(&g, &state, nonterm(1)).is_empty());
}

#[test]
fn registry_gives_equal_kernels_one_index() {
    let mut set: KernelSet<Nil> = KernelSet::new();
    assert_eq!(set.len(), 0);
    assert_eq!(set.add_state(Kernel::start(vec![lr0(0, 0)])), StateIndex(0));
    assert_eq!(set.add_state(Kernel::shifted(vec![lr0(1, 1)])), StateIndex(1));
    assert_eq!(set.add_state(Kernel::shifted(vec![lr0(1, 1), lr0(2, 1)])), StateIndex(2));
    assert_eq!(set.add_state(Kernel::shifted(vec![lr0(1, 1)])), StateIndex(1));
    assert_eq!(set.len(), 3);
    assert_eq!(set.next(), Some(Kernel { items: vec![lr0(0, 0)] }));
    assert_eq!(set.next(), Some(Kernel { items: vec![lr0(1, 1)] }));
    assert_eq!(set.add_state(Kernel::shifted(vec![lr0(3, 2)])), StateIndex(3));
    assert_eq!(set.next(), Some(Kernel { items: vec![lr0(1, 1), lr0(2, 1)] }));
    assert_eq!(set.next(), Some(Kernel { items: vec![lr0(3, 2)] }));
    assert_eq!(set.next(), None);
    assert_eq!(set.next(), None);
    assert_eq!(Kernel::<Nil>::index(4), StateIndex(4));
    let k = Kernel { items: vec![lr0(1, 1)] };
    assert!(k.same(&k.dup()));
    assert!(!k.same(&Kernel { items: vec![lr0(1, 2)] }));
}

#[test]
fn next_state_looks_up_both_tables() {
    let states = build_lr1_states(&two_contexts(), 0, None).unwrap();
    assert_eq!(states[0].next_state(term(0)), Some(StateIndex(1)));
    assert_eq!(states[0].next_state(term(1)), Some(StateIndex(2)));
    assert_eq!(states[0].next_state(term(2)), None);
    assert_eq!(states[0].next_state(nonterm(1)), Some(StateIndex(3)));
    assert_eq!(states[0].next_state(nonterm(2)), None);
    assert_eq!(states[0].next_state(nonterm(0)), None);
}

#[test]
fn reductions_and_conflicts_of_a_state() {
    let g = two_ways();
    let items = vec![lr1(3, 1, toks(2, &[1])), lr1(4, 1, toks(2, &[0, 1]))];
    let reductions = State::reductions_for(&g, &items);
    assert_eq!(reductions, vec![(toks(2, &[1]), 3), (toks(2, &[0, 1]), 4)]);
    let state = State {
        index: StateIndex(7),
        items: lr_states::state::Items { vec: items.clone() },
        shifts: vec![(0, StateIndex(2))],
        reductions,
        gotos: vec![],
    };
    let conflicts = state.conflicts(&g);
    let found: Vec<(StateIndex, usize, Action)> =
        conflicts.iter().map(|c| (c.state, c.item.production, c.action)).collect();
    assert_eq!(
        found,
        vec![
            (StateIndex(7), 4, Action::Shift(0)),
            (StateIndex(7), 3, Action::Reduce(4)),
        ]
    );
}
