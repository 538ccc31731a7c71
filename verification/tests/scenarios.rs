use lr_states::builder::{build_lr0_states, build_lr1_states};
use lr_states::grammar::{Grammar, Production, Symbol};
use lr_states::item::Item;
use lr_states::kernel_set::StateIndex;
use lr_states::state::Action;
use lr_states::token_set::TokenSet;

fn t(n: usize) -> Symbol {
    Symbol::Terminal(n)
}

fn nt(n: usize) -> Symbol {
    Symbol::Nonterminal(n)
}

fn grammar(terminals: usize, nonterminals: usize, rules: Vec<(usize, Vec<Symbol>)>) -> Grammar {
    let productions = rules
        .into_iter()
        .enumerate()
        .map(|(i, (lhs, rhs))| Production { nonterminal: lhs, symbols: rhs, action: i })
        .collect();
    Grammar::new(terminals, nonterminals, productions).unwrap()
}

fn tokens(len: usize, members: &[usize]) -> TokenSet {
    let mut set = TokenSet::new(len);
    for &m in members {
        set.insert(m);
    }
    set
}

fn item(production: usize, index: usize, lookahead: TokenSet) -> Item<TokenSet> {
    Item { production, index, lookahead }
}

// S' -> S ; S -> a        terminals: a = 0, end of input = 1
#[test]
fn trivial_grammar_has_three_states() {
    let g = grammar(1, 2, vec![(0, vec![nt(1)]), (1, vec![t(0)])]);
    let states = build_lr1_states(&g, 0, None).unwrap();
    assert_eq!(states.len(), 3);
    let eof = tokens(2, &[1]);
    assert_eq!(states[0].index, StateIndex(0));
    assert_eq!(states[0].items.vec, vec![item(0, 0, eof.clone()), item(1, 0, eof.clone())]);
    assert_eq!(states[0].shifts, vec![(0, StateIndex(1))]);
    assert_eq!(states[0].gotos, vec![(1, StateIndex(2))]);
    assert!(states[0].reductions.is_empty());
    // after `a`: reduce S -> a on the end of input
    assert_eq!(states[1].items.vec, vec![item(1, 1, eof.clone())]);
    assert_eq!(states[1].reductions, vec![(eof.clone(), 1)]);
    assert!(states[1].shifts.is_empty());
    assert!(states[1].gotos.is_empty());
    // after `S`: the accepting state
    assert_eq!(states[2].items.vec, vec![item(0, 1, eof.clone())]);
    assert_eq!(states[2].reductions, vec![(eof, 0)]);
}

// S -> i E t S | i E t S e S | a ; E -> b
// terminals: i = 0, t = 1, e = 2, a = 3, b = 4
fn dangling_else() -> Grammar {
    grammar(
        5,
        3,
        vec![
            (0, vec![nt(1)]),
            (1, vec![t(0), nt(2), t(1), nt(1)]),
            (1, vec![t(0), nt(2), t(1), nt(1), t(2), nt(1)]),
            (1, vec![t(3)]),
            (2, vec![t(4)]),
        ],
    )
}

#[test]
fn dangling_else_lr0_reports_shift_reduce_on_else() {
    let g = dangling_else();
    let err = build_lr0_states(&g, 0).unwrap_err();
    assert_eq!(err.conflicts.len(), 1);
    let c = &err.conflicts[0];
    assert_eq!(c.action, Action::Shift(2));
    assert_eq!((c.item.production, c.item.index), (1, 4));
    let st = &err.states[c.state.0];
    assert!(st.shifts.iter().any(|&(term, _)| term == 2));
}

// The grammar is ambiguous, so one token of lookahead does not settle the
// `else` either: the state that holds `S -> i E t S .` with `e` in its
// lookahead also shifts `e`.
#[test]
fn dangling_else_lr1_reports_shift_reduce_on_else() {
    let g = dangling_else();
    let err = build_lr1_states(&g, 0, None).unwrap_err();
    assert_eq!(err.conflicts.len(), 1);
    let c = &err.conflicts[0];
    assert_eq!(c.action, Action::Shift(2));
    assert_eq!((c.item.production, c.item.index), (1, 4));
    assert!(c.item.lookahead.contains(2));
    assert!(err.states[c.state.0].shifts.iter().any(|&(term, _)| term == 2));
}

// S' -> S ; S -> A a ; A -> (empty)       terminals: a = 0
#[test]
fn empty_production_is_reduced_on_first_of_remainder() {
    let g = grammar(1, 3, vec![(0, vec![nt(1)]), (1, vec![nt(2), t(0)]), (2, vec![])]);
    let states = build_lr1_states(&g, 0, None).unwrap();
    let on_a = tokens(2, &[0]);
    assert!(states[0].items.vec.contains(&item(2, 0, on_a.clone())));
    assert_eq!(states[0].reductions, vec![(on_a, 2)]);
}

// S' -> S ; S -> A | B ; A -> x ; B -> x       terminals: x = 0
#[test]
fn reduce_reduce_is_reported_once() {
    let g = grammar(
        1,
        4,
        vec![(0, vec![nt(1)]), (1, vec![nt(2)]), (1, vec![nt(3)]), (2, vec![t(0)]), (3, vec![t(0)])],
    );
    let err = build_lr1_states(&g, 0, None).unwrap_err();
    assert_eq!(err.conflicts.len(), 1);
    let c = &err.conflicts[0];
    let eof = tokens(2, &[1]);
    assert_eq!(c.item, item(3, 1, eof.clone()));
    assert_eq!(c.action, Action::Reduce(4));
    // the state is the one entered from the first state over `x`
    assert_eq!(err.states[0].shifts, vec![(0, c.state)]);
    assert_eq!(err.states[c.state.0].reductions, vec![(eof.clone(), 3), (eof, 4)]);
}

// S' -> S ; S -> A A ; A -> a       terminals: a = 0
#[test]
fn equal_kernels_share_one_state() {
    let g = grammar(1, 3, vec![(0, vec![nt(1)]), (1, vec![nt(2), nt(2)]), (2, vec![t(0)])]);
    let states = build_lr0_states(&g, 0).unwrap();
    assert_eq!(states.len(), 5);
    // both states with the dot before `A` shift `a` into the same state
    let after_a = states[0].shifts[0].1;
    let after_first_a = states[0].gotos.iter().find(|&&(n, _)| n == 2).unwrap().1;
    assert_eq!(states[after_first_a.0].shifts, vec![(0, after_a)]);
}

// S' -> S ; S -> C C ; C -> c C | d       terminals: c = 0, d = 1
#[test]
fn lookaheads_are_joined_when_items_merge() {
    let g = grammar(
        2,
        3,
        vec![
            (0, vec![nt(1)]),
            (1, vec![nt(2), nt(2)]),
            (2, vec![t(0), nt(2)]),
            (2, vec![t(1)]),
        ],
    );
    let states = build_lr1_states(&g, 0, None).unwrap();
    assert_eq!(states.len(), 10);
    // after `c` from the first state: C -> c . C on {c, d}
    let after_c = states[0].shifts[0].1;
    let cd = tokens(3, &[0, 1]);
    assert_eq!(
        states[after_c.0].items.vec,
        vec![item(2, 0, cd.clone()), item(2, 1, cd.clone()), item(3, 0, cd)]
    );
}
