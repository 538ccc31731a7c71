use lr_states::ascent::{check_state, depths, plan, plan_state, pop_syms, transition, Arm, GotoArm, Step};
use lr_states::builder::{build_lr0_states, build_lr1_states};
use lr_states::grammar::{Grammar, Production, Symbol};
use lr_states::kernel_set::StateIndex;

fn rules_of(terminals: usize, nonterminals: usize, rules: Vec<(usize, Vec<Symbol>)>) -> Grammar {
    let productions = rules
        .into_iter()
        .enumerate()
        .map(|(i, (lhs, rhs))| Production { nonterminal: lhs, symbols: rhs, action: i })
        .collect();
    Grammar::new(terminals, nonterminals, productions).unwrap()
}

// S' -> S ; S -> A a ; A -> (empty) | b A      terminals: a = 0, b = 1
fn sample() -> Grammar {
    rules_of(
        2,
        3,
        vec![
            (0, vec![Symbol::Nonterminal(1)]),
            (1, vec![Symbol::Nonterminal(2), Symbol::Terminal(0)]),
            (2, vec![]),
            (2, vec![Symbol::Terminal(1), Symbol::Nonterminal(2)]),
        ],
    )
}

#[test]
fn popped_symbols_are_the_last_ones() {
    assert_eq!(pop_syms(5, 2), vec![3, 4]);
    assert_eq!(pop_syms(3, 3), vec![0, 1, 2]);
    assert!(pop_syms(3, 0).is_empty());
    assert!(pop_syms(0, 0).is_empty());
}

#[test]
fn transition_hands_over_the_shifted_symbol() {
    assert_eq!(transition(2, 1), vec![2]);
    assert_eq!(transition(2, 3), vec![0, 1, 2]);
    assert_eq!(transition(0, 1), vec![0]);
}

#[test]
fn prefix_is_what_was_shifted() {
    let g = sample();
    let states = build_lr1_states(&g, 0, None).unwrap();
    assert!(states[0].prefix(&g).is_empty());
    assert_eq!(states[0].deepest_item(&g), Some(0));
    // after `b`: A -> b . A
    let after_b = states[0].shifts[0].1;
    assert_eq!(states[after_b.0].prefix(&g), &[Symbol::Terminal(1)][..]);
    // after `b A`
    let after_b_a = states[after_b.0].gotos[0].1;
    assert_eq!(
        states[after_b_a.0].prefix(&g),
        &[Symbol::Terminal(1), Symbol::Nonterminal(2)][..]
    );
    let d = depths(&g, &states).unwrap();
    assert_eq!(d[0], 0);
    assert_eq!(d[after_b.0], 1);
    assert_eq!(d[after_b_a.0], 2);
}

#[test]
fn items_agree_on_what_was_shifted() {
    let g = sample();
    let states = build_lr1_states(&g, 0, None).unwrap();
    for st in &states {
        let prefix = st.prefix(&g);
        for it in &st.items.vec {
            let before_dot = &g.productions[it.production].symbols[..it.index];
            assert!(prefix.ends_with(before_dot));
        }
    }
}

#[test]
fn plan_of_the_first_state() {
    let g = sample();
    let states = build_lr1_states(&g, 0, None).unwrap();
    let fns = plan(&g, &states).unwrap();
    assert_eq!(fns.len(), states.len());
    let f = &fns[0];
    assert_eq!(f.index, StateIndex(0));
    assert!(f.prefix.is_empty());
    // on `a`: reduce A -> (empty), popping nothing; on `b`: shift
    let after_b = states[0].shifts[0].1;
    assert_eq!(
        f.arms,
        vec![
            Arm { token: 0, step: Step::Reduce { production: 2, pops: 0 } },
            Arm { token: 1, step: Step::Shift { next: after_b, takes: 1 } },
        ]
    );
    assert!(f.fallthrough);
    assert_eq!(
        f.gotos,
        vec![
            GotoArm { nonterminal: 1, next: states[0].gotos[0].1, takes: 1 },
            GotoArm { nonterminal: 2, next: states[0].gotos[1].1, takes: 1 },
        ]
    );
}

#[test]
fn reducing_state_does_not_fall_through() {
    let g = sample();
    let states = build_lr1_states(&g, 0, None).unwrap();
    let fns = plan(&g, &states).unwrap();
    // after `S`: reduce S' -> S on the end of input, popping one symbol
    let after_s = states[0].gotos[0].1;
    let f = &fns[after_s.0];
    assert_eq!(f.prefix, vec![Symbol::Nonterminal(1)]);
    assert_eq!(f.arms, vec![Arm { token: 2, step: Step::Reduce { production: 0, pops: 1 } }]);
    assert!(!f.fallthrough);
    assert!(f.gotos.is_empty());
}

#[test]
fn every_built_automaton_without_conflicts_has_a_plan() {
    let g = sample();
    let states = build_lr1_states(&g, 0, None).unwrap();
    let d = depths(&g, &states).unwrap();
    for st in &states {
        assert!(check_state(&g, st, &d));
        let f = plan_state(&g, st, &d);
        assert_eq!(f.prefix.len(), d[st.index.0]);
        for arm in &f.arms {
            match arm.step {
                Step::Shift { takes, .. } => assert!(takes >= 1 && takes <= f.prefix.len() + 1),
                Step::Reduce { pops, .. } => assert!(pops <= f.prefix.len()),
            }
        }
    }
}

#[test]
fn without_lookahead_a_reduction_has_an_arm_for_every_token() {
    // S' -> S ; S -> a
    let g = rules_of(1, 2, vec![(0, vec![Symbol::Nonterminal(1)]), (1, vec![Symbol::Terminal(0)])]);
    let states = build_lr0_states(&g, 0).unwrap();
    let fns = plan(&g, &states).unwrap();
    let after_a = states[0].shifts[0].1;
    assert_eq!(
        fns[after_a.0].arms,
        vec![
            Arm { token: 0, step: Step::Reduce { production: 1, pops: 1 } },
            Arm { token: 1, step: Step::Reduce { production: 1, pops: 1 } },
        ]
    );
}

#[test]
fn states_that_are_no_automaton_have_no_plan() {
    let g = sample();
    let mut states = build_lr1_states(&g, 0, None).unwrap();
    // a transition to a state that is not there
    let missing = StateIndex(states.len());
    states[0].shifts[0].1 = missing;
    assert!(plan(&g, &states).is_none());
    let d = depths(&g, &states).unwrap();
    assert!(!check_state(&g, &states[0], &d));

    // a transition into the first state, which takes no symbol
    let mut states = build_lr1_states(&g, 0, None).unwrap();
    states[0].shifts[0].1 = StateIndex(0);
    assert!(plan(&g, &states).is_none());

    // a state without items
    let mut states = build_lr1_states(&g, 0, None).unwrap();
    states[1].items.vec.clear();
    assert!(depths(&g, &states).is_none());
    assert!(plan(&g, &states).is_none());
    assert_eq!(states[1].deepest_item(&g), None);

    // an item of no production
    let mut states = build_lr1_states(&g, 0, None).unwrap();
    states[1].items.vec[0].production = 99;
    assert!(plan(&g, &states).is_none());

    // a reduction that pops more than was shifted
    let mut states = build_lr1_states(&g, 0, None).unwrap();
    let eof = states[0].reductions[0].0.clone();
    states[0].reductions.push((eof, 1));
    assert!(plan(&g, &states).is_none());
}
