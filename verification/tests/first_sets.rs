use lr_states::first::FirstSets;
use lr_states::grammar::{Grammar, Production, Symbol};
use lr_states::token_set::TokenSet;

fn rules(terminals: usize, nonterminals: usize, rules: Vec<(usize, Vec<Symbol>)>) -> Grammar {
    let productions = rules
        .into_iter()
        .enumerate()
        .map(|(i, (lhs, rhs))| Production { nonterminal: lhs, symbols: rhs, action: i })
        .collect();
    Grammar::new(terminals, nonterminals, productions).unwrap()
}

#[allow(non_snake_case)]
fn N(n: usize) -> Symbol {
    Symbol::Nonterminal(n)
}

#[allow(non_snake_case)]
fn T(n: usize) -> Symbol {
    Symbol::Terminal(n)
}

fn set(len: usize, members: &[usize]) -> TokenSet {
    let mut s = TokenSet::new(len);
    for &m in members {
        s.insert(m);
    }
    s
}

// E -> T E' ; E' -> + T E' | (empty) ; T -> F T' ; T' -> * F T' | (empty) ;
// F -> ( E ) | id
// nonterminals: E = 0, E' = 1, T = 2, T' = 3, F = 4
// terminals: + = 0, * = 1, ( = 2, ) = 3, id = 4
fn expressions() -> Grammar {
    rules(
        5,
        5,
        vec![
            (0, vec![N(2), N(1)]),
            (1, vec![T(0), N(2), N(1)]),
            (1, vec![]),
            (2, vec![N(4), N(3)]),
            (3, vec![T(1), N(4), N(3)]),
            (3, vec![]),
            (4, vec![T(2), N(0), T(3)]),
            (4, vec![T(4)]),
        ],
    )
}

#[test]
fn nullable_nonterminals_are_found() {
    let g = expressions();
    let fs = FirstSets::new(&g);
    assert_eq!(fs.nullable, vec![false, true, false, true, false]);
    assert!(fs.is_nullable(&g, 1));
    assert!(!fs.is_nullable(&g, 4));
}

#[test]
fn first_of_each_nonterminal() {
    let g = expressions();
    let fs = FirstSets::new(&g);
    assert_eq!(*fs.first(&g, 0), set(6, &[2, 4]));
    assert_eq!(*fs.first(&g, 1), set(6, &[0]));
    assert_eq!(*fs.first(&g, 2), set(6, &[2, 4]));
    assert_eq!(*fs.first(&g, 3), set(6, &[1]));
    assert_eq!(*fs.first(&g, 4), set(6, &[2, 4]));
}

#[test]
fn first1_of_empty_sequence_is_the_lookahead() {
    let g = expressions();
    let fs = FirstSets::new(&g);
    let la = set(6, &[3, 5]);
    assert_eq!(fs.first1(&g, &[], &la), la);
}

#[test]
fn first1_stops_at_a_terminal() {
    let g = expressions();
    let fs = FirstSets::new(&g);
    let la = set(6, &[5]);
    let symbols = [Symbol::Terminal(3), Symbol::Nonterminal(1)];
    assert_eq!(fs.first1(&g, &symbols, &la), set(6, &[3]));
}

#[test]
fn first1_passes_nullable_nonterminals() {
    let g = expressions();
    let fs = FirstSets::new(&g);
    let la = set(6, &[5]);
    // T' E' derives the empty sequence, so the lookahead comes through
    let symbols = [Symbol::Nonterminal(3), Symbol::Nonterminal(1)];
    assert_eq!(fs.first1(&g, &symbols, &la), set(6, &[0, 1, 5]));
    // T' F does not
    let symbols = [Symbol::Nonterminal(3), Symbol::Nonterminal(4)];
    assert_eq!(fs.first1(&g, &symbols, &la), set(6, &[1, 2, 4]));
}

// A -> B ; B -> A      neither derives anything
#[test]
fn nonterminals_that_derive_nothing_have_empty_first_sets() {
    let g = rules(1, 2, vec![(0, vec![Symbol::Nonterminal(1)]), (1, vec![Symbol::Nonterminal(0)])]);
    let fs = FirstSets::new(&g);
    assert_eq!(fs.nullable, vec![false, false]);
    assert_eq!(*fs.first(&g, 0), set(2, &[]));
    assert_eq!(*fs.first(&g, 1), set(2, &[]));
}

// A -> a B ; B -> B      B derives no string of terminals, so neither does A;
// the terminal is still the first symbol of what A derives
#[test]
fn first_looks_at_symbols_not_at_strings() {
    let g = rules(1, 2, vec![(0, vec![Symbol::Terminal(0), Symbol::Nonterminal(1)]), (1, vec![Symbol::Nonterminal(1)])]);
    let fs = FirstSets::new(&g);
    assert_eq!(*fs.first(&g, 0), set(2, &[0]));
    assert_eq!(*fs.first(&g, 1), set(2, &[]));
    assert_eq!(fs.nullable, vec![false, false]);
}

// A -> A a | (empty)
#[test]
fn left_recursion_reaches_the_terminal_behind_it() {
    let g = rules(1, 1, vec![(0, vec![Symbol::Nonterminal(0), Symbol::Terminal(0)]), (0, vec![])]);
    let fs = FirstSets::new(&g);
    assert_eq!(fs.nullable, vec![true]);
    assert_eq!(*fs.first(&g, 0), set(2, &[0]));
}

#[test]
fn grammar_with_unknown_symbols_is_refused() {
    let p = |lhs: usize, rhs: Vec<Symbol>| Production { nonterminal: lhs, symbols: rhs, action: 0 };
    assert!(Grammar::new(1, 1, vec![p(0, vec![Symbol::Terminal(1)])]).is_none());
    assert!(Grammar::new(1, 1, vec![p(0, vec![Symbol::Nonterminal(1)])]).is_none());
    assert!(Grammar::new(1, 1, vec![p(1, vec![])]).is_none());
    assert!(Grammar::new(usize::MAX, 1, vec![]).is_none());
    assert!(Grammar::new(1, 1, vec![p(0, vec![Symbol::Terminal(0), Symbol::Nonterminal(0)])]).is_some());
}

#[test]
fn productions_are_grouped_by_nonterminal() {
    let g = expressions();
    assert_eq!(g.productions_for(1), vec![1, 2]);
    assert_eq!(g.productions_for(4), vec![6, 7]);
    assert_eq!(g.productions_for(0), vec![0]);
    assert!(g.productions_for(9).is_empty());
    assert_eq!(g.all_nonterminals(), vec![0, 1, 2, 3, 4]);
}

#[test]
fn token_set_operations() {
    let mut a = set(4, &[1]);
    assert!(a.contains(1));
    assert!(!a.contains(0));
    assert!(!a.contains(7));
    assert!(!a.insert(1));
    assert!(a.insert(3));
    let b = set(4, &[0, 3]);
    assert!(a.overlaps(&b));
    assert!(!a.overlaps(&set(4, &[0, 2])));
    assert!(a.union_with(&b));
    assert_eq!(a, set(4, &[0, 1, 3]));
    assert!(!a.union_with(&b));
    assert_eq!(a.tokens(), vec![0, 1, 3]);
    assert!(set(4, &[]).is_empty());
    assert!(!a.is_empty());
    assert_eq!(a.len(), 4);
    assert_eq!(TokenSet::eof(3), set(4, &[3]));
}
