//! Construction of the states of LR(0) and LR(1) automata for context-free
//! grammars, verified with Verus.
//!
//! A grammar is given as numbered productions over numbered terminals and
//! nonterminals.  The construction starts from the items of a start
//! nonterminal.  It closes each kernel under epsilon moves, groups the closed
//! items by the symbol behind the dot, registers each group as the kernel of
//! a successor state, and collects the reductions and the conflicts of each
//! state.  Equal kernels get one state, so the result is the canonical
//! collection of states.
//!
//! The modules, from the ground up:
//!
//! - [`grammar`]: symbols, productions, grammars;
//! - [`token_set`]: sets of tokens and their order;
//! - [`derivation`]: what a sequence of symbols derives;
//! - [`first`]: nullable nonterminals and FIRST sets, exact with respect to
//!   derivations;
//! - [`lookahead`]: what an item carries, nothing or a set of tokens;
//! - [`item`]: items and their order;
//! - [`closure`]: closure under epsilon moves;
//! - [`kernel_set`]: kernels and their registry;
//! - [`successor`]: the kernel that is entered over a symbol;
//! - [`prefix`]: the symbols before the dots of the items of a state;
//! - [`state`]: states, reductions and conflicts;
//! - [`automaton`]: what the construction builds, and what holds of it at
//!   every moment;
//! - [`builder`]: the construction itself;
//! - [`projection`]: how LR(1) items map onto LR(0) items;
//! - [`theorems`]: what holds of every automaton that was built;
//! - [`ascent`]: the shape of a recursive-ascent parser for an automaton.

pub mod grammar;
pub mod token_set;
pub mod derivation;
pub mod first;
pub mod lookahead;
pub mod item;
pub mod closure;
pub mod kernel_set;
pub mod successor;
pub mod prefix;
pub mod state;
pub mod automaton;
pub mod builder;
pub mod projection;
pub mod theorems;
pub mod ascent;
