//! Items: a production with a dot in its right side and a lookahead.

use crate::grammar::{Grammar, Symbol};
use crate::lookahead::{Lookahead, Nil};
use crate::token_set::{
    bits_lt, lemma_bits_lt_irreflexive, lemma_bits_lt_transitive, lemma_bits_trichotomy, TokenSet,
};
use vstd::prelude::*;
use vstd::slice::slice_subrange;

verus! {

/// An item: production `production` with the dot before the symbol at
/// `index` of its right side, or at its end.
#[derive(Clone, Debug, PartialEq, Eq, Hash)]
pub struct Item<L> {
    pub production: usize,
    pub index: usize,
    pub lookahead: L,
}

/// An item without lookahead.
pub type LR0Item = Item<Nil>;

/// An item with a set of tokens as lookahead.
pub type LR1Item = Item<TokenSet>;

/// What an item stands for.
pub struct ItemView {
    pub production: int,
    pub index: int,
    pub lookahead: Seq<bool>,
}

impl<L: Lookahead> View for Item<L> {
    type V = ItemView;

    open spec fn view(&self) -> ItemView {
        ItemView {
            production: self.production as int,
            index: self.index as int,
            lookahead: self.lookahead.bits(),
        }
    }
}

/// What the items of a sequence stand for.
pub open spec fn item_views<L: Lookahead>(s: Seq<Item<L>>) -> Seq<ItemView> {
    Seq::new(s.len(), |i: int| s[i]@)
}

/// The number of bits in the lookahead of every item of one construction.
pub open spec fn la_len(g: Grammar, with_tokens: bool) -> nat {
    if with_tokens {
        (g.num_terminals + 1) as nat
    } else {
        0
    }
}

impl ItemView {
    /// The item belongs to grammar `g`: its production exists, its dot is
    /// within the right side, and its lookahead has the width that the
    /// construction uses.
    pub open spec fn ok(self, g: Grammar, with_tokens: bool) -> bool {
        &&& g.is_production(self.production)
        &&& 0 <= self.index <= g.rhs(self.production).len()
        &&& self.lookahead.len() == la_len(g, with_tokens)
    }

    /// The dot is at the end of the right side.
    pub open spec fn can_reduce(self, g: Grammar) -> bool {
        self.index == g.rhs(self.production).len()
    }

    /// The symbol behind the dot, where the dot is not at the end.
    pub open spec fn next_symbol(self, g: Grammar) -> Symbol {
        g.rhs(self.production)[self.index]
    }

    /// The dot stands before symbol `x`.
    pub open spec fn shifts_over(self, g: Grammar, x: Symbol) -> bool {
        0 <= self.index < g.rhs(self.production).len() && self.next_symbol(g) == x
    }

    /// The symbols behind the symbol behind the dot.
    pub open spec fn remainder(self, g: Grammar) -> Seq<Symbol> {
        g.rhs(self.production).subrange(self.index + 1, g.rhs(self.production).len() as int)
    }

    /// The item with the dot moved over one symbol.
    pub open spec fn advanced(self) -> ItemView {
        ItemView { production: self.production, index: self.index + 1, lookahead: self.lookahead }
    }

    /// The two items have the same production and dot.
    pub open spec fn same_core(self, other: ItemView) -> bool {
        self.production == other.production && self.index == other.index
    }

    /// The item comes before the other by production and dot alone.
    pub open spec fn core_lt(self, other: ItemView) -> bool {
        self.production < other.production || (self.production == other.production && self.index
            < other.index)
    }

    /// The order of items: by production, then by dot, then by lookahead.
    pub open spec fn lt(self, other: ItemView) -> bool {
        self.core_lt(other) || (self.same_core(other) && bits_lt(self.lookahead, other.lookahead))
    }
}

/// No item comes before itself.
pub proof fn lemma_item_lt_irreflexive(a: ItemView)
    ensures
        !a.lt(a),
{
    lemma_bits_lt_irreflexive(a.lookahead);
}

/// The order of items is transitive.
pub proof fn lemma_item_lt_transitive(a: ItemView, b: ItemView, c: ItemView)
    requires
        a.lt(b),
        b.lt(c),
    ensures
        a.lt(c),
{
    if a.same_core(b) && b.same_core(c) {
        lemma_bits_lt_transitive(a.lookahead, b.lookahead, c.lookahead);
    }
}

/// Of two items with lookaheads of one width, one comes before the other or
/// they are equal.
pub proof fn lemma_item_trichotomy(a: ItemView, b: ItemView)
    requires
        a.lookahead.len() == b.lookahead.len(),
    ensures
        a == b || a.lt(b) || b.lt(a),
        !(a.lt(b) && b.lt(a)),
{
    lemma_bits_trichotomy(a.lookahead, b.lookahead);
}

impl<L: Lookahead> Item<L> {
    /// A copy of the item.
    pub fn dup(&self) -> (r: Self)
        ensures
            r@ == self@,
    {
        Item { production: self.production, index: self.index, lookahead: self.lookahead.dup() }
    }

    /// The item with its lookahead replaced.
    pub fn with_lookahead<M: Lookahead>(&self, lookahead: M) -> (r: Item<M>)
        ensures
            r@ == (ItemView {
                production: self.production as int,
                index: self.index as int,
                lookahead: lookahead.bits(),
            }),
    {
        Item { production: self.production, index: self.index, lookahead }
    }

    /// Whether the dot is at the end of the production.
    pub fn can_reduce(&self, grammar: &Grammar) -> (b: bool)
        requires
            grammar.is_production(self.production as int),
        ensures
            b == self@.can_reduce(*grammar),
    {
        self.index == grammar.productions[self.production].symbols.len()
    }

    /// The symbol behind the dot and the item with the dot moved over it;
    /// `None` when the dot is at the end.
    pub fn shifted_item(&self, grammar: &Grammar) -> (r: Option<(Symbol, Item<L>)>)
        requires
            grammar.is_production(self.production as int),
            self.index <= grammar.rhs(self.production as int).len(),
        ensures
            r is None <==> self@.can_reduce(*grammar),
            r matches Some((x, it)) ==> x == self@.next_symbol(*grammar) && it@
                == self@.advanced(),
    {
        let symbols = &grammar.productions[self.production].symbols;
        if self.index < symbols.len() {
            Some(
                (
                    symbols[self.index],
                    Item {
                        production: self.production,
                        index: self.index + 1,
                        lookahead: self.lookahead.dup(),
                    },
                ),
            )
        } else {
            None
        }
    }

    /// The symbol behind the dot and the symbols that follow it; `None`
    /// when the dot is at the end.
    pub fn shift_symbol<'a>(&self, grammar: &'a Grammar) -> (r: Option<(Symbol, &'a [Symbol])>)
        requires
            grammar.is_production(self.production as int),
            self.index <= grammar.rhs(self.production as int).len(),
        ensures
            r is None <==> self@.can_reduce(*grammar),
            r matches Some((x, rest)) ==> x == self@.next_symbol(*grammar) && rest@
                == self@.remainder(*grammar),
    {
        let symbols = &grammar.productions[self.production].symbols;
        if self.index < symbols.len() {
            let rest = slice_subrange(symbols.as_slice(), self.index + 1, symbols.len());
            Some((symbols[self.index], rest))
        } else {
            None
        }
    }

    /// Whether the two items are equal.
    pub fn same(&self, other: &Self) -> (b: bool)
        ensures
            b == (self@ == other@),
    {
        self.production == other.production && self.index == other.index && self.lookahead.same(
            &other.lookahead,
        )
    }

    /// Whether the two items have the same production and dot.
    pub fn same_core(&self, other: &Self) -> (b: bool)
        ensures
            b == self@.same_core(other@),
    {
        self.production == other.production && self.index == other.index
    }

    /// Whether this item comes before the other in the order of items.
    pub fn before(&self, other: &Self) -> (b: bool)
        ensures
            b == self@.lt(other@),
    {
        if self.production != other.production {
            self.production < other.production
        } else if self.index != other.index {
            self.index < other.index
        } else {
            self.lookahead.before(&other.lookahead)
        }
    }
}

impl Item<Nil> {
    /// The item without lookahead for a production and a dot.
    pub fn lr0(production: usize, index: usize) -> (r: LR0Item)
        ensures
            r@ == (ItemView {
                production: production as int,
                index: index as int,
                lookahead: Seq::empty(),
            }),
    {
        Item { production, index, lookahead: Nil }
    }
}

} // verus!
