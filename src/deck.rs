use std::collections::VecDeque;
use vstd::prelude::*;

use crate::card::Card;

verus! {

/// A numbered pile of cards, drawn from the front and discarded onto the back.
///
/// The cards are reachable only through `draw_front`, `discard_back` and
/// read-only snapshots; both mutating operations take `&mut self`, so no two
/// turns can interleave on one deck.
#[derive(Debug)]
pub struct Deck {
    number: usize,
    cards: VecDeque<Card>,
}

impl View for Deck {
    type V = Seq<Card>;

    closed spec fn view(&self) -> Seq<Card> {
        self.cards@
    }
}

impl Deck {
    /// The deck's number.
    pub closed spec fn id(&self) -> usize {
        self.number
    }

    pub fn number(&self) -> (r: usize)
        ensures
            r == self.id(),
    {
        self.number
    }

    /// An empty deck with the given number.
    pub fn new(number: usize) -> (r: Deck)
        ensures
            r.id() == number,
            r@ == Seq::<Card>::empty(),
    {
        Deck { number, cards: VecDeque::new() }
    }

    /// Number of cards in the deck.
    pub fn len(&self) -> (r: usize)
        ensures
            r == self@.len(),
    {
        self.cards.len()
    }

    /// Removes and returns the front card, or `None` when the deck is empty.
    pub fn draw_front(&mut self) -> (r: Option<Card>)
        ensures
            final(self).id() == old(self).id(),
            old(self)@.len() == 0 ==> r is None && final(self)@ == old(self)@,
            old(self)@.len() > 0 ==> r == Some(old(self)@[0]) && final(self)@ == old(self)@.drop_first(),
    {
        self.cards.pop_front()
    }

    /// Appends a card to the back of the deck.
    pub fn discard_back(&mut self, card: Card)
        ensures
            final(self).id() == old(self).id(),
            final(self)@ == old(self)@.push(card),
    {
        self.cards.push_back(card);
    }

    /// Puts a card on the front of the deck; used while dealing.
    pub fn place_front(&mut self, card: Card)
        ensures
            final(self).id() == old(self).id(),
            final(self)@ == seq![card] + old(self)@,
    {
        self.cards.push_front(card);
    }

    /// The cards of the deck, front to back.
    pub fn to_vec(&self) -> (r: Vec<Card>)
        ensures
            r@ == self@,
    {
        let mut r: Vec<Card> = Vec::new();
        let mut i: usize = 0;
        while i < self.cards.len()
            invariant
                i <= self@.len(),
                r@ == self@.take(i as int),
            decreases self@.len() - i,
        {
            r.push(self.cards[i]);
            i = i + 1;
            assert(r@ =~= self@.take(i as int));
        }
        assert(r@ =~= self@);
        r
    }
}

} // verus!
