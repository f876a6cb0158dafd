use rand::seq::SliceRandom;
use vstd::prelude::*;

use crate::card::{all_of_rank, all_same_rank, Card};

verus! {

broadcast use vstd::seq_lib::group_filter_ensures;

/// A player: a number, the indices of the deck it draws from and of the deck
/// it discards to, and its hand.
#[derive(Debug)]
pub struct Player {
    pub number: usize,
    pub draw_deck: usize,
    pub discard_deck: usize,
    pub hand: Vec<Card>,
}

/// The cards of `hand` that a player numbered `p` is willing to give up: those
/// whose rank is not `p`, in hand order.
pub open spec fn candidates(hand: Seq<Card>, p: usize) -> Seq<Card> {
    hand.filter(|c: Card| c.0 != p)
}

/// Relies on `rand::seq::SliceRandom::choose` over the thread-local generator:
/// `None` exactly for an empty slice, otherwise one of its elements.
#[verifier::external_body]
fn choose_card(cards: &Vec<Card>) -> (r: Option<Card>)
    ensures
        r is None <==> cards@.len() == 0,
        r matches Some(c) ==> cards@.contains(c),
{
    cards.choose(&mut rand::thread_rng()).copied()
}

impl Player {
    /// A player with an empty hand.
    pub fn new(number: usize, draw_deck: usize, discard_deck: usize) -> (r: Player)
        ensures
            r.number == number,
            r.draw_deck == draw_deck,
            r.discard_deck == discard_deck,
            r.hand@ == Seq::<Card>::empty(),
    {
        Player { number, draw_deck, discard_deck, hand: Vec::new() }
    }

    /// Whether every adjacent pair of cards in the hand has equal rank, that
    /// is, whether the whole hand is of one rank.
    pub fn has_winning_hand(&self) -> (r: bool)
        ensures
            r == all_same_rank(self.hand@),
    {
        let n = self.hand.len();
        if n == 0 {
            return true;
        }
        let mut i: usize = 1;
        while i < n
            invariant
                n == self.hand@.len(),
                1 <= i <= n,
                forall|j: int| 0 <= j < i ==> #[trigger] self.hand@[j] == self.hand@[0],
            decreases n - i,
        {
            if self.hand[i - 1] != self.hand[i] {
                return false;
            }
            i = i + 1;
        }
        true
    }

    /// The cards this player may discard, in hand order.
    pub fn discard_candidates(&self) -> (r: Vec<Card>)
        ensures
            r@ == candidates(self.hand@, self.number),
    {
        let hand = &self.hand;
        let p = self.number;
        let mut r: Vec<Card> = Vec::new();
        let mut i: usize = 0;
        while i < hand.len()
            invariant
                i <= hand@.len(),
                p == self.number,
                hand@ == self.hand@,
                r@ == candidates(hand@.take(i as int), p),
            decreases hand@.len() - i,
        {
            proof {
                assert(hand@.take(i + 1) =~= hand@.take(i as int).push(hand@[i as int]));
                hand@.take(i as int).lemma_filter_push(hand@[i as int], |c: Card| c.0 != p);
            }
            if hand[i].0 != p {
                r.push(hand[i]);
            }
            i = i + 1;
        }
        assert(hand@.take(i as int) =~= hand@);
        r
    }

    /// The position of the first card of the hand equal to `chosen`; `None`
    /// when nothing was chosen or the hand holds no such card.
    pub fn discard_position(&self, chosen: Option<Card>) -> (r: Option<usize>)
        ensures
            chosen is None ==> r is None,
            chosen matches Some(c) ==> match r {
                Some(i) => i < self.hand@.len() && self.hand@[i as int] == c && forall|j: int|
                    0 <= j < i ==> self.hand@[j] != c,
                None => !self.hand@.contains(c),
            },
    {
        match chosen {
            None => None,
            Some(c) => {
                let mut i: usize = 0;
                while i < self.hand.len()
                    invariant
                        chosen == Some(c),
                        i <= self.hand@.len(),
                        forall|j: int| 0 <= j < i ==> self.hand@[j] != c,
                    decreases self.hand@.len() - i,
                {
                    if self.hand[i] == c {
                        return Some(i);
                    }
                    i = i + 1;
                }
                None
            },
        }
    }

    /// Picks, uniformly at random, a card of the hand whose rank is not the
    /// player's number, and returns its position; `None` when every card is of
    /// the player's own rank.
    pub fn select_discard_card(&self) -> (r: Option<usize>)
        ensures
            r is None <==> all_of_rank(self.hand@, self.number),
            r matches Some(i) ==> i < self.hand@.len() && self.hand@[i as int].0 != self.number,
            r matches Some(i) ==> forall|j: int| 0 <= j < i ==> self.hand@[j] != self.hand@[i as int],
    {
        let cands = self.discard_candidates();
        let chosen = choose_card(&cands);
        proof {
            let hand = self.hand@;
            let p = self.number;
            let pred = |c: Card| c.0 != p;
            if !all_of_rank(hand, p) {
                let k = choose|k: int| 0 <= k < hand.len() && hand[k].0 != p;
                hand.lemma_filter_contains(pred, k);
            }
        }
        let r = self.discard_position(chosen);
        proof {
            if let Some(c) = chosen {
                let hand = self.hand@;
                let p = self.number;
                let pred = |c: Card| c.0 != p;
                hand.lemma_filter_contains_rev(pred, c);
            }
        }
        r
    }

    /// Takes `drawn` into the hand in exchange for the card at `pick`, and
    /// returns the card to discard. With no pick the drawn card itself is
    /// discarded and the hand stays as it was.
    pub fn exchange(&mut self, drawn: Card, pick: Option<usize>) -> (r: Card)
        requires
            pick matches Some(i) ==> i < old(self).hand@.len(),
        ensures
            final(self).number == old(self).number,
            final(self).draw_deck == old(self).draw_deck,
            final(self).discard_deck == old(self).discard_deck,
            pick is None ==> r == drawn && final(self).hand@ == old(self).hand@,
            pick matches Some(i) ==> r == old(self).hand@[i as int] && final(self).hand@
                == old(self).hand@.remove(i as int).push(drawn),
    {
        match pick {
            None => drawn,
            Some(i) => {
                let discard = self.hand.remove(i);
                self.hand.push(drawn);
                discard
            },
        }
    }
}

} // verus!
