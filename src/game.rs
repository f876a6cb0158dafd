use vstd::prelude::*;

use crate::card::{all_of_rank, all_same_rank, Card};
use crate::deck::Deck;
use crate::player::Player;

verus! {

/// Why a game could not be set up.
#[derive(Clone, Copy, Debug, PartialEq, Eq, Structural)]
pub enum SetupError {
    /// The player count is not a positive integer.
    InvalidPlayerCount,
    /// The pack source could not be read.
    PackReadError,
    /// A line of the pack is not a non-negative integer.
    PackParseError,
    /// The pack does not hold exactly eight cards per player.
    PackSizeMismatch,
}

/// Total number of cards over a sequence of decks.
pub open spec fn deck_total(decks: Seq<Deck>) -> nat
    decreases decks.len(),
{
    if decks.len() == 0 {
        0
    } else {
        deck_total(decks.drop_last()) + decks.last()@.len()
    }
}

/// Total number of cards over the hands of a sequence of players.
pub open spec fn hand_total(players: Seq<Player>) -> nat
    decreases players.len(),
{
    if players.len() == 0 {
        0
    } else {
        hand_total(players.drop_last()) + players.last().hand@.len()
    }
}

/// The deck that position `j` of a game of `n` players starts with: the cards
/// at positions `4n + j`, `5n + j`, `6n + j`, `7n + j` of the pack, each put on
/// the front in turn, so the last of them is drawn first.
pub open spec fn dealt_deck(pack: Seq<Card>, n: int, j: int) -> Seq<Card> {
    Seq::new(4, |k: int| pack[(7 - k) * n + j])
}

/// The hand that player `j` (counted from zero) starts with: the cards at
/// positions `3n + j`, `2n + j`, `n + j`, `j` of the pack, in that order.
pub open spec fn dealt_hand(pack: Seq<Card>, n: int, j: int) -> Seq<Card> {
    Seq::new(4, |k: int| pack[(3 - k) * n + j])
}

/// Player `i` (counted from zero) of a ring of `n`: numbered `i + 1`, drawing
/// from deck `i`, discarding to the next deck round the ring, holding four cards.
pub open spec fn ring_player(pl: Player, i: int, n: int) -> bool {
    &&& pl.number == i + 1
    &&& pl.draw_deck == i
    &&& pl.discard_deck == (i + 1) % n
    &&& pl.hand@.len() == 4
}

/// A pick that the discard policy may make for `hand` and player number `p`:
/// nothing exactly when every card is of rank `p`, otherwise the position of a
/// card of another rank.
pub open spec fn fair_pick(hand: Seq<Card>, p: usize, pick: Option<usize>) -> bool {
    &&& (pick is None <==> all_of_rank(hand, p))
    &&& (pick matches Some(i) ==> i < hand.len() && hand[i as int].0 != p)
}

/// The card given up when `drawn` meets `hand` with the given pick.
pub open spec fn discarded(hand: Seq<Card>, drawn: Card, pick: Option<usize>) -> Card {
    match pick {
        None => drawn,
        Some(i) => hand[i as int],
    }
}

/// The hand kept when `drawn` meets `hand` with the given pick.
pub open spec fn kept(hand: Seq<Card>, drawn: Card, pick: Option<usize>) -> Seq<Card> {
    match pick {
        None => hand,
        Some(i) => hand.remove(i as int).push(drawn),
    }
}

/// A game session: the ring of decks and the players, in ascending order.
#[derive(Debug)]
pub struct Game {
    decks: Vec<Deck>,
    players: Vec<Player>,
}

proof fn lemma_deck_total_push(s: Seq<Deck>, d: Deck)
    ensures
        deck_total(s.push(d)) == deck_total(s) + d@.len(),
{
    assert(s.push(d).drop_last() =~= s);
}

proof fn lemma_hand_total_push(s: Seq<Player>, pl: Player)
    ensures
        hand_total(s.push(pl)) == hand_total(s) + pl.hand@.len(),
{
    assert(s.push(pl).drop_last() =~= s);
}

proof fn lemma_deck_total_update(s: Seq<Deck>, k: int, d: Deck)
    requires
        0 <= k < s.len(),
    ensures
        deck_total(s.update(k, d)) + s[k]@.len() == deck_total(s) + d@.len(),
    decreases s.len(),
{
    if k < s.len() - 1 {
        assert(s.update(k, d).drop_last() =~= s.drop_last().update(k, d));
        lemma_deck_total_update(s.drop_last(), k, d);
    } else {
        assert(s.update(k, d).drop_last() =~= s.drop_last());
    }
}

proof fn lemma_hand_total_update(s: Seq<Player>, k: int, pl: Player)
    requires
        0 <= k < s.len(),
    ensures
        hand_total(s.update(k, pl)) + s[k].hand@.len() == hand_total(s) + pl.hand@.len(),
    decreases s.len(),
{
    if k < s.len() - 1 {
        assert(s.update(k, pl).drop_last() =~= s.drop_last().update(k, pl));
        lemma_hand_total_update(s.drop_last(), k, pl);
    } else {
        assert(s.update(k, pl).drop_last() =~= s.drop_last());
    }
}

/// Accepts a player count when it is positive.
pub fn check_player_count(n: usize) -> (r: Result<usize, SetupError>)
    ensures
        n >= 1 ==> r == Ok::<usize, SetupError>(n),
        n == 0 ==> r == Err::<usize, SetupError>(SetupError::InvalidPlayerCount),
{
    if n < 1 {
        Err(SetupError::InvalidPlayerCount)
    } else {
        Ok(n)
    }
}

/// Accepts a pack when it holds exactly eight cards per player.
pub fn check_pack(n: usize, pack: &Vec<Card>) -> (r: Result<(), SetupError>)
    ensures
        pack@.len() == 8 * n ==> r == Ok::<(), SetupError>(()),
        pack@.len() != 8 * n ==> r == Err::<(), SetupError>(SetupError::PackSizeMismatch),
{
    let len = pack.len();
    if len % 8 != 0 || len / 8 != n {
        Err(SetupError::PackSizeMismatch)
    } else {
        Ok(())
    }
}

impl Game {
    /// Sets up a game of `n` players from a pack of `8n` cards. Deck `j`
    /// (counted from zero) receives the pack positions `4n .. 8n` that are `j`
    /// modulo `n`, each put on its front in ascending order; the hand of player
    /// `j` receives the positions below `4n` that are `j` modulo `n`, in
    /// descending order. Player `j` draws from deck `j` and discards to deck
    /// `(j + 1) mod n`.
    pub fn deal(n: usize, pack: Vec<Card>) -> (r: Result<Game, SetupError>)
        ensures
            n == 0 ==> (r matches Err(e) && e == SetupError::InvalidPlayerCount),
            n >= 1 && pack@.len() != 8 * n ==> (r matches Err(e) && e == SetupError::PackSizeMismatch),
            n >= 1 && pack@.len() == 8 * n ==> (r matches Ok(g) && g.dealt_from(pack@, n as int)),
    {
        if let Err(e) = check_player_count(n) {
            return Err(e);
        }
        if let Err(e) = check_pack(n, &pack) {
            return Err(e);
        }
        let size = pack.len();
        let mut decks: Vec<Deck> = Vec::new();
        let mut players: Vec<Player> = Vec::new();
        let mut j: usize = 0;
        while j < n
            invariant
                n >= 1,
                pack@.len() == 8 * n,
                size == 8 * n,
                j <= n,
                decks@.len() == j,
                players@.len() == j,
                forall|i: int| 0 <= i < j ==> #[trigger] decks@[i].id() == i + 1,
                forall|i: int| 0 <= i < j ==> #[trigger] decks@[i]@ == dealt_deck(pack@, n as int, i),
                forall|i: int| 0 <= i < j ==> ring_player(#[trigger] players@[i], i, n as int),
                forall|i: int| 0 <= i < j ==> #[trigger] players@[i].hand@ == dealt_hand(pack@, n as int, i),
                deck_total(decks@) == 4 * j,
                hand_total(players@) == 4 * j,
            decreases n - j,
        {
            let mut deck = Deck::new(j + 1);
            let mut k: usize = 0;
            while k < 4
                invariant
                    n >= 1,
                    pack@.len() == 8 * n,
                    size == 8 * n,
                    j < n,
                    k <= 4,
                    deck.id() == j + 1,
                    deck@ == Seq::new(k as nat, |m: int| pack@[(3 + k - m) * n + j]),
                decreases 4 - k,
            {
                assert((4 + k) * n + j < 8 * n && (4 + k) * n <= 8 * n) by (nonlinear_arith)
                    requires k < 4, j < n;
                let card = pack[(4 + k) * n + j];
                deck.place_front(card);
                k = k + 1;
                assert(deck@ =~= Seq::new(k as nat, |m: int| pack@[(3 + k - m) * n + j]));
            }
            assert(deck@ =~= dealt_deck(pack@, n as int, j as int));
            let mut player = Player::new(j + 1, j, (j + 1) % n);
            let mut k: usize = 0;
            while k < 4
                invariant
                    n >= 1,
                    pack@.len() == 8 * n,
                    size == 8 * n,
                    j < n,
                    k <= 4,
                    player.number == j + 1,
                    player.draw_deck == j,
                    player.discard_deck == (j + 1) % (n as int),
                    player.hand@ == Seq::new(k as nat, |m: int| pack@[(3 - m) * n + j]),
                decreases 4 - k,
            {
                assert((3 - k) * n + j < 8 * n && (3 - k) * n <= 8 * n) by (nonlinear_arith)
                    requires k < 4, j < n;
                let card = pack[(3 - k) * n + j];
                player.hand.push(card);
                k = k + 1;
                assert(player.hand@ =~= Seq::new(k as nat, |m: int| pack@[(3 - m) * n + j]));
            }
            assert(player.hand@ =~= dealt_hand(pack@, n as int, j as int));
            proof {
                lemma_deck_total_push(decks@, deck);
                lemma_hand_total_push(players@, player);
            }
            decks.push(deck);
            players.push(player);
            j = j + 1;
        }
        Ok(Game { decks, players })
    }

    /// The decks of the ring; deck `i` (counted from zero) is numbered `i + 1`.
    pub closed spec fn decks(&self) -> Seq<Deck> {
        self.decks@
    }

    /// The players, in turn order.
    pub closed spec fn players(&self) -> Seq<Player> {
        self.players@
    }

    /// Number of players.
    pub open spec fn n(&self) -> int {
        self.players().len() as int
    }

    /// Number of cards over all decks and hands.
    pub open spec fn card_count(&self) -> nat {
        deck_total(self.decks()) + hand_total(self.players())
    }

    /// A well-formed session: at least one player, one deck per player, decks
    /// and players numbered in order round the ring, four cards in every hand,
    /// and eight cards per player in all.
    pub open spec fn wf(&self) -> bool {
        &&& self.n() >= 1
        &&& self.decks().len() == self.n()
        &&& forall|i: int| 0 <= i < self.n() ==> #[trigger] self.decks()[i].id() == i + 1
        &&& forall|i: int| 0 <= i < self.n() ==> ring_player(#[trigger] self.players()[i], i, self.n())
        &&& self.card_count() == 8 * self.n()
    }

    /// The session as the dealer leaves it for `n` players and `pack`.
    pub open spec fn dealt_from(&self, pack: Seq<Card>, n: int) -> bool {
        &&& self.wf()
        &&& self.n() == n
        &&& self.card_count() == 8 * n
        &&& forall|j: int| 0 <= j < n ==> #[trigger] self.decks()[j]@ == dealt_deck(pack, n, j)
        &&& forall|j: int| 0 <= j < n ==> #[trigger] self.players()[j].hand@ == dealt_hand(pack, n, j)
    }

    /// What one turn of player `p` (counted from zero) does from `a` to `b`,
    /// given the pick of the discard policy: with an empty draw deck nothing
    /// changes; otherwise the front card of the draw deck meets the hand, the
    /// discarded card goes to the back of the discard deck, and no other deck
    /// or player changes.
    pub open spec fn turn_step(a: Game, b: Game, p: int, pick: Option<usize>) -> bool {
        let n = a.n();
        let d = p;
        let dd = (p + 1) % n;
        let hand = a.players()[p].hand@;
        &&& b.n() == n
        &&& b.decks().len() == a.decks().len()
        &&& forall|k: int| 0 <= k < n ==> #[trigger] b.decks()[k].id() == a.decks()[k].id()
        &&& if a.decks()[d]@.len() == 0 {
            &&& forall|k: int| 0 <= k < n ==> #[trigger] b.decks()[k]@ == a.decks()[k]@
            &&& b.players() == a.players()
        } else {
            let drawn = a.decks()[d]@[0];
            let out = discarded(hand, drawn, pick);
            &&& forall|k: int|
                0 <= k < n && k != d && k != dd ==> #[trigger] b.decks()[k]@ == a.decks()[k]@
            &&& dd != d ==> b.decks()[d]@ == a.decks()[d]@.drop_first() && b.decks()[dd]@
                == a.decks()[dd]@.push(out)
            &&& dd == d ==> b.decks()[d]@ == a.decks()[d]@.drop_first().push(out)
            &&& forall|k: int| 0 <= k < n && k != p ==> #[trigger] b.players()[k] == a.players()[k]
            &&& b.players()[p].number == a.players()[p].number
            &&& b.players()[p].draw_deck == a.players()[p].draw_deck
            &&& b.players()[p].discard_deck == a.players()[p].discard_deck
            &&& b.players()[p].hand@ == kept(hand, drawn, pick)
        }
    }

    /// One turn of player `p` (counted from zero) with the discard position
    /// already chosen: draw the front card of the player's deck, or end the turn
    /// at once if it is empty; otherwise exchange it with the card at `pick`
    /// (or pass it straight on when there is no pick) and put the discarded card
    /// on the back of the discard deck.
    pub fn resolve_turn(&mut self, p: usize, pick: Option<usize>)
        requires
            old(self).wf(),
            p < old(self).n(),
            pick matches Some(i) ==> i < 4,
        ensures
            final(self).wf(),
            final(self).card_count() == old(self).card_count(),
            Game::turn_step(*old(self), *final(self), p as int, pick),
    {
        let ghost a = *self;
        let n = self.players.len();
        let d = self.players[p].draw_deck;
        let dd = self.players[p].discard_deck;
        assert(ring_player(self.players@[p as int], p as int, n as int));
        let drawn = self.decks[d].draw_front();
        match drawn {
            None => {
                proof {
                    lemma_deck_total_update(a.decks@, d as int, self.decks@[d as int]);
                    assert(self.decks@ =~= a.decks@.update(d as int, self.decks@[d as int]));
                }
            },
            Some(card) => {
                let ghost mid = self.decks@;
                proof {
                    lemma_deck_total_update(a.decks@, d as int, mid[d as int]);
                }
                let out = self.players[p].exchange(card, pick);
                proof {
                    lemma_hand_total_update(a.players@, p as int, self.players@[p as int]);
                    assert(self.players@ =~= a.players@.update(p as int, self.players@[p as int]));
                }
                let ghost before = self.decks@;
                self.decks[dd].discard_back(out);
                proof {
                    lemma_deck_total_update(before, dd as int, self.decks@[dd as int]);
                    assert(self.decks@ =~= before.update(dd as int, self.decks@[dd as int]));
                    assert(mid =~= a.decks@.update(d as int, mid[d as int]));
                }
            },
        }
        proof {
            assert forall|i: int| 0 <= i < n implies ring_player(#[trigger] self.players@[i], i, n as int) by {
                assert(ring_player(a.players@[i], i, n as int));
            }
        }
    }

    /// One turn of player `p` (counted from zero), with the card to give up
    /// picked uniformly at random among those not of the player's own rank.
    pub fn take_turn(&mut self, p: usize)
        requires
            old(self).wf(),
            p < old(self).n(),
        ensures
            final(self).wf(),
            final(self).card_count() == old(self).card_count(),
            exists|pick: Option<usize>|
                fair_pick(old(self).players()[p as int].hand@, old(self).players()[p as int].number, pick)
                && Game::turn_step(*old(self), *final(self), p as int, pick),
    {
        let pick = self.players[p].select_discard_card();
        assert(ring_player(self.players@[p as int], p as int, self.n()));
        let ghost a = *self;
        self.resolve_turn(p, pick);
        assert(fair_pick(a.players()[p as int].hand@, a.players()[p as int].number, pick));
    }

    /// One turn of the game loop for player `p` (counted from zero), taking
    /// `a` to `b`: the check before the turn finds no winning hand, and the turn
    /// is played with a pick the discard policy may make.
    pub open spec fn fair_turn(a: Game, b: Game, p: int) -> bool {
        &&& !all_same_rank(a.players()[p].hand@)
        &&& exists|pick: Option<usize>|
            fair_pick(a.players()[p].hand@, a.players()[p].number, pick) && #[trigger] Game::turn_step(
                a,
                b,
                p,
                pick,
            )
    }

    /// `b` is reached from `a` by the game loop playing `t` turns in
    /// round-robin order from player 1, with neither check of any of those
    /// turns finding a winning hand.
    pub open spec fn played(a: Game, b: Game, t: nat) -> bool
        decreases t,
    {
        if t == 0 {
            b == a
        } else {
            let p = (t - 1) % a.n();
            exists|mid: Game|
                Game::played(a, mid, (t - 1) as nat) && #[trigger] Game::fair_turn(mid, b, p)
                    && !all_same_rank(b.players()[p].hand@)
        }
    }

    /// The game loop, started on `a`, stops in `b` at turn count `t` because
    /// player `w` (counted from zero) holds a winning hand: either at the check
    /// before that player's turn, or at the check right after it.
    pub open spec fn won_at(a: Game, b: Game, t: nat, w: int) -> bool {
        ||| {
            &&& Game::played(a, b, t)
            &&& w == (t as int) % a.n()
            &&& all_same_rank(b.players()[w].hand@)
        }
        ||| {
            &&& t > 0
            &&& w == (t - 1) % a.n()
            &&& all_same_rank(b.players()[w].hand@)
            &&& exists|mid: Game|
                #[trigger] Game::played(a, mid, (t - 1) as nat) && Game::fair_turn(mid, b, w)
        }
    }

    /// The game loop, started on `a`, stops in `b` within `max` turns because
    /// player `w` (counted from zero) holds a winning hand.
    pub open spec fn won_within(a: Game, b: Game, max: nat, w: int) -> bool {
        exists|t: nat| t <= max && #[trigger] Game::won_at(a, b, t, w)
    }

    /// Runs the round-robin loop from player 1 for at most `max_turns` turns.
    /// Before and after each turn the acting player's hand is checked, and the
    /// loop stops at the first winning hand found, returning that player's
    /// number. `None` means all `max_turns` turns were played without a winner.
    pub fn play(&mut self, max_turns: usize) -> (r: Option<usize>)
        requires
            old(self).wf(),
        ensures
            final(self).wf(),
            final(self).n() == old(self).n(),
            final(self).card_count() == 8 * final(self).n(),
            r matches Some(w) ==> 1 <= w <= final(self).n() && all_same_rank(
                final(self).players()[w - 1].hand@,
            ),
            r matches Some(w) ==> Game::won_within(*old(self), *final(self), max_turns as nat, w - 1),
            r is None ==> Game::played(*old(self), *final(self), max_turns as nat),
            r is None ==> forall|k: int|
                0 <= k < final(self).n() && k <= max_turns ==> !all_same_rank(
                    #[trigger] final(self).players()[k].hand@,
                ),
            all_same_rank(old(self).players()[0].hand@) ==> r == Some(1usize) && *final(self)
                == *old(self),
    {
        let ghost start = *self;
        let n = self.players.len();
        let mut p: usize = 0;
        let mut turns: usize = 0;
        loop
            invariant
                self.wf(),
                self.n() == n,
                start == *old(self),
                start.n() == n,
                p < n,
                turns <= max_turns,
                p == (turns as int) % (n as int),
                turns < n ==> p == turns,
                Game::played(start, *self, turns as nat),
                forall|k: int|
                    0 <= k < n && (k < p || turns >= n) ==> !all_same_rank(
                        #[trigger] self.players()[k].hand@,
                    ),
                turns == 0 ==> *self == start,
                turns > 0 ==> !all_same_rank(start.players()[0].hand@),
            decreases max_turns - turns,
        {
            if self.players[p].has_winning_hand() {
                let w = p + 1;
                assert(Game::won_at(start, *self, turns as nat, w - 1));
                assert(Game::won_within(start, *self, max_turns as nat, w - 1));
                return Some(w);
            }
            if turns == max_turns {
                return None;
            }
            let ghost a = *self;
            let ghost t = turns as nat;
            self.take_turn(p);
            proof {
                let pick = choose|pick: Option<usize>|
                    fair_pick(a.players()[p as int].hand@, a.players()[p as int].number, pick)
                    && Game::turn_step(a, *self, p as int, pick);
                assert(Game::fair_turn(a, *self, p as int));
                assert forall|k: int| 0 <= k < n && k != p implies #[trigger] self.players()[k]
                    == a.players()[k] by {}
            }
            turns = turns + 1;
            assert(turns as nat == t + 1 && ((t + 1) - 1) as nat == t);
            if self.players[p].has_winning_hand() {
                let w = p + 1;
                assert(Game::played(start, a, ((t + 1) - 1) as nat));
                assert(Game::won_at(start, *self, turns as nat, w - 1));
                assert(Game::won_within(start, *self, max_turns as nat, w - 1));
                return Some(w);
            }
            proof {
                lemma_played_step(start, a, *self, t);
                assert((turns as int) % (n as int) == if p + 1 == n { 0 } else { p + 1 })
                    by (nonlinear_arith)
                    requires
                        p == (turns - 1) % (n as int),
                        p < n,
                        n >= 1,
                        turns >= 1,
                ;
            }
            p = if p + 1 == n { 0 } else { p + 1 };
        }
    }

    /// Number of players.
    pub fn player_count(&self) -> (r: usize)
        ensures
            r == self.n(),
    {
        self.players.len()
    }

    /// Deck `j` of the ring, counted from zero.
    pub fn deck(&self, j: usize) -> (r: &Deck)
        requires
            j < self.decks().len(),
        ensures
            *r == self.decks()[j as int],
    {
        &self.decks[j]
    }

    /// Player `j`, counted from zero.
    pub fn player(&self, j: usize) -> (r: &Player)
        requires
            j < self.n(),
        ensures
            *r == self.players()[j as int],
    {
        &self.players[j]
    }
}

proof fn lemma_deck_total_diff(s: Seq<Deck>, t: Seq<Deck>, k: int)
    requires
        s.len() == t.len(),
        0 <= k < s.len(),
        forall|i: int| 0 <= i < s.len() && i != k ==> #[trigger] s[i]@.len() == t[i]@.len(),
    ensures
        deck_total(s) + t[k]@.len() == deck_total(t) + s[k]@.len(),
    decreases s.len(),
{
    let last = s.len() - 1;
    assert forall|i: int| 0 <= i < last && i != k implies #[trigger] s.drop_last()[i]@.len()
        == t.drop_last()[i]@.len() by {
        assert(s[i]@.len() == t[i]@.len());
    }
    if k < last {
        assert(s[last]@.len() == t[last]@.len());
        lemma_deck_total_diff(s.drop_last(), t.drop_last(), k);
    } else {
        lemma_deck_total_same(s.drop_last(), t.drop_last());
    }
}

proof fn lemma_deck_total_same(s: Seq<Deck>, t: Seq<Deck>)
    requires
        s.len() == t.len(),
        forall|i: int| 0 <= i < s.len() ==> #[trigger] s[i]@.len() == t[i]@.len(),
    ensures
        deck_total(s) == deck_total(t),
    decreases s.len(),
{
    if s.len() > 0 {
        assert(s[s.len() - 1]@.len() == t[t.len() - 1]@.len());
        lemma_deck_total_same(s.drop_last(), t.drop_last());
    }
}

proof fn lemma_hand_total_diff(s: Seq<Player>, t: Seq<Player>, k: int)
    requires
        s.len() == t.len(),
        0 <= k < s.len(),
        forall|i: int| 0 <= i < s.len() && i != k ==> #[trigger] s[i] == t[i],
    ensures
        hand_total(s) + t[k].hand@.len() == hand_total(t) + s[k].hand@.len(),
{
    assert(t =~= s.update(k, t[k]));
    lemma_hand_total_update(s, k, t[k]);
}

/// One more turn, with neither of its checks finding a winning hand, extends
/// a run of the game loop by one turn.
proof fn lemma_played_step(a: Game, mid: Game, b: Game, t: nat)
    requires
        Game::played(a, mid, t),
        Game::fair_turn(mid, b, (t as int) % a.n()),
        !all_same_rank(b.players()[(t as int) % a.n()].hand@),
    ensures
        Game::played(a, b, t + 1),
{
    assert(((t + 1) - 1) as nat == t);
}

/// Every turn keeps the number of cards over all decks and hands, and keeps
/// every hand at four cards.
pub proof fn lemma_turn_conserves_cards(a: Game, b: Game, p: int, pick: Option<usize>)
    requires
        a.wf(),
        0 <= p < a.n(),
        pick matches Some(i) ==> i < 4,
        Game::turn_step(a, b, p, pick),
    ensures
        b.card_count() == a.card_count(),
        b.card_count() == 8 * b.n(),
        forall|k: int| 0 <= k < b.n() ==> (#[trigger] b.players()[k]).hand@.len() == 4,
{
    let n = a.n();
    let dd = (p + 1) % n;
    assert(ring_player(a.players()[p], p, n));
    if a.decks()[p]@.len() == 0 {
        lemma_deck_total_same(a.decks(), b.decks());
        assert(b.players() =~= a.players());
    } else {
        let mid = a.decks().update(p, b.decks()[p]);
        lemma_deck_total_diff(a.decks(), mid, p);
        if dd != p {
            lemma_deck_total_diff(mid, b.decks(), dd);
        } else {
            lemma_deck_total_same(mid, b.decks());
        }
        lemma_hand_total_diff(a.players(), b.players(), p);
    }
    assert forall|k: int| 0 <= k < b.n() implies (#[trigger] b.players()[k]).hand@.len() == 4 by {
        assert(ring_player(a.players()[k], k, n));
    }
}

/// With every card of the hand of the player's own rank, a turn hands the
/// drawn card straight on to the discard deck and leaves the hand as it was.
pub proof fn lemma_own_rank_hand_passes_draw(a: Game, b: Game, p: int, pick: Option<usize>)
    requires
        a.wf(),
        0 <= p < a.n(),
        all_of_rank(a.players()[p].hand@, a.players()[p].number),
        fair_pick(a.players()[p].hand@, a.players()[p].number, pick),
        Game::turn_step(a, b, p, pick),
    ensures
        b.players()[p].hand@ == a.players()[p].hand@,
        a.decks()[p]@.len() > 0 && (p + 1) % a.n() != p ==> b.decks()[(p + 1) % a.n()]@
            == a.decks()[(p + 1) % a.n()]@.push(a.decks()[p]@[0]),
        a.decks()[p]@.len() > 0 && (p + 1) % a.n() == p ==> b.decks()[p]@
            == a.decks()[p]@.drop_first().push(a.decks()[p]@[0]),
{
}

/// A turn on an empty draw deck changes no deck and no player.
pub proof fn lemma_empty_draw_deck_turn(a: Game, b: Game, p: int, pick: Option<usize>)
    requires
        a.wf(),
        0 <= p < a.n(),
        a.decks()[p]@.len() == 0,
        Game::turn_step(a, b, p, pick),
    ensures
        forall|k: int| 0 <= k < a.n() ==> #[trigger] b.decks()[k]@ == a.decks()[k]@,
        b.players() == a.players(),
{
}

/// Dealing depends on the player count and the pack alone: any two sessions
/// dealt from them hold the same decks and hands, card for card.
pub proof fn lemma_deal_is_deterministic(g1: Game, g2: Game, pack: Seq<Card>, n: int)
    requires
        g1.dealt_from(pack, n),
        g2.dealt_from(pack, n),
    ensures
        forall|j: int| 0 <= j < n ==> #[trigger] g1.decks()[j]@ == g2.decks()[j]@,
        forall|j: int| 0 <= j < n ==> #[trigger] g1.players()[j].hand@ == g2.players()[j].hand@,
        forall|j: int| 0 <= j < n ==> #[trigger] g1.players()[j].number == g2.players()[j].number,
{
    assert forall|j: int| 0 <= j < n implies #[trigger] g1.players()[j].number
        == g2.players()[j].number by {
        assert(ring_player(g1.players()[j], j, n));
        assert(ring_player(g2.players()[j], j, n));
    }
}

} // verus!
