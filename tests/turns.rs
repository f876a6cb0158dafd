use donkey::card::Card;
use donkey::game::{check_pack, check_player_count, Game, SetupError};
use donkey::player::Player;

fn cards(ranks: &[usize]) -> Vec<Card> {
    ranks.iter().map(|&r| Card(r)).collect()
}

fn player_with(number: usize, ranks: &[usize]) -> Player {
    let mut p = Player::new(number, number - 1, number % 2);
    p.hand = cards(ranks);
    p
}

fn ranks_of(cs: &[Card]) -> Vec<usize> {
    cs.iter().map(|c| c.0).collect()
}

fn count_cards(g: &Game) -> usize {
    let n = g.player_count();
    let mut total = 0;
    for j in 0..n {
        total += g.deck(j).len();
        total += g.player(j).hand.len();
    }
    total
}

#[test]
fn mixed_hand_does_not_win() {
    assert!(!player_with(1, &[1, 2, 1, 1]).has_winning_hand());
}

#[test]
fn four_of_a_kind_wins() {
    assert!(player_with(1, &[3, 3, 3, 3]).has_winning_hand());
}

#[test]
fn single_card_hand_wins() {
    assert!(player_with(1, &[7]).has_winning_hand());
}

#[test]
fn last_card_different_does_not_win() {
    assert!(!player_with(2, &[4, 4, 4, 5]).has_winning_hand());
}

#[test]
fn candidates_skip_own_rank() {
    let p = player_with(1, &[1, 2, 1, 3]);
    assert_eq!(ranks_of(&p.discard_candidates()), vec![2, 3]);
}

#[test]
fn discard_position_finds_first_match() {
    let p = player_with(1, &[1, 2, 2, 3]);
    assert_eq!(p.discard_position(Some(Card(2))), Some(1));
    assert_eq!(p.discard_position(Some(Card(3))), Some(3));
    assert_eq!(p.discard_position(Some(Card(9))), None);
    assert_eq!(p.discard_position(None), None);
}

#[test]
fn random_pick_is_never_own_rank() {
    let p = player_with(2, &[2, 5, 2, 7]);
    for _ in 0..50 {
        let i = p.select_discard_card().expect("a candidate exists");
        assert!(i == 1 || i == 3);
    }
}

#[test]
fn random_pick_of_single_candidate() {
    let p = player_with(1, &[1, 1, 4, 1]);
    for _ in 0..20 {
        assert_eq!(p.select_discard_card(), Some(2));
    }
}

#[test]
fn own_rank_hand_passes_draw_on() {
    let mut p = player_with(2, &[2, 2, 2, 2]);
    let pick = p.select_discard_card();
    assert_eq!(pick, None);
    let out = p.exchange(Card(9), pick);
    assert_eq!(out, Card(9));
    assert_eq!(ranks_of(&p.hand), vec![2, 2, 2, 2]);
}

#[test]
fn exchange_swaps_picked_card() {
    let mut p = player_with(1, &[1, 5, 1, 6]);
    let out = p.exchange(Card(1), Some(1));
    assert_eq!(out, Card(5));
    assert_eq!(ranks_of(&p.hand), vec![1, 1, 6, 1]);
}

#[test]
fn deal_two_players_sixteen_cards() {
    let pack = cards(&(1..=16).collect::<Vec<usize>>());
    let g = Game::deal(2, pack).expect("valid pack");
    assert_eq!(g.player_count(), 2);
    assert_eq!(ranks_of(&g.deck(0).to_vec()), vec![15, 13, 11, 9]);
    assert_eq!(ranks_of(&g.deck(1).to_vec()), vec![16, 14, 12, 10]);
    assert_eq!(ranks_of(&g.player(0).hand), vec![7, 5, 3, 1]);
    assert_eq!(ranks_of(&g.player(1).hand), vec![8, 6, 4, 2]);
    assert_eq!(g.deck(0).number(), 1);
    assert_eq!(g.deck(1).number(), 2);
    assert_eq!(g.player(0).number, 1);
    assert_eq!(g.player(0).draw_deck, 0);
    assert_eq!(g.player(0).discard_deck, 1);
    assert_eq!(g.player(1).number, 2);
    assert_eq!(g.player(1).draw_deck, 1);
    assert_eq!(g.player(1).discard_deck, 0);
}

#[test]
fn deal_three_players() {
    let pack = cards(&(0..24).collect::<Vec<usize>>());
    let g = Game::deal(3, pack).expect("valid pack");
    assert_eq!(ranks_of(&g.deck(0).to_vec()), vec![21, 18, 15, 12]);
    assert_eq!(ranks_of(&g.deck(2).to_vec()), vec![23, 20, 17, 14]);
    assert_eq!(ranks_of(&g.player(1).hand), vec![10, 7, 4, 1]);
    assert_eq!(g.player(2).discard_deck, 0);
}

#[test]
fn deal_is_reproducible() {
    let ranks: Vec<usize> = vec![4, 9, 1, 1, 7, 3, 3, 8, 2, 6, 5, 5, 0, 9, 2, 4];
    let a = Game::deal(2, cards(&ranks)).unwrap();
    let b = Game::deal(2, cards(&ranks)).unwrap();
    for j in 0..2 {
        assert_eq!(a.deck(j).to_vec(), b.deck(j).to_vec());
        assert_eq!(a.player(j).hand, b.player(j).hand);
    }
}

#[test]
fn deal_rejects_zero_players() {
    assert_eq!(Game::deal(0, Vec::new()).err(), Some(SetupError::InvalidPlayerCount));
}

#[test]
fn deal_rejects_short_pack() {
    let pack = cards(&(1..=15).collect::<Vec<usize>>());
    assert_eq!(Game::deal(2, pack).err(), Some(SetupError::PackSizeMismatch));
}

#[test]
fn player_count_check() {
    assert_eq!(check_player_count(0), Err(SetupError::InvalidPlayerCount));
    assert_eq!(check_player_count(3), Ok(3));
}

#[test]
fn pack_size_check() {
    assert_eq!(check_pack(1, &cards(&[1; 8])), Ok(()));
    assert_eq!(check_pack(1, &cards(&[1; 9])), Err(SetupError::PackSizeMismatch));
    assert_eq!(check_pack(2, &cards(&[1; 8])), Err(SetupError::PackSizeMismatch));
}

#[test]
fn resolve_turn_moves_cards_round_ring() {
    let pack = cards(&(1..=16).collect::<Vec<usize>>());
    let mut g = Game::deal(2, pack).unwrap();
    g.resolve_turn(0, Some(1));
    assert_eq!(ranks_of(&g.player(0).hand), vec![7, 3, 1, 15]);
    assert_eq!(ranks_of(&g.deck(0).to_vec()), vec![13, 11, 9]);
    assert_eq!(ranks_of(&g.deck(1).to_vec()), vec![16, 14, 12, 10, 5]);
    g.resolve_turn(1, None);
    assert_eq!(ranks_of(&g.player(1).hand), vec![8, 6, 4, 2]);
    assert_eq!(ranks_of(&g.deck(1).to_vec()), vec![14, 12, 10, 5]);
    assert_eq!(ranks_of(&g.deck(0).to_vec()), vec![13, 11, 9, 16]);
}

#[test]
fn empty_draw_deck_turn_changes_nothing() {
    let pack = cards(&(1..=16).collect::<Vec<usize>>());
    let mut g = Game::deal(2, pack).unwrap();
    for _ in 0..4 {
        g.take_turn(0);
    }
    assert_eq!(g.deck(0).len(), 0);
    let hand = g.player(0).hand.clone();
    let other = g.deck(1).to_vec();
    g.take_turn(0);
    assert_eq!(g.deck(0).len(), 0);
    assert_eq!(g.deck(1).to_vec(), other);
    assert_eq!(g.player(0).hand, hand);
}

#[test]
fn own_rank_hand_in_game_passes_draw() {
    // Player 1 holds four 1s, deck 1 starts with 9 on its front.
    let ranks: Vec<usize> = vec![1, 2, 1, 3, 1, 4, 1, 5, 6, 7, 6, 7, 6, 7, 9, 7];
    let mut g = Game::deal(2, cards(&ranks)).unwrap();
    assert_eq!(ranks_of(&g.player(0).hand), vec![1, 1, 1, 1]);
    g.take_turn(0);
    assert_eq!(ranks_of(&g.player(0).hand), vec![1, 1, 1, 1]);
    assert_eq!(ranks_of(&g.deck(1).to_vec()), vec![7, 7, 7, 7, 9]);
}

#[test]
fn cards_and_hand_sizes_are_conserved() {
    let pack = cards(&(1..=24).map(|r| r % 5).collect::<Vec<usize>>());
    let mut g = Game::deal(3, pack).unwrap();
    assert_eq!(count_cards(&g), 24);
    for t in 0..60 {
        g.take_turn(t % 3);
        assert_eq!(count_cards(&g), 24);
        for j in 0..3 {
            assert_eq!(g.player(j).hand.len(), 4);
        }
    }
}

#[test]
fn play_stops_at_once_on_dealt_winner() {
    let ranks: Vec<usize> = vec![5, 6, 5, 6, 5, 6, 5, 6, 1, 2, 3, 4, 1, 2, 3, 4];
    let mut g = Game::deal(2, cards(&ranks)).unwrap();
    assert_eq!(g.play(100), Some(1));
    assert_eq!(ranks_of(&g.deck(0).to_vec()), vec![3, 1, 3, 1]);
    assert_eq!(ranks_of(&g.player(0).hand), vec![5, 5, 5, 5]);
}

#[test]
fn play_finds_winner_after_one_turn() {
    // Player 1 holds 1, 1, 1, 8 and draws a 1 first.
    let ranks: Vec<usize> = vec![8, 2, 1, 3, 1, 4, 1, 5, 6, 7, 6, 7, 6, 7, 1, 7];
    let mut g = Game::deal(2, cards(&ranks)).unwrap();
    assert_eq!(g.play(10), Some(1));
    assert_eq!(ranks_of(&g.player(0).hand), vec![1, 1, 1, 1]);
    assert_eq!(ranks_of(&g.deck(1).to_vec()), vec![7, 7, 7, 7, 8]);
}

#[test]
fn play_stops_at_turn_cap_without_winner() {
    let pack = cards(&(1..=16).collect::<Vec<usize>>());
    let mut g = Game::deal(2, pack).unwrap();
    assert_eq!(g.play(50), None);
    assert_eq!(count_cards(&g), 16);
}

#[test]
fn play_with_zero_cap_only_checks() {
    let pack = cards(&(1..=16).collect::<Vec<usize>>());
    let mut g = Game::deal(2, pack).unwrap();
    assert_eq!(g.play(0), None);
    assert_eq!(ranks_of(&g.player(0).hand), vec![7, 5, 3, 1]);
}

#[test]
fn single_player_discards_to_own_deck() {
    let ranks: Vec<usize> = vec![1, 1, 1, 1, 2, 3, 4, 5];
    let mut g = Game::deal(1, cards(&ranks)).unwrap();
    assert_eq!(g.play(5), Some(1));
    let mut g = Game::deal(1, cards(&[2, 3, 4, 5, 6, 7, 8, 9])).unwrap();
    assert_eq!(ranks_of(&g.deck(0).to_vec()), vec![9, 8, 7, 6]);
    g.take_turn(0);
    assert_eq!(g.deck(0).len(), 4);
    assert_eq!(g.player(0).hand.len(), 4);
}
