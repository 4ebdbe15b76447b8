use degen_decks::card::{full_deck, Card};
use degen_decks::errors::GameErrors;
use degen_decks::game::{Game, Identity, Payout, Player};
use degen_decks::shuffle::{seed_from_randomness, shuffle_cards};

fn id(n: u8) -> Identity {
    [n; 32]
}

fn c(suit: u8, rank: u8) -> Card {
    Card::new(suit, rank)
}

/// A running game whose seat `i + 1` holds `hands[i]`, with the turn on seat `turn`.
fn running(hands: Vec<Vec<Card>>, call: Card, pile: Vec<Card>, turn: u8) -> Game {
    let n = hands.len() as u8;
    let mut g = Game::initialize_game(id(100), 1, 10, n, 60, id(200), 1_000).unwrap();
    for (i, h) in hands.into_iter().enumerate() {
        g.players.push(Player {
            owner: id(i as u8 + 1),
            username: format!("p{}", i + 1),
            hand: Some(h),
            player_index: Some(i as u8 + 1),
            card_count: None,
            claimed: false,
        });
    }
    g.call_card = Some(call);
    g.draw_pile = Some(pile);
    g.started = true;
    g.started_at = Some(1_000);
    g.last_move_time = Some(1_000);
    g.player_turn = turn;
    g
}

fn joined_game(n: u8) -> Game {
    let mut g = Game::initialize_game(id(1), 42, 10, n, 60, id(200), 1_000).unwrap();
    for i in 0..n {
        g.join_game(id(i + 1), format!("p{}", i + 1), 10, true).unwrap();
    }
    g
}

#[test]
fn deal_two_players_scenario() {
    let mut g = joined_game(2);
    assert!(g.is_full());
    g.consume_randomness(&[7u8; 32], 2_000).unwrap();
    assert!(g.started);
    assert_eq!(g.player_turn, 1);
    for (i, p) in g.players.iter().enumerate() {
        assert_eq!(p.hand.as_ref().unwrap().len(), 5);
        assert_eq!(p.player_index, Some(i as u8 + 1));
    }
    assert_eq!(g.draw_pile.as_ref().unwrap().len(), 43);
    assert!(g.call_card.is_some());
    assert_eq!(g.started_at, Some(2_000));
    assert_eq!(g.last_move_time, Some(2_000));
}

#[test]
fn deal_keeps_block_order() {
    let mut g = joined_game(3);
    let deck = full_deck();
    g.deal(&deck, 9, 5).unwrap();
    assert_eq!(g.players[0].hand.as_ref().unwrap(), &deck[0..5].to_vec());
    assert_eq!(g.players[1].hand.as_ref().unwrap(), &deck[5..10].to_vec());
    assert_eq!(g.players[2].hand.as_ref().unwrap(), &deck[10..15].to_vec());
    assert_eq!(g.call_card, Some(deck[15]));
    assert_eq!(g.draw_pile.as_ref().unwrap(), &deck[16..].to_vec());
    assert_eq!(g.random_seed, Some(9));
}

#[test]
fn deal_twice_is_refused() {
    let mut g = joined_game(2);
    g.deal(&full_deck(), 1, 5).unwrap();
    let before = g.clone();
    assert_eq!(g.deal(&full_deck(), 1, 6), Err(GameErrors::GameAlreadyStarted));
    assert_eq!(g, before);
}

#[test]
fn deal_before_roster_full_is_refused() {
    let mut g = Game::initialize_game(id(1), 42, 10, 3, 60, id(200), 0).unwrap();
    g.join_game(id(1), "a".to_string(), 10, true).unwrap();
    assert_eq!(g.deal(&full_deck(), 1, 5), Err(GameErrors::InvalidGameState));
}

#[test]
fn full_deck_has_fifty_four_cards() {
    let d = full_deck();
    assert_eq!(d.len(), 54);
    assert_eq!(d[0], c(1, 20));
    assert_eq!(d[5], c(2, 1));
    assert_eq!(d[53], c(6, 8));
    assert_eq!(d.iter().filter(|x| x.id == 1).count(), 5);
    assert_eq!(d.iter().filter(|x| x.id == 4).count(), 9);
}

#[test]
fn shuffle_is_deterministic() {
    assert_eq!(shuffle_cards(12345), shuffle_cards(12345));
    assert_ne!(shuffle_cards(12345), shuffle_cards(12346));
}

#[test]
fn shuffle_permutes_the_deck() {
    let s = shuffle_cards(99);
    assert_ne!(s, full_deck());
    let mut a = s.clone();
    let mut b = full_deck();
    a.sort_by_key(|x| (x.id, x.card_number));
    b.sort_by_key(|x| (x.id, x.card_number));
    assert_eq!(a, b);
}

#[test]
fn seed_reads_every_fourth_byte() {
    let mut r = [0u8; 32];
    r[0] = 1;
    r[4] = 2;
    r[1] = 0xff;
    r[28] = 0x80;
    assert_eq!(seed_from_randomness(&r), 0x8000_0000_0000_0201);
}

#[test]
fn rank_match_plays_hold_on() {
    // current player plays a card that shares only the rank of the call card
    let mut g = running(
        vec![vec![c(3, 1), c(2, 7)], vec![c(4, 3), c(5, 3)]],
        c(2, 1),
        vec![c(4, 5), c(4, 7)],
        1,
    );
    g.play_card(&id(1), c(3, 1), 1_010).unwrap();
    assert_eq!(g.call_card, Some(c(3, 1)));
    assert_eq!(g.player_turn, 1);
    assert_eq!(g.players[0].hand.as_ref().unwrap(), &vec![c(2, 7)]);
    assert_eq!(g.last_move_time, Some(1_010));
}

#[test]
fn general_market_runs_out_of_cards() {
    let mut g = running(
        vec![vec![c(2, 14), c(2, 3)], vec![c(4, 3)], vec![c(4, 5)], vec![c(4, 7)]],
        c(2, 10),
        vec![c(5, 1), c(5, 2)],
        1,
    );
    g.play_card(&id(1), c(2, 14), 1_010).unwrap();
    // the pile ran out: the market finished and the game ended
    assert_eq!(g.players[1].hand.as_ref().unwrap(), &vec![c(4, 3), c(5, 2)]);
    assert_eq!(g.players[2].hand.as_ref().unwrap(), &vec![c(4, 5), c(5, 1)]);
    assert_eq!(g.players[3].hand.as_ref().unwrap(), &vec![c(4, 7)]);
    assert!(g.ended);
}

#[test]
fn general_market_keeps_turn() {
    let mut g = running(
        vec![vec![c(2, 14), c(2, 3)], vec![c(4, 3)], vec![c(4, 5)], vec![c(4, 7)]],
        c(2, 10),
        vec![c(5, 1), c(5, 2), c(5, 3), c(5, 4)],
        1,
    );
    g.play_card(&id(1), c(2, 14), 1_010).unwrap();
    assert!(!g.ended);
    assert_eq!(g.player_turn, 1);
    assert_eq!(g.players[1].hand.as_ref().unwrap(), &vec![c(4, 3), c(5, 4)]);
    assert_eq!(g.players[2].hand.as_ref().unwrap(), &vec![c(4, 5), c(5, 3)]);
    assert_eq!(g.players[3].hand.as_ref().unwrap(), &vec![c(4, 7), c(5, 2)]);
    assert_eq!(g.draw_pile.as_ref().unwrap(), &vec![c(5, 1)]);
}

#[test]
fn general_market_wraps_round_table() {
    let mut g = running(
        vec![vec![c(4, 3)], vec![c(4, 5)], vec![c(2, 14), c(2, 3)]],
        c(2, 10),
        vec![c(5, 1), c(5, 2), c(5, 3), c(5, 4)],
        3,
    );
    g.play_card(&id(3), c(2, 14), 1_010).unwrap();
    assert_eq!(g.players[0].hand.as_ref().unwrap(), &vec![c(4, 3), c(5, 4)]);
    assert_eq!(g.players[1].hand.as_ref().unwrap(), &vec![c(4, 5), c(5, 3)]);
    assert_eq!(g.player_turn, 3);
    assert_eq!(g.draw_pile.as_ref().unwrap(), &vec![c(5, 1), c(5, 2)]);
}

#[test]
fn penalty_at_window_boundary_is_noop() {
    let mut g = running(
        vec![vec![c(2, 3)], vec![c(4, 3)]],
        c(2, 10),
        vec![c(5, 1), c(5, 2)],
        1,
    );
    let before = g.clone();
    g.penalize_opponent(&id(2), 1_060).unwrap();
    assert_eq!(g, before);
}

#[test]
fn penalty_after_window_draws_and_passes() {
    let mut g = running(
        vec![vec![c(2, 3)], vec![c(4, 3)]],
        c(2, 10),
        vec![c(5, 1), c(5, 2)],
        1,
    );
    g.penalize_opponent(&id(2), 1_061).unwrap();
    assert_eq!(g.players[0].hand.as_ref().unwrap(), &vec![c(2, 3), c(5, 2)]);
    assert_eq!(g.player_turn, 2);
    assert_eq!(g.last_move_time, Some(1_061));
}

#[test]
fn penalty_on_empty_pile_finishes_market() {
    let mut g = running(vec![vec![c(2, 3)], vec![c(4, 5)]], c(2, 10), vec![], 1);
    g.penalize_opponent(&id(2), 2_000).unwrap();
    assert!(g.ended);
    assert_eq!(g.winner, Some(id(1)));
    assert_eq!(g.player_turn, 0);
}

#[test]
fn self_penalty_is_refused() {
    let mut g = running(vec![vec![c(2, 3)], vec![c(4, 3)]], c(2, 10), vec![c(5, 1)], 1);
    let before = g.clone();
    assert_eq!(g.penalize_opponent(&id(1), 5_000), Err(GameErrors::CannotPenalizeYourself));
    assert_eq!(g, before);
}

#[test]
fn empty_hand_wins() {
    let mut g = running(
        vec![vec![c(2, 3)], vec![c(6, 4), c(3, 5)]],
        c(2, 10),
        vec![c(5, 1), c(5, 2)],
        1,
    );
    g.play_card(&id(1), c(2, 3), 1_100).unwrap();
    assert!(g.ended);
    assert_eq!(g.winner, Some(id(1)));
    assert_eq!(g.player_turn, 0);
    assert_eq!(g.ended_at, Some(1_100));
    assert_eq!(g.players[0].card_count, Some(0));
    assert_eq!(g.players[1].card_count, Some(13));
}

#[test]
fn tie_at_market_finish_has_no_winner() {
    let mut g = running(
        vec![vec![c(2, 3), c(2, 4)], vec![c(4, 7)], vec![c(3, 7)]],
        c(2, 10),
        vec![c(5, 1)],
        1,
    );
    g.draw_from_pile(&id(1), 1_100).unwrap();
    assert!(g.ended);
    assert_eq!(g.winner, None);
    assert_eq!(g.player_turn, 0);
    assert_eq!(g.players[0].card_count, Some(8));
    assert_eq!(g.players[1].card_count, Some(7));
    assert_eq!(g.players[2].card_count, Some(7));
}

#[test]
fn sole_lowest_wins_market_finish() {
    let mut g = running(vec![vec![c(2, 3)], vec![c(4, 7)]], c(2, 10), vec![c(5, 1)], 2);
    g.draw_from_pile(&id(2), 1_100).unwrap();
    assert!(g.ended);
    assert_eq!(g.winner, Some(id(1)));
}

#[test]
fn check_winner_is_idempotent() {
    let mut g = running(vec![vec![c(2, 3)], vec![c(4, 7)]], c(2, 10), vec![], 1);
    g.check_winner(3_000);
    assert!(g.ended);
    let after = g.clone();
    g.check_winner(4_000);
    assert_eq!(g, after);
    assert_eq!(g.ended_at, Some(3_000));
}

#[test]
fn pick_two_next_seat_draws_and_is_skipped() {
    let mut g = running(
        vec![vec![c(2, 2), c(2, 3)], vec![c(4, 3)], vec![c(4, 5)]],
        c(2, 10),
        vec![c(5, 1), c(5, 2), c(5, 3)],
        1,
    );
    g.play_card(&id(1), c(2, 2), 1_010).unwrap();
    assert_eq!(g.players[1].hand.as_ref().unwrap(), &vec![c(4, 3), c(5, 3), c(5, 2)]);
    assert_eq!(g.player_turn, 3);
}

#[test]
fn pick_three_with_short_pile() {
    let mut g = running(
        vec![vec![c(2, 5), c(2, 3)], vec![c(4, 3)]],
        c(3, 5),
        vec![c(5, 1), c(5, 2)],
        2,
    );
    // seat 2 is not on turn
    assert_eq!(g.play_card(&id(1), c(2, 5), 1_010), Err(GameErrors::NotYourTurn));
    g.player_turn = 1;
    g.play_card(&id(1), c(2, 5), 1_010).unwrap();
    assert_eq!(g.players[1].hand.as_ref().unwrap(), &vec![c(4, 3), c(5, 2), c(5, 1)]);
    assert!(g.ended);
}

#[test]
fn suspension_skips_a_seat() {
    let mut g = running(
        vec![vec![c(2, 8), c(2, 3)], vec![c(4, 3)], vec![c(4, 5)]],
        c(2, 10),
        vec![c(5, 1)],
        1,
    );
    g.play_card(&id(1), c(2, 8), 1_010).unwrap();
    assert_eq!(g.player_turn, 3);
}

#[test]
fn neutral_card_passes_turn_and_need_holds_it() {
    let mut g = running(
        vec![vec![c(2, 7), c(1, 20), c(2, 3)], vec![c(4, 3)]],
        c(2, 10),
        vec![c(5, 1)],
        1,
    );
    g.play_card(&id(1), c(2, 7), 1_010).unwrap();
    assert_eq!(g.player_turn, 2);
    let mut g = running(
        vec![vec![c(2, 7), c(1, 20), c(2, 3)], vec![c(4, 3)]],
        c(1, 20),
        vec![c(5, 1)],
        1,
    );
    g.play_card(&id(1), c(1, 20), 1_010).unwrap();
    assert_eq!(g.player_turn, 1);
}

#[test]
fn duplicate_cards_leave_one_at_a_time() {
    let mut g = running(
        vec![vec![c(1, 20), c(1, 20), c(2, 3)], vec![c(4, 3)]],
        c(1, 20),
        vec![c(5, 1)],
        1,
    );
    g.play_card(&id(1), c(1, 20), 1_010).unwrap();
    assert_eq!(g.players[0].hand.as_ref().unwrap(), &vec![c(1, 20), c(2, 3)]);
}

#[test]
fn illegal_play_changes_nothing() {
    let mut g = running(
        vec![vec![c(3, 4), c(2, 3)], vec![c(4, 3)]],
        c(2, 10),
        vec![c(5, 1)],
        1,
    );
    let before = g.clone();
    assert_eq!(g.play_card(&id(1), c(3, 4), 1_010), Err(GameErrors::CannotPlayCard));
    assert_eq!(g.play_card(&id(1), c(2, 9), 1_010), Err(GameErrors::CannotPlayCard));
    assert_eq!(g.play_card(&id(9), c(2, 3), 1_010), Err(GameErrors::PlayerNotFound));
    assert_eq!(g.play_card(&id(2), c(4, 3), 1_010), Err(GameErrors::NotYourTurn));
    assert_eq!(g, before);
}

#[test]
fn moves_after_end_are_refused() {
    let mut g = running(vec![vec![c(2, 3)], vec![c(4, 3)]], c(2, 10), vec![c(5, 1)], 1);
    g.play_card(&id(1), c(2, 3), 1_010).unwrap();
    assert!(g.ended);
    assert_eq!(g.draw_from_pile(&id(1), 1_020), Err(GameErrors::NotYourTurn));
    g.player_turn = 1;
    assert_eq!(g.draw_from_pile(&id(1), 1_020), Err(GameErrors::GameEnded));
}

#[test]
fn moves_before_start_are_refused() {
    let mut g = joined_game(2);
    assert_eq!(g.draw_from_pile(&id(1), 10), Err(GameErrors::NotYourTurn));
    assert_eq!(g.penalize_opponent(&id(1), 10), Err(GameErrors::GameNotStarted));
}

#[test]
fn draw_moves_top_card() {
    let mut g = running(vec![vec![c(2, 3)], vec![c(4, 3)]], c(2, 10), vec![c(5, 1), c(5, 2)], 2);
    g.draw_from_pile(&id(2), 1_500).unwrap();
    assert_eq!(g.players[1].hand.as_ref().unwrap(), &vec![c(4, 3), c(5, 2)]);
    assert_eq!(g.draw_pile.as_ref().unwrap(), &vec![c(5, 1)]);
    assert_eq!(g.player_turn, 1);
    assert_eq!(g.last_move_time, Some(1_500));
}

#[test]
fn broken_state_is_reported() {
    let mut g = running(vec![vec![c(2, 3)], vec![c(4, 3)]], c(2, 10), vec![c(5, 1)], 1);
    g.call_card = None;
    assert_eq!(g.draw_from_pile(&id(1), 1), Err(GameErrors::NoCallCard));
    g.call_card = Some(c(2, 10));
    g.draw_pile = None;
    assert_eq!(g.draw_from_pile(&id(1), 1), Err(GameErrors::NoDrawPile));
    g.draw_pile = Some(vec![]);
    assert_eq!(g.draw_from_pile(&id(1), 1), Err(GameErrors::NoDrawPile));
    g.draw_pile = Some(vec![c(5, 1)]);
    g.players[1].hand = None;
    assert_eq!(g.draw_from_pile(&id(1), 1), Err(GameErrors::InvalidGameState));
}

#[test]
fn scores_double_star_and_saturate() {
    let mut g = running(
        vec![vec![c(2, 3)], vec![c(6, 8), c(2, 14)], vec![c(1, 20); 13]],
        c(2, 10),
        vec![c(5, 1)],
        1,
    );
    g.handle_count_cards();
    assert_eq!(g.players[1].card_count, Some(30));
    assert_eq!(g.players[2].card_count, Some(255));
}

#[test]
fn create_game_checks_settings() {
    assert_eq!(Game::initialize_game(id(1), 1, 10, 1, 60, id(2), 0).err(), Some(GameErrors::InvalidNoPlayers));
    assert_eq!(Game::initialize_game(id(1), 1, 10, 6, 60, id(2), 0).err(), Some(GameErrors::InvalidNoPlayers));
    assert_eq!(Game::initialize_game(id(1), 1, 10, 2, 29, id(2), 0).err(), Some(GameErrors::InvalidWaitTimeRange));
    assert_eq!(Game::initialize_game(id(1), 1, 10, 2, 121, id(2), 0).err(), Some(GameErrors::InvalidWaitTimeRange));
    let g = Game::initialize_game(id(1), 1, 10, 5, 120, id(2), 77).unwrap();
    assert_eq!(g.players.len(), 0);
    assert!(!g.started && !g.ended);
    assert_eq!(g.created_at, 77);
}

#[test]
fn join_checks_roster_and_funds() {
    let mut g = Game::initialize_game(id(1), 1, 10, 2, 60, id(2), 0).unwrap();
    assert_eq!(g.join_game(id(1), "a".to_string(), 9, true), Err(GameErrors::InsufficientFunds));
    assert_eq!(g.join_game(id(1), "a".to_string(), 10, false), Err(GameErrors::InvalidMint));
    g.join_game(id(1), "a".to_string(), 10, true).unwrap();
    g.join_game(id(2), "b".to_string(), 10, true).unwrap();
    assert_eq!(g.join_game(id(3), "c".to_string(), 10, true), Err(GameErrors::PlayersAlreadyComplete));
    assert_eq!(g.players[1].username, "b");
    assert_eq!(g.players[1].hand, None);
}

#[test]
fn exit_by_owner_ends_game() {
    let mut g = joined_game(3);
    assert_eq!(g.exit_game(&id(9), 100), Err(GameErrors::PlayerNotFound));
    assert_eq!(g.exit_game(&id(2), 5), Err(GameErrors::InsufficientFunds));
    g.exit_game(&id(2), 30).unwrap();
    assert_eq!(g.players.len(), 2);
    assert!(!g.ended);
    g.exit_game(&id(1), 30).unwrap();
    assert!(g.ended);
    assert_eq!(g.winner, None);
    assert_eq!(g.players.len(), 1);
}

#[test]
fn claim_pays_winner_less_fee() {
    let mut g = running(vec![vec![c(2, 3)], vec![c(4, 3)]], c(2, 10), vec![c(5, 1)], 1);
    assert_eq!(g.claim_prize(&id(1), 1_000, 250, true), Err(GameErrors::GameNotEnded));
    g.play_card(&id(1), c(2, 3), 1_010).unwrap();
    assert_eq!(g.claim_prize(&id(2), 1_000, 250, true), Err(GameErrors::YouAreNotWinner));
    assert_eq!(g.claim_prize(&id(1), 1_000, 250, false), Err(GameErrors::InvalidAuthority));
    assert_eq!(g.claim_prize(&id(1), 1_000, 250, true), Ok(Payout { amount: 975, fee: 25 }));
    assert!(g.players[0].claimed);
    assert_eq!(g.claim_prize(&id(1), 1_000, 250, true), Err(GameErrors::AlreadyClaimed));
}

#[test]
fn claim_after_tie_refunds_stake() {
    let mut g = running(vec![vec![c(2, 3)], vec![c(4, 3)]], c(2, 10), vec![], 1);
    g.check_winner(10);
    assert_eq!(g.winner, None);
    assert_eq!(g.claim_prize(&id(2), 1_000, 250, true), Ok(Payout { amount: 10, fee: 0 }));
}

#[test]
fn error_messages() {
    assert_eq!(GameErrors::NotYourTurn.message(), "Not your turn");
    assert_eq!(GameErrors::CannotPlayCard.message(), "Cannot play this card");
}
