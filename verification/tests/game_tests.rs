use oh_hell::cards::Card;
use oh_hell::game::{BiddingState, DealingMode, Game, GameEvent, MAX_PLAYER_COUNT};
use oh_hell::messages::{BiddingError, GameError, GameStageDto, TurnError};
use oh_hell::player::Turn;

#[test]
fn test_game() {
    let player1 = "P1".to_string();
    let player2 = "P2".to_string();

    let mut game = Game::new_default(vec![player1.clone(), player2.clone()]).unwrap();
    assert!(game.pile.is_empty());

    let state = game.bid(&player1, 1).unwrap();
    assert!(matches!(state, BiddingState::Active { next, possible_bids: _ } if next == player2));

    let state = game.bid(&player2, 1).unwrap();
    assert!(matches!(state, BiddingState::Ended { next } if next == player1));

    let first_played_card = game.players[&player1].deck[0];
    let first_turn = Turn { player_id: player1.clone(), card: first_played_card };

    game.deal(first_turn).unwrap();

    assert!(game.pile.len() == 1);
    assert!(game.pile.get(0).map(|(_, t)| t.card) == Some(first_played_card));

    let second_played_card = game.players[&player2].deck[0];
    let second_turn = Turn { player_id: player2.clone(), card: second_played_card };

    let state = game.deal(second_turn).unwrap();

    assert!(matches!(
        state.event,
        GameEvent::SetEnded { lifes: _, upcard: _, decks: _, next: _, possible: _ }
    ));

    assert!(state.pile.len() == 2);

    let winners_count = game.players.iter().filter(|(_, p)| p.lifes == 5).count();

    assert!(winners_count == 1);

    let state = game.bid(&player2, 2).unwrap();
    assert!(matches!(state, BiddingState::Active { next, possible_bids: _ } if next == player1));

    let state = game.bid(&player1, 2).unwrap();
    assert!(matches!(state, BiddingState::Ended { next } if next == player2));
}

#[test]
fn test_invalid_bid() {
    let player1 = "P1".to_string();
    let player2 = "P2".to_string();

    let mut game = Game::new_default(vec![player1.clone(), player2.clone()]).unwrap();

    let possible = game.get_possible_bids();
    assert_eq!(possible, vec![0, 1]);

    let state = game.bid(&player1, 1).unwrap();
    assert!(matches!(state, BiddingState::Active { next, possible_bids: _ } if next == player2));

    let result = game.bid(&player2, 0);
    assert_eq!(result, Err(BiddingError::BidOutOfRange));

    let possible = game.get_possible_bids();
    assert_eq!(possible, vec![1]);
}

#[test]
fn test_game_max_players() {
    for p in 0..MAX_PLAYER_COUNT + 3 {
        let players = (0..p).map(|i| i.to_string()).collect();
        let result = Game::new_default(players);

        match p {
            2..=MAX_PLAYER_COUNT => assert!(matches!(result, Ok(g) if g.players.len() == p)),
            0..=1 => {
                assert!(matches!(result, Err(e) if matches!(e, GameError::NotEnoughPlayers)))
            },
            _ => assert!(matches!(result, Err(e) if matches!(e, GameError::TooManyPlayers))),
        }
    }
}

#[test]
fn test_possible_bid() {
    let player1 = "P1".to_string();
    let player2 = "P2".to_string();

    let mut game = Game::new(vec![player1.clone(), player2.clone()], 2).unwrap();

    let possible = game.get_possible_bids();
    assert_eq!(possible, vec![0, 1, 2]);

    game.bid(&player1, 1).unwrap();

    let possible = game.get_possible_bids();
    assert_eq!(possible, vec![0, 2]);

    let mut game = Game::new(vec![player1.clone(), player2], 3).unwrap();

    let possible = game.get_possible_bids();
    assert_eq!(possible, vec![0, 1, 2, 3]);

    game.bid(&player1, 3).unwrap();

    let possible = game.get_possible_bids();
    assert_eq!(possible, vec![1, 2, 3]);
}

#[test]
fn test_card_mode() {
    assert_eq!(
        Game::get_new_cards_mode(DealingMode::Increasing, 1, 4),
        (DealingMode::Increasing, 2)
    );

    assert_eq!(
        Game::get_new_cards_mode(DealingMode::Decreasing, 1, 4),
        (DealingMode::Increasing, 2)
    );

    assert_eq!(
        Game::get_new_cards_mode(DealingMode::Increasing, 2, 4),
        (DealingMode::Increasing, 3)
    );

    assert_eq!(
        Game::get_new_cards_mode(DealingMode::Increasing, 7, 5),
        (DealingMode::Decreasing, 6)
    );
}

#[test]
fn test_wrong_turn_keeps_state() {
    let player1 = "P1".to_string();
    let player2 = "P2".to_string();

    let mut game = Game::new_default(vec![player1.clone(), player2.clone()]).unwrap();

    // bidding out of turn changes nothing
    let result = game.bid(&player2, 0);
    assert_eq!(result, Err(BiddingError::NotYourTurn));
    assert_eq!(game.get_possible_bids(), vec![0, 1]);

    // dealing during the bidding stage is refused
    let card = game.players[&player1].deck[0];
    let result = game.deal(Turn { player_id: player1.clone(), card });
    assert!(matches!(result, Err(TurnError::BiddingStageActive)));
}

#[test]
fn test_not_your_card() {
    let player1 = "P1".to_string();
    let player2 = "P2".to_string();

    let mut game = Game::new_default(vec![player1.clone(), player2.clone()]).unwrap();
    game.bid(&player1, 1).unwrap();
    game.bid(&player2, 1).unwrap();

    // a card that is not in the dealer's hand is refused
    let foreign = game.players[&player2].deck[0];
    let result = game.deal(Turn { player_id: player1.clone(), card: foreign });
    if foreign != game.players[&player1].deck[0] {
        assert!(matches!(result, Err(TurnError::NotYourCard)));
    }

    // an unknown player is refused
    let card = game.players[&player1].deck[0];
    let result = game.deal(Turn { player_id: "nobody".to_string(), card });
    assert!(matches!(result, Err(TurnError::InvalidPlayer)));
}

#[test]
fn test_already_bid_stage() {
    let player1 = "P1".to_string();
    let player2 = "P2".to_string();

    let mut game = Game::new_default(vec![player1.clone(), player2.clone()]).unwrap();
    game.bid(&player1, 1).unwrap();
    game.bid(&player2, 1).unwrap();

    // once the lap is done the stage is card play
    let result = game.bid(&player1, 0);
    assert_eq!(result, Err(BiddingError::DealingStageActive));
}

#[test]
fn test_game_info_after_construction() {
    let player1 = "P1".to_string();
    let player2 = "P2".to_string();

    let game = Game::new_default(vec![player1.clone(), player2.clone()]).unwrap();

    for p in [&player1, &player2] {
        let info = game.get_game_info(p);
        assert_eq!(info.deck.len(), 1);
        assert_eq!(info.current_player, player1);
        assert_eq!(info.info.len(), 2);
        assert!(matches!(info.stage, GameStageDto::Bidding { ref possible_bids } if *possible_bids == vec![0, 1]));
        assert!(info.info.iter().all(|i| i.lifes == 5 && i.bid.is_none() && i.rounds == 0));
    }
}

#[test]
fn test_full_game_runs_to_end() {
    // drive a three-player game with mismatching bids until someone wins
    let names: Vec<String> = vec!["A".into(), "B".into(), "C".into()];
    let mut game = Game::new_default(names.clone()).unwrap();
    let mut guard = 0;
    loop {
        guard += 1;
        assert!(guard < 10000, "the game should end");
        // bid zero whenever allowed, else the smallest allowed bid
        let bidder = game.get_bidding_player();
        let possible = game.get_possible_bids();
        let bid = possible[0];
        game.bid(&bidder, bid).unwrap();
        // after a full lap the stage flips to dealing: play every hand out
        let all_bid = game
            .players
            .iter()
            .filter(|(_, p)| p.lifes > 0)
            .all(|(_, p)| p.bid.is_some());
        if !all_bid {
            continue;
        }
        'dealing: loop {
            guard += 1;
            assert!(guard < 10000, "the game should end");
            let next = match game.round_iter.peek() {
                Some(i) => game.players.get_index(i).unwrap().0.clone(),
                None => panic!("a dealer should be awaited"),
            };
            let card = game.players[&next].deck[0];
            let state = game.deal(Turn { player_id: next, card }).unwrap();
            // every announced player is a living one, and the cards add up:
            // hands plus finished tricks equal the deal minus the pile
            let alive: Vec<_> = game.players.iter().filter(|(_, p)| p.lifes > 0).collect();
            let hands: usize = alive.iter().map(|(_, p)| p.deck.len()).sum();
            let tricks: usize = game.players.iter().map(|(_, p)| p.rounds).sum();
            if alive.len() >= 2 {
                assert_eq!(
                    hands + alive.len() * tricks,
                    alive.len() * game.cards_count - game.pile.len()
                );
            }
            match &state.event {
                GameEvent::TurnPlayed { next } | GameEvent::RoundEnded { next, .. } => {
                    assert!(game.players[next].lifes > 0, "a dead player was announced");
                },
                GameEvent::SetEnded { next, .. } => {
                    assert!(game.players[next].lifes > 0, "a dead player was announced");
                },
                GameEvent::Ended { .. } => {},
            }
            match state.event {
                GameEvent::Ended { winner, lifes } => {
                    // every seat is reported; only the winner keeps lifes
                    assert_eq!(lifes.len(), names.len());
                    match winner {
                        Some(w) => {
                            for (p, l) in &lifes {
                                if *p == w {
                                    assert!(*l > 0);
                                } else {
                                    assert_eq!(*l, 0);
                                }
                            }
                        },
                        None => assert!(lifes.iter().all(|(_, l)| *l == 0)),
                    }
                    return;
                },
                GameEvent::SetEnded { .. } => break 'dealing,
                _ => {},
            }
        }
    }
}
