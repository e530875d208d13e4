use oh_hell::manager::{LobbyState, Manager, Outbound};
use oh_hell::messages::{
    AnonymousUserClaims, BiddingError, GameError, LobbyError, ManagerError, ServerMessage,
    UserClaims,
};

fn claims(id: &str) -> UserClaims {
    UserClaims::Anonymous(AnonymousUserClaims {
        id: id.to_string(),
        picture: "p.jpg".to_string(),
        name: id.to_string(),
    })
}

#[test]
fn test_create_and_list_lobbies() {
    let mut m = Manager::new();
    let id = m.create_lobby("A".to_string());
    assert_eq!(id, "A");
    let lobbies = m.get_lobbies();
    assert_eq!(lobbies.len(), 1);
    assert_eq!(lobbies[0].id, "A");
    assert_eq!(lobbies[0].player_count, 0);
}

#[test]
fn test_join_unknown_lobby() {
    let mut m = Manager::new();
    let (r, out) = m.join_lobby("missing".to_string(), claims("A"));
    assert_eq!(r, Err(LobbyError::InvalidLobby));
    assert!(out.is_empty());
}

#[test]
fn test_join_broadcasts_to_members() {
    let mut m = Manager::new();
    m.create_lobby("A".to_string());
    let (r, out) = m.join_lobby("A".to_string(), claims("A"));
    let (statuses, reconnect) = r.unwrap();
    assert_eq!(statuses.len(), 1);
    assert!(!reconnect);
    assert_eq!(out.len(), 1);
    match &out[0] {
        Outbound::Broadcast { to, msg } => {
            assert_eq!(to, &vec!["A".to_string()]);
            assert!(matches!(msg, ServerMessage::PlayerJoined(_)));
        },
        _ => panic!("expected a broadcast"),
    }

    let (r, _) = m.join_lobby("A".to_string(), claims("B"));
    let (statuses, _) = r.unwrap();
    assert_eq!(statuses.len(), 2);
}

#[test]
fn test_ready_starts_game_with_one_deck_each() {
    let mut m = Manager::new();
    m.create_lobby("A".to_string());
    m.join_lobby("A".to_string(), claims("A")).0.unwrap();
    m.join_lobby("A".to_string(), claims("B")).0.unwrap();

    let (r, out) = m.player_status_change("A".to_string(), true);
    r.unwrap();
    assert_eq!(out.len(), 1);

    let (r, out) = m.player_status_change("B".to_string(), true);
    r.unwrap();
    // status change, set start, two private decks, first bidding turn
    assert_eq!(out.len(), 5);
    assert!(matches!(&out[0], Outbound::Broadcast { msg: ServerMessage::PlayerStatusChange { .. }, .. }));
    assert!(matches!(&out[1], Outbound::Broadcast { msg: ServerMessage::SetStart { .. }, .. }));
    let mut deck_receivers = Vec::new();
    for o in &out {
        if let Outbound::Unicast { to, msg: ServerMessage::PlayerDeck(cards) } = o {
            assert_eq!(cards.len(), 1);
            deck_receivers.push(to.clone());
        }
    }
    deck_receivers.sort();
    assert_eq!(deck_receivers, vec!["A".to_string(), "B".to_string()]);
    assert!(matches!(&out[4], Outbound::Broadcast { msg: ServerMessage::PlayerBiddingTurn { .. }, .. }));
}

#[test]
fn test_status_change_before_start_only() {
    let mut m = Manager::new();
    m.create_lobby("A".to_string());
    m.join_lobby("A".to_string(), claims("A")).0.unwrap();
    m.join_lobby("A".to_string(), claims("B")).0.unwrap();
    m.player_status_change("A".to_string(), true).0.unwrap();
    m.player_status_change("B".to_string(), true).0.unwrap();

    let (r, out) = m.player_status_change("A".to_string(), true);
    assert_eq!(r, Err(LobbyError::GameAlreadyStarted));
    assert!(out.is_empty());
}

#[test]
fn test_manager_full_round() {
    let mut m = Manager::new();
    m.create_lobby("A".to_string());
    m.join_lobby("A".to_string(), claims("A")).0.unwrap();
    m.join_lobby("A".to_string(), claims("B")).0.unwrap();
    m.player_status_change("A".to_string(), true).0.unwrap();
    let (_, start_out) = m.player_status_change("B".to_string(), true);

    // the first bidding turn names A, the lobby creator
    let first_bidder = start_out
        .iter()
        .find_map(|o| match o {
            Outbound::Broadcast { msg: ServerMessage::PlayerBiddingTurn { player_id, possible_bids }, .. } => {
                Some((player_id.clone(), possible_bids.clone()))
            },
            _ => None,
        })
        .unwrap();
    assert_eq!(first_bidder.0, "A");
    assert_eq!(first_bidder.1, vec![0, 1]);

    // bidding out of turn is refused and produces no messages
    let (r, out) = m.bid(0, "B".to_string());
    assert_eq!(
        r,
        Err(LobbyError::GameError(GameError::InvalidBid(BiddingError::NotYourTurn)))
    );
    assert!(out.is_empty());

    let (r, out) = m.bid(1, "A".to_string());
    r.unwrap();
    assert_eq!(out.len(), 2);
    assert!(matches!(&out[0], Outbound::Broadcast { msg: ServerMessage::PlayerBidded { .. }, .. }));
    // the last bidder may not make the bids sum to the hand size
    match &out[1] {
        Outbound::Broadcast { msg: ServerMessage::PlayerBiddingTurn { player_id, possible_bids }, .. } => {
            assert_eq!(player_id.as_str(), "B");
            assert_eq!(possible_bids, &vec![1]);
        },
        _ => panic!("expected the next bidding turn"),
    }

    let (r, out) = m.bid(1, "B".to_string());
    r.unwrap();
    assert!(matches!(&out[1], Outbound::Broadcast { msg: ServerMessage::PlayerTurn { player_id }, .. } if player_id.as_str() == "A"));

    // find A's card through a reconnect snapshot and play it
    let (r, out) = m.reconnect("A".to_string());
    r.unwrap();
    let card = match &out[0] {
        Outbound::Unicast { msg: ServerMessage::Reconnect(info), .. } => info.deck[0],
        _ => panic!("expected the snapshot"),
    };
    let (r, out) = m.play_turn(card, "A".to_string());
    r.unwrap();
    assert!(matches!(&out[0], Outbound::Broadcast { msg: ServerMessage::TurnPlayed { .. }, .. }));
    assert!(matches!(&out[1], Outbound::Broadcast { msg: ServerMessage::PlayerTurn { player_id }, .. } if player_id.as_str() == "B"));

    // B's card closes the set: the pile, the settlement, then the full
    // set-opening sequence or the game's end
    let (r, out) = m.reconnect("B".to_string());
    r.unwrap();
    let card = match &out[0] {
        Outbound::Unicast { msg: ServerMessage::Reconnect(info), .. } => info.deck[0],
        _ => panic!("expected the snapshot"),
    };
    let (r, out) = m.play_turn(card, "B".to_string());
    r.unwrap();
    assert!(matches!(&out[0], Outbound::Broadcast { msg: ServerMessage::TurnPlayed { .. }, .. }));
    match &out[1] {
        Outbound::Broadcast { msg: ServerMessage::SetEnded(lifes), .. } => {
            assert_eq!(lifes.len(), 2);
            assert!(matches!(&out[2], Outbound::Broadcast { msg: ServerMessage::SetStart { .. }, .. }));
            assert!(matches!(&out[3], Outbound::Unicast { msg: ServerMessage::PlayerDeck(_), .. }));
            assert!(matches!(&out[4], Outbound::Unicast { msg: ServerMessage::PlayerDeck(_), .. }));
            assert!(matches!(&out[5], Outbound::Broadcast { msg: ServerMessage::PlayerBiddingTurn { .. }, .. }));
            assert_eq!(out.len(), 6);
        },
        Outbound::Broadcast { msg: ServerMessage::GameEnded { .. }, .. } => {
            assert_eq!(out.len(), 2);
        },
        _ => panic!("expected the set's or the game's end"),
    }
}

#[test]
fn test_bid_without_lobby() {
    let mut m = Manager::new();
    let (r, out) = m.bid(1, "A".to_string());
    assert_eq!(r, Err(LobbyError::WrongLobby));
    assert!(out.is_empty());

    m.create_lobby("A".to_string());
    m.join_lobby("A".to_string(), claims("A")).0.unwrap();
    let (r, _) = m.bid(1, "A".to_string());
    assert_eq!(r, Err(LobbyError::GameNotStarted));
}

#[test]
fn test_not_enough_players_to_start() {
    let mut m = Manager::new();
    m.create_lobby("A".to_string());
    m.join_lobby("A".to_string(), claims("A")).0.unwrap();
    let (r, out) = m.player_status_change("A".to_string(), true);
    assert_eq!(r, Err(LobbyError::GameError(GameError::NotEnoughPlayers)));
    assert!(out.is_empty());
    // the lobby stays joinable
    match &m.lobbies[0].1.state {
        LobbyState::NotStarted(_) => {},
        LobbyState::Playing(_) => panic!("the game must not have started"),
    }
}

#[test]
fn test_close_codes() {
    assert_eq!(ManagerError::PlayerDisconnected("x".to_string()).close_code(), 1001);
    assert_eq!(ManagerError::InvalidWebsocketMessageType.close_code(), 1003);
    assert_eq!(ManagerError::Lobby(LobbyError::InvalidLobby).close_code(), 1008);
    assert_eq!(ManagerError::Bid(BiddingError::BidOutOfRange).close_code(), 1008);
    assert_eq!(ManagerError::UnexpectedJsonMessage("x".to_string()).close_code(), 1008);
    assert_eq!(ManagerError::UnexpectedValidMessage("x".to_string()).close_code(), 1008);
    assert_eq!(ManagerError::Database("x".to_string()).close_code(), 1011);
    assert_eq!(ManagerError::Unauthorized("x".to_string()).close_code(), 3000);
}

#[test]
fn test_bearer_token() {
    assert_eq!(oh_hell::auth::bearer_token("Bearer abc.def"), Some("abc.def"));
    assert_eq!(oh_hell::auth::bearer_token("Basic abc"), None);
    assert_eq!(oh_hell::auth::bearer_token("Bear"), None);
    let c = oh_hell::auth::make_anonymous_claims(
        "id1".to_string(),
        "Nick".to_string(),
        "pic.jpg".to_string(),
    );
    assert_eq!(c.iss, "https://fodinha.click");
    assert_eq!(c.exp, 10000000000);
    assert_eq!(c.id, "id1");
}
