use turnbased_game_server::cards::{CardIdx, Deck, GameVariant, Hand};
use turnbased_game_server::game::{Game, GameState, Move};
use turnbased_game_server::protocol::{Action, Response, Room, RoomId, RoomState};
use turnbased_game_server::server::ServerState;

fn login(server: &mut ServerState, c: usize, name: &str) {
    let out = server.handle_action(c, Action::Login(name.to_string()));
    assert_eq!(out.len(), 1);
    assert_eq!(out[0].0, c);
    assert!(matches!(out[0].1, Response::RoomList(_)));
}

fn room_of(resp: &Response) -> &Room {
    match resp {
        Response::Room(room) => room,
        _ => panic!("expected a room view"),
    }
}

fn game_of(room: &Room) -> &Game {
    match &room.state {
        RoomState::Started(Some(game)) => game,
        _ => panic!("expected a started room"),
    }
}

fn whose_turn(game: &Game) -> String {
    match game.game_state() {
        GameState::NextPlayer(p) => game.players()[p].clone(),
        _ => panic!("game should be running"),
    }
}

#[test]
fn a_new_socket_is_greeted_as_logged_out() {
    let mut server = ServerState::new();
    let (c, greeting) = server.connect();
    assert_eq!(c, 0);
    assert!(matches!(greeting, Response::NotLoggedIn));
    let (c2, _) = server.connect();
    assert_eq!(c2, 1);
}

#[test]
fn actions_without_login_are_refused() {
    let mut server = ServerState::new();
    let (c, _) = server.connect();
    for action in [
        Action::WatchRoom(RoomId(0)),
        Action::NewRoom { min_players: 2, max_players: 2, settings: GameVariant::Base },
        Action::JoinRoom,
        Action::StartGame,
        Action::MakeMove(Move::Play { card_idx: CardIdx(1) }),
    ] {
        let out = server.handle_action(c, action);
        assert_eq!(out.len(), 1);
        assert_eq!(out[0].0, c);
        assert!(matches!(out[0].1, Response::NotLoggedIn));
    }
}

#[test]
fn bad_player_limits_reject_the_room() {
    // A room asking for at least three players but at most two is refused,
    // and no room comes into being.
    let mut server = ServerState::new();
    let (c, _) = server.connect();
    login(&mut server, c, "alice");
    let out = server.handle_action(
        c,
        Action::NewRoom { min_players: 3, max_players: 2, settings: GameVariant::Base },
    );
    assert_eq!(out.len(), 1);
    assert!(matches!(&out[0].1, Response::Error(e) if e.as_str() == "Invalid player limits"));
    let out = server.handle_action(
        c,
        Action::NewRoom { min_players: 0, max_players: 2, settings: GameVariant::Base },
    );
    assert!(matches!(&out[0].1, Response::Error(e) if e.as_str() == "Invalid player limits"));
    // The room list is still empty.
    let out = server.handle_action(c, Action::Login("alice".to_string()));
    assert!(matches!(&out[0].1, Response::RoomList(rooms) if rooms.is_empty()));
    // And no room can be watched.
    let out = server.handle_action(c, Action::WatchRoom(RoomId(0)));
    assert!(matches!(&out[0].1, Response::Error(e) if e.as_str() == "Room not found"));
}

#[test]
fn watching_twice_shows_the_same_room() {
    let mut server = ServerState::new();
    let (ca, _) = server.connect();
    login(&mut server, ca, "alice");
    let out = server.handle_action(
        ca,
        Action::NewRoom { min_players: 2, max_players: 4, settings: GameVariant::Base },
    );
    let first = room_of(&out[0].1);
    assert_eq!(first.roomid, RoomId(0));

    let out1 = server.handle_action(ca, Action::WatchRoom(RoomId(0)));
    let out2 = server.handle_action(ca, Action::WatchRoom(RoomId(0)));
    let v1 = room_of(&out1[0].1);
    let v2 = room_of(&out2[0].1);
    assert_eq!(v1.roomid, v2.roomid);
    assert_eq!(v1.players, v2.players);
    assert!(matches!(
        (&v1.state, &v2.state),
        (
            RoomState::WaitingForPlayers { min_players: 2, max_players: 4 },
            RoomState::WaitingForPlayers { min_players: 2, max_players: 4 },
        )
    ));
}

#[test]
fn full_session_from_login_to_a_played_move() {
    // alice opens a two-seat room; bob joins it, which starts the game;
    // whoever's turn it is plays a card, and both watchers get a fresh
    // view reflecting the move, each redacted for its own recipient.
    let mut server = ServerState::new();
    let (ca, _) = server.connect();
    let (cb, _) = server.connect();
    login(&mut server, ca, "alice");
    login(&mut server, cb, "bob");

    let out = server.handle_action(
        ca,
        Action::NewRoom { min_players: 2, max_players: 2, settings: GameVariant::Base },
    );
    assert_eq!(out.len(), 1);
    assert_eq!(room_of(&out[0].1).roomid, RoomId(0));

    let out = server.handle_action(cb, Action::WatchRoom(RoomId(0)));
    assert_eq!(out.len(), 1);
    assert!(matches!(
        room_of(&out[0].1).state,
        RoomState::WaitingForPlayers { min_players: 2, max_players: 2 }
    ));

    // The join fills the room, so the game starts and both watchers hear.
    let out = server.handle_action(cb, Action::JoinRoom);
    assert_eq!(out.len(), 2);
    let game = game_of(room_of(&out[0].1));
    assert_eq!(game.players().len(), 2);

    // The player to move plays their first card.
    let mover = whose_turn(game);
    let mover_socket = if mover == "alice" { ca } else { cb };
    let out = server.handle_action(
        mover_socket,
        Action::MakeMove(Move::Play { card_idx: CardIdx(1) }),
    );
    assert_eq!(out.len(), 2);
    for (c, resp) in &out {
        let room = room_of(resp);
        let view = game_of(room);
        // The move shows in everyone's view.
        assert_eq!(view.move_log().len(), 1);
        // The deck is hidden from everyone.
        assert!(matches!(view.deck(), Deck::Hidden(_)));
        // Each recipient is shown their own hand as knowledge only, and
        // the other hand openly.
        let me = if *c == ca { "alice" } else { "bob" };
        let my_seat = view.player_id(&me.to_string()).unwrap();
        assert!(matches!(&view.hands()[my_seat], Hand::Hidden(_)));
        assert!(matches!(&view.hands()[1 - my_seat], Hand::Visible(_)));
    }
}

#[test]
fn a_move_by_an_outsider_reaches_no_watcher() {
    // carol watches the started room without having joined it; her move is
    // answered with an error to her alone, and nothing is broadcast.
    let mut server = ServerState::new();
    let (ca, _) = server.connect();
    let (cb, _) = server.connect();
    let (cc, _) = server.connect();
    login(&mut server, ca, "alice");
    login(&mut server, cb, "bob");
    login(&mut server, cc, "carol");
    server.handle_action(
        ca,
        Action::NewRoom { min_players: 2, max_players: 2, settings: GameVariant::Base },
    );
    server.handle_action(cb, Action::WatchRoom(RoomId(0)));
    server.handle_action(cb, Action::JoinRoom);
    server.handle_action(cc, Action::WatchRoom(RoomId(0)));

    let out = server.handle_action(
        cc,
        Action::MakeMove(Move::Play { card_idx: CardIdx(1) }),
    );
    assert_eq!(out.len(), 1);
    assert_eq!(out[0].0, cc);
    assert!(matches!(&out[0].1, Response::Error(e) if e.as_str() == "User did not join room"));
}

#[test]
fn joining_is_guarded() {
    let mut server = ServerState::new();
    let (ca, _) = server.connect();
    let (cb, _) = server.connect();
    let (cc, _) = server.connect();
    login(&mut server, ca, "alice");
    login(&mut server, cb, "bob");
    login(&mut server, cc, "carol");
    server.handle_action(
        ca,
        Action::NewRoom { min_players: 2, max_players: 2, settings: GameVariant::Base },
    );
    // The creator has already joined.
    let out = server.handle_action(ca, Action::JoinRoom);
    assert!(matches!(&out[0].1, Response::Error(e) if e.as_str() == "User is already in room"));
    // Fill the room.
    server.handle_action(cb, Action::WatchRoom(RoomId(0)));
    server.handle_action(cb, Action::JoinRoom);
    // A started room accepts no further joins.
    server.handle_action(cc, Action::WatchRoom(RoomId(0)));
    let out = server.handle_action(cc, Action::JoinRoom);
    assert!(matches!(&out[0].1, Response::Error(e) if e.as_str() == "Room is not waiting for players"));
}

#[test]
fn starting_is_guarded() {
    let mut server = ServerState::new();
    let (ca, _) = server.connect();
    let (cb, _) = server.connect();
    login(&mut server, ca, "alice");
    login(&mut server, cb, "bob");
    server.handle_action(
        ca,
        Action::NewRoom { min_players: 2, max_players: 3, settings: GameVariant::Base },
    );
    // Too few players yet.
    let out = server.handle_action(ca, Action::StartGame);
    assert!(matches!(&out[0].1, Response::Error(e) if e.as_str() == "Not enough players"));
    // A watcher who never joined may not start the room either.
    server.handle_action(cb, Action::WatchRoom(RoomId(0)));
    let out = server.handle_action(cb, Action::StartGame);
    assert!(matches!(&out[0].1, Response::Error(e) if e.as_str() == "User did not join room"));
    // With two of at most three seats taken, an explicit start works and
    // every watcher is sent the fresh game.
    server.handle_action(cb, Action::JoinRoom);
    let out = server.handle_action(ca, Action::StartGame);
    assert_eq!(out.len(), 2);
    for (_, resp) in &out {
        assert!(matches!(room_of(resp).state, RoomState::Started(Some(_))));
    }
    // Once started, starting again is refused.
    let out = server.handle_action(ca, Action::StartGame);
    assert!(matches!(&out[0].1, Response::Error(e) if e.as_str() == "Room is not waiting for players"));
}

#[test]
fn a_lone_player_cannot_start_a_hanabi_room() {
    // The server allows a one-seat room, but the game refuses to start
    // with a single player, and the room stays open.
    let mut server = ServerState::new();
    let (ca, _) = server.connect();
    login(&mut server, ca, "alice");
    server.handle_action(
        ca,
        Action::NewRoom { min_players: 1, max_players: 3, settings: GameVariant::Base },
    );
    let out = server.handle_action(ca, Action::StartGame);
    assert!(matches!(&out[0].1, Response::Error(e) if e.as_str() == "Hanabi needs 2 to 5 players."));
    let out = server.handle_action(ca, Action::WatchRoom(RoomId(0)));
    assert!(matches!(
        room_of(&out[0].1).state,
        RoomState::WaitingForPlayers { min_players: 1, max_players: 3 }
    ));
}

#[test]
fn disconnecting_removes_one_watcher_and_nobody_else() {
    let mut server = ServerState::new();
    let (ca, _) = server.connect();
    let (cb, _) = server.connect();
    login(&mut server, ca, "alice");
    login(&mut server, cb, "bob");
    server.handle_action(
        ca,
        Action::NewRoom { min_players: 2, max_players: 2, settings: GameVariant::Base },
    );
    server.handle_action(cb, Action::WatchRoom(RoomId(0)));
    let out = server.handle_action(cb, Action::JoinRoom);
    assert_eq!(out.len(), 2);

    // bob's socket goes away; only alice is left watching.
    server.disconnect(cb);
    let out = server.handle_action(
        ca,
        Action::MakeMove(Move::Play { card_idx: CardIdx(1) }),
    );
    // Whether the move was alice's turn or not, no message goes to the
    // departed socket.
    for (c, _) in &out {
        assert_eq!(*c, ca);
    }
}

#[test]
fn leaving_a_room_stops_the_updates() {
    let mut server = ServerState::new();
    let (ca, _) = server.connect();
    let (cb, _) = server.connect();
    login(&mut server, ca, "alice");
    login(&mut server, cb, "bob");
    server.handle_action(
        ca,
        Action::NewRoom { min_players: 2, max_players: 2, settings: GameVariant::Base },
    );
    server.handle_action(cb, Action::WatchRoom(RoomId(0)));
    let out = server.handle_action(ca, Action::LeaveRoom);
    assert!(matches!(out[0].1, Response::RoomList(_)));
    // Now only bob is watching: his join reaches him alone.
    let out = server.handle_action(cb, Action::JoinRoom);
    assert_eq!(out.len(), 1);
    assert_eq!(out[0].0, cb);
}

#[test]
fn logout_answers_not_logged_in() {
    let mut server = ServerState::new();
    let (c, _) = server.connect();
    login(&mut server, c, "alice");
    let out = server.handle_action(c, Action::Logout);
    assert_eq!(out.len(), 1);
    assert!(matches!(out[0].1, Response::NotLoggedIn));
    // Afterwards room-bound actions are refused again.
    let out = server.handle_action(c, Action::JoinRoom);
    assert!(matches!(out[0].1, Response::NotLoggedIn));
}

#[test]
fn room_lists_summarize_without_the_game() {
    let mut server = ServerState::new();
    let (ca, _) = server.connect();
    let (cb, _) = server.connect();
    login(&mut server, ca, "alice");
    login(&mut server, cb, "bob");
    server.handle_action(
        ca,
        Action::NewRoom { min_players: 2, max_players: 2, settings: GameVariant::Base },
    );
    server.handle_action(cb, Action::WatchRoom(RoomId(0)));
    server.handle_action(cb, Action::JoinRoom);
    // A later login returns the room list; the started room's game payload
    // is stripped there.
    let out = server.handle_action(ca, Action::Login("alice".to_string()));
    match &out[0].1 {
        Response::RoomList(rooms) => {
            assert_eq!(rooms.len(), 1);
            assert_eq!(rooms[0].players.len(), 2);
            assert!(matches!(rooms[0].state, RoomState::Started(None)));
        },
        _ => panic!("login answers with the room list"),
    }
}

#[test]
fn moves_in_unstarted_and_finished_rooms_are_refused() {
    let game = Game::new(
        vec!["alice".to_string(), "bob".to_string()],
        GameVariant::Base,
    )
    .unwrap();
    let mut waiting = RoomState::WaitingForPlayers { min_players: 2, max_players: 2 };
    let r = waiting.make_move(&"alice".to_string(), Move::Play { card_idx: CardIdx(1) });
    assert!(matches!(r, Err("Game did not start yet")));

    let mut ended = RoomState::Ended(Some(game));
    let r = ended.make_move(&"alice".to_string(), Move::Play { card_idx: CardIdx(1) });
    assert!(matches!(r, Err("Game already finished")));
    assert!(matches!(ended, RoomState::Ended(Some(_))));
}

#[test]
fn an_unknown_name_cannot_move_in_a_started_game() {
    let game = Game::new(
        vec!["alice".to_string(), "bob".to_string()],
        GameVariant::Base,
    )
    .unwrap();
    let mut state = RoomState::Started(Some(game));
    let r = state.make_move(&"carol".to_string(), Move::Play { card_idx: CardIdx(1) });
    assert!(matches!(r, Err("Player not found")));
}
