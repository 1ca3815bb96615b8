use quicksweeper::lobby::{
    delay_hierarchy_events, game_messages, game_select_menu, handle_client_message, join_result, registered_games,
    server_messages, server_select_menu, Access, ActiveGame, ClientMessage, Connecting, GameAction, GameMarker,
    GameStore, LobbyAction, MenuAction, PlayerAction, RepeatQueue, Repetition, ServerMessage, ServerSelectAction,
    AREA_ATTACK_MARKER,
};

#[test]
fn games_get_fresh_identifiers() {
    let mut store = GameStore::new();
    let area = GameMarker(AREA_ATTACK_MARKER);
    assert_eq!(store.create_new(area), Some(0));
    assert_eq!(store.create_new(GameMarker(5)), None);
    assert_eq!(store.create_new(area), Some(1));
    assert_eq!(store.list(), vec![ActiveGame { marker: area, id: 0 }, ActiveGame { marker: area, id: 1 }]);
    store.remove(0);
    assert!(!store.contains(0));
    assert!(store.contains(1));
    assert_eq!(store.create_new(area), Some(2));
    assert_eq!(store.list().len(), 2);
    assert_eq!(registered_games(), vec![area]);
}

#[test]
fn players_messages_become_actions() {
    let area = GameMarker(AREA_ATTACK_MARKER);
    assert!(matches!(
        handle_client_message(Some(ClientMessage::Create { game: area, args: vec![1] }), false),
        PlayerAction::CreateGame { game, args } if game == area && args == vec![1]
    ));
    assert!(matches!(handle_client_message(Some(ClientMessage::Ingame { data: vec![2] }), true), PlayerAction::ForwardToGame(d) if d == vec![2]));
    assert!(matches!(handle_client_message(Some(ClientMessage::Ingame { data: vec![2] }), false), PlayerAction::SendMalformed));
    assert!(matches!(handle_client_message(Some(ClientMessage::Join { game: 3 }), false), PlayerAction::JoinGame(3)));
    assert!(matches!(handle_client_message(Some(ClientMessage::Games), false), PlayerAction::SendActiveGames));
    assert!(matches!(handle_client_message(Some(ClientMessage::GameTypes), true), PlayerAction::SendAvailableGames));
    assert!(matches!(handle_client_message(Some(ClientMessage::ForceLeave), true), PlayerAction::Ignore));
    assert!(matches!(handle_client_message(None, true), PlayerAction::Ignore));
}

#[test]
fn the_lobby_answers_players_outside_games() {
    let mut store = GameStore::new();
    store.create_new(GameMarker(AREA_ATTACK_MARKER));
    assert!(matches!(server_messages(Some(Some(ClientMessage::Join { game: 0 })), &store), LobbyAction::JoinGame(0)));
    assert!(matches!(server_messages(Some(Some(ClientMessage::Join { game: 9 })), &store), LobbyAction::SendMalformed));
    assert!(matches!(server_messages(Some(Some(ClientMessage::ForceLeave)), &store), LobbyAction::SendMalformed));
    assert!(matches!(server_messages(Some(None), &store), LobbyAction::SendMalformed));
    assert!(matches!(server_messages(None, &store), LobbyAction::Nothing));
    assert!(matches!(server_messages(Some(Some(ClientMessage::Games)), &store), LobbyAction::SendActiveGames));
    assert!(matches!(game_messages(Some(Some(ClientMessage::Ingame { data: vec![7] }))), GameAction::Forward(d) if d == vec![7]));
    assert!(matches!(game_messages(Some(Some(ClientMessage::ForceLeave))), GameAction::Leave));
    assert!(matches!(game_messages(Some(Some(ClientMessage::Games))), GameAction::SendMalformed));
    assert!(matches!(game_messages(None), GameAction::Nothing));
}

#[test]
fn messages_are_retried_until_they_go_out() {
    let mut q = RepeatQueue::new();
    assert_eq!(q.repetition(false), Repetition::Idle);
    q.repeat_send_unchecked(vec![1]);
    q.repeat_send_unchecked(vec![2]);
    for _ in 0..11 {
        assert_eq!(q.repetition(false), Repetition::Retry);
    }
    assert_eq!(q.repetition(false), Repetition::Report);
    assert_eq!(q.repetition(false), Repetition::Retry);
    assert_eq!(q.front(), Some(vec![1]));
    assert_eq!(q.repetition(true), Repetition::Sent);
    assert_eq!(q.front(), Some(vec![2]));
    assert_eq!(q.repetition(true), Repetition::Sent);
    assert_eq!(q.front(), None);
}

#[test]
fn messages_go_out_in_the_order_they_were_queued() {
    let mut q = RepeatQueue::new();
    q.repeat_send_unchecked(vec![1]);
    assert_eq!(q.repetition(false), Repetition::Retry);
    q.repeat_send_unchecked(vec![2]);
    let mut out = Vec::new();
    out.push(q.front().unwrap());
    assert_eq!(q.repetition(true), Repetition::Sent);
    q.repeat_send_unchecked(vec![3]);
    while let Some(m) = q.front() {
        assert_eq!(q.repetition(true), Repetition::Sent);
        out.push(m);
    }
    assert_eq!(out, vec![vec![1], vec![2], vec![3]]);
}

#[test]
fn held_changes_go_out_once_their_game_is_ready() {
    let (send, keep) = delay_hierarchy_events(vec![], vec![("a", Some(Access::Initializing)), ("b", Some(Access::Initializing))]);
    assert!(send.is_empty());
    let stored: Vec<(&str, Option<Access>)> = keep.into_iter().map(|e| (e, Some(Access::Open))).collect();
    let (send, keep) = delay_hierarchy_events(stored, vec![("c", Some(Access::Open))]);
    assert_eq!(send, vec!["a", "b", "c"]);
    assert!(keep.is_empty());
}

#[test]
fn changes_wait_while_a_game_initializes() {
    let stored = vec![("a", Some(Access::Initializing)), ("b", Some(Access::Open)), ("c", None)];
    let incoming = vec![("d", Some(Access::Initializing)), ("e", Some(Access::Ingame)), ("f", None)];
    let (send, keep) = delay_hierarchy_events(stored, incoming);
    assert_eq!(send, vec!["b", "c", "e"]);
    assert_eq!(keep, vec!["a", "d"]);
}


#[test]
fn menu_choices_have_an_order() {
    let area = GameMarker(AREA_ATTACK_MARKER);
    assert_eq!(game_select_menu(true, true, true, Some(area), Some((1, area))), MenuAction::Back);
    assert_eq!(game_select_menu(false, true, true, Some(area), None), MenuAction::Reload);
    assert_eq!(game_select_menu(false, false, true, Some(area), Some((1, area))), MenuAction::Create(area));
    assert_eq!(game_select_menu(false, false, true, None, Some((1, area))), MenuAction::Join(1, area));
    assert_eq!(game_select_menu(false, false, false, None, None), MenuAction::Nothing);
    assert_eq!(server_select_menu(Connecting::Established, true, true), ServerSelectAction::Greet);
    assert_eq!(server_select_menu(Connecting::Interrupted, false, false), ServerSelectAction::ContinueHandshake);
    assert_eq!(server_select_menu(Connecting::Failed, false, false), ServerSelectAction::HandshakeFailed);
    assert_eq!(server_select_menu(Connecting::Idle, true, true), ServerSelectAction::Connect);
    assert_eq!(server_select_menu(Connecting::Idle, false, true), ServerSelectAction::ClearError);
    assert_eq!(server_select_menu(Connecting::Idle, false, false), ServerSelectAction::Nothing);
}

#[test]
fn a_refused_join_keeps_the_player_where_it_was() {
    let (now, answer) = join_result(None, Some(4));
    assert_eq!(now, Some(4));
    assert!(matches!(answer, Some(ServerMessage::Malformed)));
    let (now, answer) = join_result(Some(9), Some(4));
    assert_eq!(now, Some(9));
    assert!(answer.is_none());
    let (now, answer) = join_result(None, None);
    assert_eq!(now, None);
    assert!(matches!(answer, Some(ServerMessage::Malformed)));
}

#[test]
fn a_greeting_after_the_start_is_refused() {
    let m = ClientMessage::Greet { username: "ann".to_string() };
    assert!(matches!(handle_client_message(Some(m.clone()), false), PlayerAction::SendMalformed));
    assert!(matches!(handle_client_message(Some(m), true), PlayerAction::SendMalformed));
}
