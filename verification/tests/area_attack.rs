use std::collections::HashSet;

use quicksweeper::area_attack::client::{
    draw_tiles, puppet_control, request_reveal, reset_field, self_update, state_transitions, PuppetTable, SelfUpdate,
    StageChange, Tint,
};
use quicksweeper::area_attack::server::{
    broadcast_positions, client_tile, create_game, initial_transition, prepare_player, send_tiles,
    stage_transitions, unfreeze_players, update_selecting_tile, update_tile_playing, within_ten,
    AreaAttackBundle, InitialSelections, PeerInfo, StageTimer,
};
use quicksweeper::area_attack::{
    reveal_tiles, AreaAttack, AreaAttackRequest, AreaAttackUpdate, ClientTile, IAreaAttack, PlayerColor,
    PlayerStatus, RevealTile, ServerTile,
};
use quicksweeper::lobby::Access;
use quicksweeper::minefield::Minefield;
use quicksweeper::position::Position;
use quicksweeper::shape::FieldShape;

fn block<T: Copy>(w: isize, h: isize, t: T) -> Minefield<T> {
    let mut v = Vec::new();
    for y in 0..h {
        for x in 0..w {
            v.push(Position::new(x, y));
        }
    }
    Minefield::new_shaped(&v, t)
}

fn player(id: u64) -> PlayerStatus {
    PlayerStatus { id, frozen: None, killed: false }
}

fn claim(x: isize, y: isize, player: u64) -> RevealTile {
    RevealTile { position: Position::new(x, y), player }
}

#[test]
fn claiming_an_empty_area_floods_it() {
    let mut f = block(3, 3, ServerTile::Empty);
    let mut players = vec![player(1)];
    let (notices, touched) = reveal_tiles(&mut f, AreaAttack::Stage1, 0, &mut players, &vec![claim(0, 0, 1)]);
    assert!(notices.is_empty());
    for p in f.iter_positions() {
        assert_eq!(f.get(p), Some(ServerTile::Owned { player: 1 }));
    }
    let set: HashSet<Position> = touched.into_iter().collect();
    assert_eq!(set.len(), 9);
}

#[test]
fn a_number_stops_the_flood() {
    let mut f = block(3, 1, ServerTile::Empty);
    f.set(Position::new(2, 0), ServerTile::Mine);
    let mut players = vec![player(1)];
    reveal_tiles(&mut f, AreaAttack::Attack, 0, &mut players, &vec![claim(0, 0, 1)]);
    assert_eq!(f.get(Position::new(0, 0)), Some(ServerTile::Owned { player: 1 }));
    assert_eq!(f.get(Position::new(1, 0)), Some(ServerTile::Owned { player: 1 }));
    assert_eq!(f.get(Position::new(2, 0)), Some(ServerTile::Mine));
}

#[test]
fn a_mine_in_the_first_stage_freezes() {
    let mut f = block(3, 3, ServerTile::Empty);
    f.set(Position::new(2, 2), ServerTile::Mine);
    let mut players = vec![player(1)];
    let (notices, _) = reveal_tiles(&mut f, AreaAttack::Stage1, 42, &mut players, &vec![claim(2, 2, 1)]);
    assert_eq!(f.get(Position::new(2, 2)), Some(ServerTile::HardMine));
    assert_eq!(players[0].frozen, Some(42));
    assert_eq!(notices.len(), 1);
    assert_eq!(notices[0].0, 1);
    assert!(matches!(notices[0].1, AreaAttackUpdate::Freeze));
    // a frozen player claims nothing
    reveal_tiles(&mut f, AreaAttack::Stage1, 43, &mut players, &vec![claim(0, 0, 1)]);
    assert_eq!(f.get(Position::new(0, 0)), Some(ServerTile::Empty));
}

#[test]
fn a_mine_in_the_lock_stage_kills() {
    let mut f = block(3, 3, ServerTile::Empty);
    f.set(Position::new(1, 1), ServerTile::Mine);
    let mut players = vec![player(7), player(8)];
    let (notices, _) = reveal_tiles(&mut f, AreaAttack::Lock, 0, &mut players, &vec![claim(1, 1, 8)]);
    assert!(players[1].killed);
    assert!(!players[0].killed);
    assert!(matches!(notices[0], (8, AreaAttackUpdate::Killed)));
    assert_eq!(f.get(Position::new(1, 1)), Some(ServerTile::HardMine));
}

#[test]
fn nothing_is_claimed_while_selecting() {
    let mut f = block(2, 2, ServerTile::Empty);
    let mut players = vec![player(1)];
    let (notices, touched) = reveal_tiles(&mut f, AreaAttack::Selecting, 0, &mut players, &vec![claim(0, 0, 1)]);
    assert!(notices.is_empty() && touched.is_empty());
    assert_eq!(f.get(Position::new(0, 0)), Some(ServerTile::Empty));
}

#[test]
fn the_latest_request_is_handled_first() {
    let mut f = block(2, 2, ServerTile::Empty);
    f.set(Position::new(1, 1), ServerTile::Mine);
    let mut players = vec![player(1), player(2)];
    reveal_tiles(&mut f, AreaAttack::Stage1, 0, &mut players, &vec![claim(0, 0, 1), claim(0, 0, 2)]);
    assert_eq!(f.get(Position::new(0, 0)), Some(ServerTile::Owned { player: 2 }));
}

#[test]
fn a_mine_in_the_attack_stage_destroys_its_tile() {
    let mut f = block(15, 15, ServerTile::Empty);
    let c = Position::new(7, 7);
    f.set(c, ServerTile::Mine);
    f.set(Position::new(0, 0), ServerTile::HardMine);
    f.set(Position::new(7, 8), ServerTile::Owned { player: 2 });
    let mut players = vec![player(1), player(2)];
    let (_, touched) = reveal_tiles(&mut f, AreaAttack::Attack, 0, &mut players, &vec![claim(7, 7, 1)]);
    assert_eq!(f.get(c), Some(ServerTile::Destroyed));
    assert_eq!(f.get(Position::new(0, 0)), Some(ServerTile::HardMine));
    assert!(touched.contains(&c));
    for p in c.radius(5) {
        let t = f.get(p).unwrap();
        assert!(!matches!(t, ServerTile::HardMine | ServerTile::Destroyed));
    }
}

#[test]
fn players_see_no_hidden_mines_and_only_their_own_numbers() {
    let mut f = block(3, 1, ServerTile::Empty);
    f.set(Position::new(0, 0), ServerTile::Mine);
    f.set(Position::new(1, 0), ServerTile::Owned { player: 4 });
    f.set(Position::new(2, 0), ServerTile::HardMine);
    assert_eq!(client_tile(&f, Position::new(0, 0), 4), ClientTile::Unknown);
    assert_eq!(client_tile(&f, Position::new(1, 0), 4), ClientTile::Owned { player: 4, num_neighbors: 2 });
    assert_eq!(client_tile(&f, Position::new(1, 0), 5), ClientTile::Owned { player: 4, num_neighbors: 0 });
    assert_eq!(client_tile(&f, Position::new(2, 0), 5), ClientTile::Mine);
}

#[test]
fn tile_messages_hide_mines() {
    let mut with_mine = block(4, 1, ServerTile::Empty);
    with_mine.set(Position::new(0, 0), ServerTile::Mine);
    with_mine.set(Position::new(1, 0), ServerTile::HardMine);
    with_mine.set(Position::new(2, 0), ServerTile::Destroyed);
    let mut without = block(4, 1, ServerTile::Empty);
    without.set(Position::new(1, 0), ServerTile::HardMine);
    without.set(Position::new(2, 0), ServerTile::Destroyed);
    let changed = vec![Position::new(0, 0), Position::new(1, 0), Position::new(2, 0)];
    let a = send_tiles(&with_mine, &changed, &vec![1, 2]);
    let b = send_tiles(&without, &changed, &vec![1, 2]);
    assert_eq!(a.len(), 6);
    for (x, y) in a.iter().zip(b.iter()) {
        assert_eq!(format!("{x:?}"), format!("{y:?}"));
    }
    assert!(matches!(a[0].1, AreaAttackUpdate::TileChanged { to: ClientTile::Unknown, .. }));
    assert!(matches!(a[2].1, AreaAttackUpdate::TileChanged { to: ClientTile::Mine, .. }));
    assert!(matches!(a[4].1, AreaAttackUpdate::TileChanged { to: ClientTile::Destroyed, .. }));
}

#[test]
fn changed_tiles_are_sent_once_to_every_peer() {
    let f = block(2, 1, ServerTile::Empty);
    let changed = vec![Position::new(0, 0), Position::new(0, 0), Position::new(1, 0), Position::new(9, 9)];
    let msgs = send_tiles(&f, &changed, &vec![1, 2]);
    assert_eq!(msgs.len(), 4);
    assert_eq!(msgs[0].0, 1);
    assert_eq!(msgs[1].0, 2);
    assert!(matches!(msgs[2].1, AreaAttackUpdate::TileChanged { position: Position { x: 1, y: 0 }, to: ClientTile::Unknown }));
}

#[test]
fn freezes_run_out_after_five_seconds() {
    let mut players = vec![PlayerStatus { id: 1, frozen: Some(1_000_000_000), killed: false }, player(2)];
    unfreeze_players(&mut players, 6_000_000_000);
    assert_eq!(players[0].frozen, Some(1_000_000_000));
    unfreeze_players(&mut players, 6_000_000_001);
    assert_eq!(players[0].frozen, None);
    assert_eq!(players[1], player(2));
}

#[test]
fn reveal_requests_become_claims_in_the_playing_stages() {
    let p = Position::new(3, 3);
    assert_eq!(update_tile_playing(AreaAttack::Stage1, 5, AreaAttackRequest::Reveal(p)), Some(RevealTile { position: p, player: 5 }));
    assert_eq!(update_tile_playing(AreaAttack::Attack, 5, AreaAttackRequest::Reveal(p)), Some(RevealTile { position: p, player: 5 }));
    assert_eq!(update_tile_playing(AreaAttack::Lock, 5, AreaAttackRequest::Reveal(p)), Some(RevealTile { position: p, player: 5 }));
    assert_eq!(update_tile_playing(AreaAttack::Selecting, 5, AreaAttackRequest::Reveal(p)), None);
    assert_eq!(update_tile_playing(AreaAttack::Finishing, 5, AreaAttackRequest::Reveal(p)), None);
    assert_eq!(update_tile_playing(AreaAttack::Stage1, 5, AreaAttackRequest::Position(p)), None);
}

#[test]
fn positions_go_to_the_other_peers() {
    let msgs = broadcast_positions(&vec![1, 2, 3], 2, Position::new(4, 4));
    assert_eq!(msgs.len(), 2);
    assert_eq!(msgs[0].0, 1);
    assert_eq!(msgs[1].0, 3);
    assert!(matches!(msgs[0].1, AreaAttackUpdate::Reposition { id: 2, .. }));
}

#[test]
fn selections_stay_ten_tiles_apart() {
    assert!(within_ten(Position::new(0, 0), Position::new(5, 5)));
    assert!(!within_ten(Position::new(0, 0), Position::new(10, 0)));
    assert!(!within_ten(Position::new(isize::MIN, 0), Position::new(isize::MAX, 0)));

    let mut sel = InitialSelections::new();
    let m = update_selecting_tile(AreaAttack::Selecting, &mut sel, 1, Position::new(0, 0));
    assert_eq!(m.len(), 1);
    let blocked = update_selecting_tile(AreaAttack::Selecting, &mut sel, 2, Position::new(5, 5));
    assert!(blocked.is_empty());
    assert_eq!(sel.get(2), None);
    let ok = update_selecting_tile(AreaAttack::Selecting, &mut sel, 2, Position::new(10, 0));
    assert_eq!(ok.len(), 1);
    let moved = update_selecting_tile(AreaAttack::Selecting, &mut sel, 1, Position::new(0, 3));
    assert_eq!(moved.len(), 2);
    assert!(matches!(moved[0], AreaAttackUpdate::TileChanged { position: Position { x: 0, y: 0 }, to: ClientTile::Unknown }));
    assert!(matches!(moved[1], AreaAttackUpdate::TileChanged { to: ClientTile::Owned { player: 1, num_neighbors: 0 }, .. }));
    assert_eq!(sel.get(1), Some(Position::new(0, 3)));
    assert_eq!(sel.pairs().len(), 2);
    let late = update_selecting_tile(AreaAttack::Stage1, &mut sel, 3, Position::new(50, 50));
    assert!(late.is_empty());
}

#[test]
fn only_the_host_starts_the_game() {
    let mut f = block(10, 10, ServerTile::Empty);
    let mut sel = InitialSelections::new();
    sel.insert(1, Position::new(1, 1));
    sel.insert(2, Position::new(8, 8));
    let mut state = AreaAttack::Selecting;
    let mut access = Access::Open;
    let mut timer = StageTimer::default();
    let peers = vec![1, 2];
    assert!(initial_transition(&mut state, false, &mut f, &sel, &mut access, &mut timer, &peers).is_none());
    assert_eq!(state, AreaAttack::Selecting);
    assert_eq!(access, Access::Open);
    let (claims, notices) = initial_transition(&mut state, true, &mut f, &sel, &mut access, &mut timer, &peers).unwrap();
    assert_eq!(state, AreaAttack::Stage1);
    assert_eq!(access, Access::Ingame);
    assert!(matches!(notices[..], [(1, AreaAttackUpdate::Transition(AreaAttack::Stage1)), (2, AreaAttackUpdate::Transition(AreaAttack::Stage1))]));
    // the clock now runs: a tick past three minutes starts the attack stage
    let mut stage = state;
    assert_eq!(stage_transitions(&mut stage, &mut timer, 181_000_000_000), Some(AreaAttack::Attack));
    assert_eq!(claims, vec![RevealTile { position: Position::new(1, 1), player: 1 }, RevealTile { position: Position::new(8, 8), player: 2 }]);
    let mines: Vec<Position> = f.iter_positions().into_iter().filter(|p| f.get(*p) == Some(ServerTile::Mine)).collect();
    assert_eq!(mines.len(), 20);
    for m in mines {
        assert!((m.x - 1).abs() > 1 || (m.y - 1).abs() > 1);
        assert!((m.x - 8).abs() > 1 || (m.y - 8).abs() > 1);
    }
    assert!(initial_transition(&mut state, true, &mut f, &sel, &mut access, &mut timer, &peers).is_none());
}

#[test]
fn joining_players_get_a_free_colour_and_the_first_tile() {
    let shape = FieldShape::try_from(b"oxx\nxxx".as_slice()).unwrap();
    let f = Minefield::from_shape(&shape, ServerTile::Empty).unwrap();
    let peers = vec![
        PeerInfo { id: 1, username: "a".to_string(), color: PlayerColor::Yellow, position: Position::new(0, 0) },
        PeerInfo { id: 2, username: "b".to_string(), color: PlayerColor::Blue, position: Position::new(1, 1) },
    ];
    let out = prepare_player(3, &"c".to_string(), &peers, &shape, &f);
    assert!(!out.full);
    assert_eq!(out.admitted, Some((PlayerColor::Green, Position::new(0, 0))));
    assert_eq!(out.messages.len(), 6);
    assert!(matches!(out.messages[0], (3, AreaAttackUpdate::FieldShape(_))));
    assert!(matches!(&out.messages[1], (3, AreaAttackUpdate::PlayerProperties { id: 1, username, .. }) if username == "a"));
    assert!(matches!(&out.messages[3], (1, AreaAttackUpdate::PlayerProperties { id: 3, username, color: PlayerColor::Green, .. }) if username == "c"));
    assert!(matches!(out.messages[5], (3, AreaAttackUpdate::SelfChange { color: PlayerColor::Green, .. })));
}

#[test]
fn the_game_is_full_with_four_others() {
    let shape = FieldShape::try_from(b"x".as_slice()).unwrap();
    let f = Minefield::from_shape(&shape, ServerTile::Empty).unwrap();
    let peers: Vec<PeerInfo> = (1..=4)
        .map(|i| PeerInfo { id: i, username: format!("p{i}"), color: PlayerColor::Yellow, position: Position::new(0, 0) })
        .collect();
    let out = prepare_player(9, &"z".to_string(), &peers, &shape, &f);
    assert!(out.full);
    assert_eq!(out.admitted, None);
    assert_eq!(out.messages.len(), 1);
    assert!(matches!(out.messages[0], (9, AreaAttackUpdate::Full)));
}

#[test]
fn stages_follow_the_clock() {
    let mut timer = StageTimer::default();
    let mut stage = AreaAttack::Stage1;
    assert_eq!(stage_transitions(&mut stage, &mut timer, 200_000_000_000), None);
    timer.unpause();
    assert_eq!(stage_transitions(&mut stage, &mut timer, 100_000_000_000), None);
    assert_eq!(stage_transitions(&mut stage, &mut timer, 81_000_000_000), Some(AreaAttack::Attack));
    assert_eq!(stage, AreaAttack::Attack);
    assert_eq!(stage_transitions(&mut stage, &mut timer, 180_000_000_000), Some(AreaAttack::Lock));
    assert_eq!(stage_transitions(&mut stage, &mut timer, 60_000_000_000), Some(AreaAttack::Finishing));
    assert_eq!(stage, AreaAttack::Finishing);
    assert!(timer.just_finished());
}

#[test]
fn new_games_start_selecting() {
    let shapes = vec![FieldShape::try_from(b"xx\nxx".as_slice()).unwrap()];
    let b = create_game(&shapes).unwrap();
    assert_eq!(b.state, AreaAttack::Selecting);
    assert_eq!(b.field.iter_positions().len(), 4);
    assert_eq!(b.selections.pairs().len(), 0);
    let direct = AreaAttackBundle::new(&shapes[0]).unwrap();
    assert_eq!(direct.template.decode(), shapes[0].decode());
    let mode = IAreaAttack::new();
    assert_eq!(*mode, IAreaAttack);
    let f = mode.create_field(&shapes).unwrap();
    assert_eq!(f.get(Position::new(1, 1)), Some(ServerTile::Empty));
    assert!(AreaAttack::Attack.can_reveal());
    assert!(!AreaAttack::Selecting.can_reveal());
}

#[test]
fn checking_asks_for_unknown_tiles_and_chords() {
    let mut f = block(3, 1, ClientTile::Unknown);
    let r = request_reveal(&mut f, Position::new(0, 0), true, false, AreaAttack::Stage1, &vec![]);
    assert_eq!(r, vec![AreaAttackRequest::Reveal(Position::new(0, 0))]);
    f.set(Position::new(1, 0), ClientTile::Owned { player: 1, num_neighbors: 1 });
    f.set(Position::new(2, 0), ClientTile::Flag);
    let chord = request_reveal(&mut f, Position::new(1, 0), true, false, AreaAttack::Stage1, &vec![]);
    assert_eq!(chord, vec![AreaAttackRequest::Reveal(Position::new(0, 0))]);
    // the tile of another player does not chord
    let other = request_reveal(&mut f, Position::new(1, 0), true, false, AreaAttack::Stage1, &vec![1]);
    assert!(other.is_empty());
}

#[test]
fn flags_toggle_in_the_playing_stages() {
    let mut f = block(1, 1, ClientTile::Unknown);
    let p = Position::new(0, 0);
    request_reveal(&mut f, p, false, true, AreaAttack::Attack, &vec![]);
    assert_eq!(f.get(p), Some(ClientTile::Flag));
    request_reveal(&mut f, p, false, true, AreaAttack::Selecting, &vec![]);
    assert_eq!(f.get(p), Some(ClientTile::Flag));
    request_reveal(&mut f, p, false, true, AreaAttack::Lock, &vec![]);
    assert_eq!(f.get(p), Some(ClientTile::Unknown));
}

#[test]
fn tiles_are_drawn_by_kind() {
    assert_eq!(draw_tiles(ClientTile::Unknown, &vec![]), (9, Tint::Plain));
    assert_eq!(draw_tiles(ClientTile::Owned { player: 2, num_neighbors: 3 }, &vec![2]), (3, Tint::Puppet(2)));
    assert_eq!(draw_tiles(ClientTile::Owned { player: 1, num_neighbors: 0 }, &vec![2]), (0, Tint::Own));
    assert_eq!(draw_tiles(ClientTile::Mine, &vec![]), (11, Tint::Plain));
    assert_eq!(draw_tiles(ClientTile::Flag, &vec![]), (10, Tint::Own));
    assert_eq!(draw_tiles(ClientTile::Destroyed, &vec![]), (9, Tint::Black));
}

#[test]
fn server_messages_change_the_client() {
    assert_eq!(state_transitions(&AreaAttackUpdate::Transition(AreaAttack::Lock)), StageChange::Enter(AreaAttack::Lock));
    assert_eq!(state_transitions(&AreaAttackUpdate::Freeze), StageChange::ResetFreeze);
    assert_eq!(state_transitions(&AreaAttackUpdate::Killed), StageChange::Nothing);
    let mut f = block(2, 1, ClientTile::Unknown);
    let moves = puppet_control(&mut f, &vec![
        AreaAttackUpdate::TileChanged { position: Position::new(1, 0), to: ClientTile::Mine },
        AreaAttackUpdate::Reposition { id: 4, position: Position::new(0, 0) },
        AreaAttackUpdate::TileChanged { position: Position::new(1, 0), to: ClientTile::Destroyed },
    ]);
    assert_eq!(moves, vec![(4, Position::new(0, 0))]);
    assert_eq!(f.get(Position::new(1, 0)), Some(ClientTile::Destroyed));
    let shape = FieldShape::try_from(b"x\nx".as_slice()).unwrap();
    let board = reset_field(&shape).unwrap();
    assert_eq!(board.get(Position::new(0, 1)), Some(ClientTile::Unknown));
}

#[test]
fn destroyed_tiles_stay_destroyed() {
    let mut f = block(15, 15, ServerTile::Empty);
    f.set(Position::new(7, 7), ServerTile::Mine);
    f.set(Position::new(8, 7), ServerTile::Destroyed);
    f.set(Position::new(7, 9), ServerTile::Mine);
    let mut players = vec![player(1)];
    reveal_tiles(&mut f, AreaAttack::Attack, 0, &mut players, &vec![claim(7, 7, 1)]);
    assert_eq!(f.get(Position::new(8, 7)), Some(ServerTile::Destroyed));
    assert_eq!(f.get(Position::new(7, 7)), Some(ServerTile::Destroyed));
    assert_eq!(f.iter_positions().len(), 225);
}

#[test]
fn puppets_are_added_once_and_then_updated() {
    let mut table = PuppetTable::new();
    assert!(table.player_update(3, PlayerColor::Blue, Position::new(1, 1)));
    assert!(table.player_update(4, PlayerColor::Green, Position::new(2, 2)));
    assert!(!table.player_update(3, PlayerColor::Purple, Position::new(5, 5)));
    assert_eq!(table.ids(), vec![3, 4]);
}

#[test]
fn own_changes_wait_for_the_board() {
    let updates = vec![
        AreaAttackUpdate::SelfChange { color: PlayerColor::Blue, position: Position::new(1, 1) },
        AreaAttackUpdate::Freeze,
        AreaAttackUpdate::SelfChange { color: PlayerColor::Green, position: Position::new(2, 2) },
    ];
    assert_eq!(self_update(None, &updates, false), SelfUpdate::Keep(PlayerColor::Green, Position::new(2, 2)));
    assert_eq!(self_update(None, &updates, true), SelfUpdate::Place(PlayerColor::Green, Position::new(2, 2)));
    assert_eq!(
        self_update(Some((PlayerColor::Yellow, Position::new(0, 0))), &updates, true),
        SelfUpdate::Place(PlayerColor::Yellow, Position::new(0, 0))
    );
    assert_eq!(self_update(None, &vec![AreaAttackUpdate::Killed], true), SelfUpdate::Nothing);
}

#[test]
fn a_client_shows_what_the_server_sends_it() {
    let mut server = block(4, 4, ServerTile::Empty);
    server.set(Position::new(3, 3), ServerTile::Mine);
    let mut players = vec![player(1), player(2)];
    let (_, touched) = reveal_tiles(&mut server, AreaAttack::Stage1, 0, &mut players, &vec![claim(0, 0, 1)]);
    let msgs = send_tiles(&server, &touched, &vec![1, 2]);
    for viewer in [1u64, 2u64] {
        let mut client = block(4, 4, ClientTile::Unknown);
        let mine: Vec<AreaAttackUpdate> = msgs.iter().filter(|(to, _)| *to == viewer).map(|(_, u)| u.clone()).collect();
        puppet_control(&mut client, &mine);
        for p in &touched {
            assert_eq!(client.get(*p), Some(client_tile(&server, *p, viewer)));
        }
    }
    assert_eq!(server.get(Position::new(2, 2)), Some(ServerTile::Owned { player: 1 }));
}
