use quicksweeper::minefield::Minefield;
use quicksweeper::position::Position;
use quicksweeper::singleplayer::{
    advance_to_end, advance_to_game, check_cell, display_mines, flag_cell, generate_minefield, init_check_cell,
    render_mines, reveal_cell, start_position, wipe_minefield, CellRequest, GameOutcome, MineCellState,
    SingleplayerState,
};
use quicksweeper::shape::BlankField;

fn board() -> Minefield<MineCellState> {
    let mut ps = Vec::new();
    for y in 0..3 {
        for x in 0..3 {
            ps.push(Position::new(x, y));
        }
    }
    let mut f = Minefield::new_shaped(&ps, MineCellState::Empty);
    f.set(Position::new(2, 2), MineCellState::Mine);
    f.set(Position::new(2, 1), MineCellState::Mine);
    f
}

fn at(f: &Minefield<MineCellState>, x: isize, y: isize) -> MineCellState {
    f.get(Position::new(x, y)).unwrap()
}

#[test]
fn revealing_floods_empty_areas_with_right_numbers() {
    let mut f = board();
    assert_eq!(f.remaining_blank(), 7);
    let events = reveal_cell(&mut f, &vec![Position::new(0, 0)]);
    assert!(events.is_empty());
    assert_eq!(at(&f, 0, 0), MineCellState::Revealed(0));
    assert_eq!(at(&f, 0, 1), MineCellState::Revealed(0));
    assert_eq!(at(&f, 0, 2), MineCellState::Revealed(0));
    assert_eq!(at(&f, 1, 0), MineCellState::Revealed(1));
    assert_eq!(at(&f, 1, 1), MineCellState::Revealed(2));
    assert_eq!(at(&f, 1, 2), MineCellState::Revealed(2));
    assert_eq!(at(&f, 2, 0), MineCellState::Empty);
    assert_eq!(at(&f, 2, 1), MineCellState::Mine);
    assert_eq!(f.remaining_blank(), 1);

    let events = reveal_cell(&mut f, &vec![Position::new(2, 0)]);
    assert_eq!(events, vec![GameOutcome::Succeeded]);
    assert_eq!(at(&f, 2, 0), MineCellState::Revealed(1));
}

#[test]
fn revealing_a_mine_fails() {
    let mut f = board();
    let events = reveal_cell(&mut f, &vec![Position::new(2, 2)]);
    assert_eq!(events, vec![GameOutcome::Failed]);
    assert_eq!(at(&f, 2, 2), MineCellState::Mine);
}

#[test]
fn a_satisfied_number_reveals_its_unmarked_neighbours() {
    let mut f = board();
    reveal_cell(&mut f, &vec![Position::new(0, 0)]);
    flag_cell(&mut f, Position::new(2, 1));
    assert_eq!(at(&f, 2, 1), MineCellState::FlaggedMine);
    let events = reveal_cell(&mut f, &vec![Position::new(1, 0)]);
    assert_eq!(events, vec![GameOutcome::Succeeded]);
    assert_eq!(at(&f, 2, 0), MineCellState::Revealed(1));
    // the flag, and the mine under it, stay
    assert_eq!(at(&f, 2, 1), MineCellState::FlaggedMine);
    assert_eq!(at(&f, 2, 2), MineCellState::Mine);
}

#[test]
fn flagged_tiles_are_not_revealed() {
    let mut f = board();
    flag_cell(&mut f, Position::new(0, 0));
    let events = reveal_cell(&mut f, &vec![Position::new(0, 0)]);
    assert!(events.is_empty());
    assert_eq!(at(&f, 0, 0), MineCellState::FlaggedEmpty);
}

#[test]
fn flagging_twice_restores_the_tile() {
    let mut f = board();
    for (x, y) in [(0, 0), (2, 2)] {
        let before = at(&f, x, y);
        flag_cell(&mut f, Position::new(x, y));
        assert_ne!(at(&f, x, y), before);
        flag_cell(&mut f, Position::new(x, y));
        assert_eq!(at(&f, x, y), before);
    }
    reveal_cell(&mut f, &vec![Position::new(0, 0)]);
    flag_cell(&mut f, Position::new(0, 0));
    assert_eq!(at(&f, 0, 0), MineCellState::Revealed(0));
}

#[test]
fn wiping_empties_the_board() {
    let mut f = board();
    reveal_cell(&mut f, &vec![Position::new(0, 0)]);
    wipe_minefield(&mut f);
    for y in 0..3 {
        for x in 0..3 {
            assert_eq!(at(&f, x, y), MineCellState::Empty);
        }
    }
    assert_eq!(f.remaining_blank(), 7);
}

#[test]
fn new_games_keep_the_first_move_clear() {
    for _ in 0..20 {
        let mut f = board();
        wipe_minefield(&mut f);
        let first = init_check_cell(&f, Position::new(0, 0));
        assert_eq!(first.len(), 4);
        generate_minefield(&mut f, &first);
        let mines = f.iter_positions().into_iter().filter(|p| f.get(*p) == Some(MineCellState::Mine)).count();
        assert_eq!(mines, 2);
        for p in &first {
            assert_eq!(f.get(*p), Some(MineCellState::Empty));
        }
    }
}

#[test]
fn first_outcome_decides() {
    assert_eq!(advance_to_end(&vec![]), None);
    assert_eq!(advance_to_end(&vec![GameOutcome::Failed, GameOutcome::Succeeded]), Some(SingleplayerState::GameFailed));
    assert_eq!(advance_to_end(&vec![GameOutcome::Succeeded]), Some(SingleplayerState::GameSuccess));
    assert_eq!(advance_to_game(SingleplayerState::PreGame, 1), SingleplayerState::Game);
    assert_eq!(advance_to_game(SingleplayerState::PreGame, 0), SingleplayerState::PreGame);
}

#[test]
fn sprites_and_keys() {
    assert_eq!(render_mines(MineCellState::Empty), 9);
    assert_eq!(render_mines(MineCellState::Mine), 9);
    assert_eq!(render_mines(MineCellState::FlaggedMine), 10);
    assert_eq!(render_mines(MineCellState::Revealed(3)), 3);
    assert_eq!(display_mines(MineCellState::Mine), Some(11));
    assert_eq!(display_mines(MineCellState::FlaggedMine), None);
    let p = Position::new(1, 2);
    assert_eq!(check_cell(p, true, true), Some(CellRequest::Check(p)));
    assert_eq!(check_cell(p, false, true), Some(CellRequest::Flag(p)));
    assert_eq!(check_cell(p, false, false), None);
}

#[test]
fn cell_predicates() {
    assert!(MineCellState::FlaggedEmpty.is_flagged());
    assert!(!MineCellState::Mine.is_flagged());
    assert!(MineCellState::FlaggedMine.is_mine());
    assert!(MineCellState::Revealed(0).is_marked());
    assert!(!MineCellState::Empty.is_marked());
}

#[test]
fn the_cursor_starts_at_the_center() {
    let field = BlankField::load(b"xxx\nxxx\nxxx".as_slice()).unwrap();
    assert_eq!(start_position(&field), Position::new(1, 1));
    let none = BlankField::load(b"o".as_slice()).unwrap();
    assert_eq!(start_position(&none), Position::new(0, 0));
}
