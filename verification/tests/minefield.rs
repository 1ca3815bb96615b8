use quicksweeper::minefield::{choose_multiple, field_density, fits_board, Minefield};
use quicksweeper::position::Position;
use quicksweeper::shape::{FieldCode, FieldShape};

fn block(w: isize, h: isize) -> Vec<Position> {
    let mut v = Vec::new();
    for y in 0..h {
        for x in 0..w {
            v.push(Position::new(x, y));
        }
    }
    v
}

#[test]
fn density_is_eight_tenths() {
    assert_eq!(field_density(10), 8);
    assert_eq!(field_density(7), 5);
    assert_eq!(field_density(0), 0);
    assert_eq!(field_density(100), 80);
}

#[test]
fn shaped_board_holds_exactly_its_tiles() {
    let ps = vec![Position::new(0, 0), Position::new(2, 1), Position::new(1, 3)];
    let f = Minefield::new_shaped(&ps, 7u8);
    assert_eq!(f.get(Position::new(2, 1)), Some(7));
    assert_eq!(f.get(Position::new(1, 1)), None);
    assert_eq!(f.get(Position::new(-1, 0)), None);
    assert_eq!(f.get(Position::new(0, 40)), None);
    assert_eq!(f.count_tiles_exec(), 3);
    assert_eq!(f.remaining_blank(), 2);
    assert!(f.is_contained(&Position::new(1, 3)));
}

#[test]
fn set_changes_one_tile() {
    let mut f = Minefield::new_shaped(&block(3, 3), 0u8);
    f.set(Position::new(1, 1), 5);
    assert_eq!(f.get(Position::new(1, 1)), Some(5));
    assert_eq!(f.get(Position::new(1, 2)), Some(0));
}

#[test]
fn neighbors_are_the_adjacent_tiles() {
    let f = Minefield::new_shaped(&block(3, 3), 0u8);
    let corner = f.neighbor_positions(Position::new(0, 0));
    assert_eq!(corner, vec![Position::new(0, 1), Position::new(1, 1), Position::new(1, 0)]);
    assert_eq!(f.neighbor_positions(Position::new(1, 1)).len(), 8);
    assert_eq!(f.neighbor_cells(Position::new(1, 1)).len(), 8);
}

#[test]
fn positions_and_first_position() {
    let ps = vec![Position::new(2, 1), Position::new(1, 1), Position::new(3, 4)];
    let f = Minefield::new_shaped(&ps, ());
    assert_eq!(f.iter_positions(), vec![Position::new(1, 1), Position::new(2, 1), Position::new(3, 4)]);
    assert_eq!(f.first_position(), Some(Position::new(1, 1)));
    let empty = Minefield::new_shaped(&Vec::new(), ());
    assert_eq!(empty.first_position(), None);
}

#[test]
fn boards_from_shapes() {
    let shape = FieldShape::try_from(b"xx\nxo".as_slice()).unwrap();
    let f = Minefield::from_shape(&shape, 1u8).unwrap();
    assert_eq!(f.iter_positions(), vec![Position::new(0, 0), Position::new(0, 1), Position::new(1, 1)]);
    assert!(!fits_board(&vec![Position::new(-1, 0)]));
    assert!(fits_board(&vec![Position::new(3, 2)]));
    assert!(!fits_board(&vec![Position::new(isize::MAX, 0)]));
}

#[test]
fn mines_avoid_the_excluded_tiles() {
    for _ in 0..20 {
        let mut f = Minefield::new_shaped(&block(5, 2), 0u8);
        let exclude = vec![Position::new(0, 0), Position::new(1, 0)];
        choose_multiple(&mut f, &exclude, 9u8);
        let mines: Vec<Position> = f.iter_positions().into_iter().filter(|p| f.get(*p) == Some(9)).collect();
        // ten tiles, eight of them blank: two mines
        assert_eq!(mines.len(), 2);
        assert!(!mines.contains(&Position::new(0, 0)));
        assert!(!mines.contains(&Position::new(1, 0)));
    }
}

#[test]
fn mines_fill_what_is_free_when_little_is() {
    let mut f = Minefield::new_shaped(&block(5, 2), 0u8);
    let exclude: Vec<Position> = block(5, 2).into_iter().skip(1).collect();
    choose_multiple(&mut f, &exclude, 9u8);
    assert_eq!(f.get(Position::new(0, 0)), Some(9));
    assert_eq!(f.iter_positions().into_iter().filter(|p| f.get(*p) == Some(9)).count(), 1);
}

#[test]
fn shapes_below_the_origin_make_no_board() {
    // a run before any row lies below row zero
    let shape = FieldShape::from_codes(vec![FieldCode::Run(1)]);
    assert_eq!(shape.decode(), vec![Position::new(0, -1)]);
    assert!(Minefield::from_shape(&shape, 0u8).is_none());
    assert!(quicksweeper::area_attack::client::reset_field(&shape).is_none());
    assert!(quicksweeper::area_attack::server::AreaAttackBundle::new(&shape).is_none());
    assert_eq!(FieldShape::from_codes(shape.to_codes()).decode(), shape.decode());
}
