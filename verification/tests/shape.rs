use quicksweeper::position::Position;
use quicksweeper::shape::{take_one, BlankField, FieldShape, InvalidCharacter, TileKind};

fn pairs(v: &[Position]) -> Vec<(isize, isize)> {
    v.iter().map(|p| (p.x, p.y)).collect()
}

#[test]
fn shape_reads_rows_from_the_last_line() {
    let shape = FieldShape::try_from(b"xo\nxx".as_slice()).unwrap();
    assert_eq!(pairs(&shape.decode()), vec![(0, 0), (1, 0), (0, 1)]);
    assert!(shape.decodable());
}

#[test]
fn shape_spaces_are_holes() {
    let shape = FieldShape::try_from(b" x x".as_slice()).unwrap();
    assert_eq!(pairs(&shape.decode()), vec![(1, 0), (3, 0)]);
}

#[test]
fn shape_rejects_other_bytes() {
    assert_eq!(FieldShape::try_from(b"xo\nxa".as_slice()).unwrap_err(), b'a');
    assert_eq!(FieldShape::try_from(b"x?\nxa".as_slice()).unwrap_err(), b'a');
}

#[test]
fn tile_kinds() {
    assert_eq!(TileKind::try_from(b'x'), Ok(TileKind::Exists));
    assert_eq!(TileKind::try_from(b'o'), Ok(TileKind::Void));
    assert_eq!(TileKind::try_from(b' '), Ok(TileKind::Void));
    assert_eq!(TileKind::try_from(b'#'), Err(b'#'));
    assert_eq!(TileKind::Void.flip(), TileKind::Exists);
    assert_eq!(TileKind::Exists.flip().flip(), TileKind::Exists);
}

#[test]
fn shape_copies_and_has_no_center() {
    let shape = FieldShape::try_from(b"xxx\nxox\nxxx".as_slice()).unwrap();
    let copy = shape.duplicate();
    assert_eq!(copy.decode(), shape.decode());
    assert_eq!(shape.center(), None);
    assert_eq!(shape.decode().len(), 8);
}

#[test]
fn blank_field_loads_tiles() {
    let field = BlankField::load(b"xo\nox".as_slice()).unwrap();
    assert_eq!(pairs(field.positions()), vec![(1, 0), (0, 1)]);
    assert!(field.is_moderate());
}

#[test]
fn blank_field_refuses_spaces() {
    assert_eq!(BlankField::load(b"x x".as_slice()).unwrap_err(), InvalidCharacter);
}

#[test]
fn blank_field_center_is_middle_of_box() {
    let field = BlankField::load(b"xxx\nxxx\nxxx".as_slice()).unwrap();
    assert_eq!(field.center(), Some(Position::new(1, 1)));
    let ring = BlankField::load(b"xxx\nxox\nxxx".as_slice()).unwrap();
    // the middle is a hole: the first neighbour in direction order, north, is taken
    assert_eq!(ring.center(), Some(Position::new(1, 2)));
    let none = BlankField::load(b"o".as_slice()).unwrap();
    assert_eq!(none.center(), None);
}

#[test]
fn take_one_picks_a_loaded_shape() {
    let shapes = vec![
        FieldShape::try_from(b"x".as_slice()).unwrap(),
        FieldShape::try_from(b"xx".as_slice()).unwrap(),
    ];
    for _ in 0..20 {
        let n = take_one(&shapes).decode().len();
        assert!(n == 1 || n == 2);
    }
}

#[test]
fn both_readings_of_a_layout_agree() {
    let text = b"xxo\noxx\nxox".as_slice();
    let blank = BlankField::load(text).unwrap();
    let shape = FieldShape::try_from(text).unwrap();
    assert_eq!(blank.positions().clone(), shape.decode());
}
