use std::collections::HashSet;

use quicksweeper::position::{Direction, Position};

fn pairs(v: &[Position]) -> Vec<(isize, isize)> {
    v.iter().map(|p| (p.x, p.y)).collect()
}

#[test]
fn position_radii() {
    println!("disk 8: {:?}", pairs(&Position::zero().radius(8)));
    println!("perimeter 8: {:?}", pairs(&Position::zero().disk_neighbors(8)));
    println!("disk 4: {:?}", pairs(&Position::zero().radius(4)));
    println!("disk 10: {:?}", pairs(&Position::zero().radius(10)));

    let mut unique = HashSet::new();
    let mut duplicates = Vec::new();
    for p in Position::zero().radius(10) {
        if !unique.insert(p) {
            duplicates.push((p.x, p.y));
        }
    }

    assert_eq!(duplicates.len(), 0, "duplicated (may contain duplicates itself): {duplicates:?}");
}

#[test]
fn neighbors_fit_in_eight() {
    let n = Position::new(-4, 9).neighbors();
    assert_eq!(n.to_vec(), Position::new(-4, 9).neighbor_list());
}

#[test]
fn neighbors_come_in_direction_order() {
    let n = Position::zero().neighbor_list();
    assert_eq!(
        pairs(&n),
        vec![(0, 1), (-1, 1), (1, 1), (-1, 0), (1, 0), (-1, -1), (1, -1), (0, -1)]
    );
    assert_eq!(Direction::iter().len(), 8);
}

#[test]
fn neighbors_skip_unrepresentable_positions() {
    let n = Position::new(isize::MAX, 0).neighbor_list();
    assert_eq!(n.len(), 5);
    assert!(n.iter().all(|p| p.x <= isize::MAX && p.x >= isize::MAX - 1));
}

#[test]
fn local_group_is_neighbors_then_self() {
    let p = Position::new(3, -2);
    let g = p.local_group().to_vec();
    assert_eq!(g.len(), 9);
    assert_eq!(g[8], p);
    assert_eq!(&g[..8], &p.neighbor_list()[..]);
}

#[test]
fn radius_one_is_the_four_axis_neighbors() {
    let mut v = pairs(&Position::new(5, 5).radius(1));
    v.sort();
    assert_eq!(v, vec![(4, 5), (5, 4), (5, 6), (6, 5)]);
}

#[test]
fn radius_excludes_center_and_stays_within() {
    for r in 1..=12usize {
        let c = Position::new(100, -40);
        let v = c.radius(r);
        let set: HashSet<Position> = v.iter().copied().collect();
        assert_eq!(set.len(), v.len(), "radius {r} repeats a position");
        assert!(!set.contains(&c));
        for p in &v {
            let (dx, dy) = (p.x - c.x, p.y - c.y);
            assert!(dx * dx + dy * dy <= (r * r) as isize, "radius {r}: {dx},{dy} outside");
        }
        // symmetric under the eight reflections of the grid
        for p in &v {
            let (dx, dy) = (p.x - c.x, p.y - c.y);
            for (a, b) in [(dx, -dy), (-dx, dy), (dy, dx)] {
                assert!(set.contains(&Position::new(c.x + a, c.y + b)));
            }
        }
    }
}

#[test]
fn radius_holds_every_position_within_reach() {
    for r in 1..=12isize {
        let c = Position::new(-30, 17);
        let set: HashSet<Position> = c.radius(r as usize).into_iter().collect();
        for dx in -r - 2..=r + 2 {
            for dy in -r - 2..=r + 2 {
                let q = Position::new(c.x + dx, c.y + dy);
                let within = (dx, dy) != (0, 0) && dx * dx + dy * dy <= r * r;
                assert_eq!(set.contains(&q), within, "radius {r}: offset {dx},{dy}");
            }
        }
    }
    // points exactly on the circle and the diagonal corners are on the disk
    let five: HashSet<Position> = Position::zero().radius(5).into_iter().collect();
    assert!(five.contains(&Position::new(3, 4)));
    assert!(five.contains(&Position::new(-4, -3)));
    let two: HashSet<Position> = Position::zero().radius(2).into_iter().collect();
    assert!(two.contains(&Position::new(1, 1)));
    assert_eq!(two.len(), 12);
}

#[test]
fn radius_reaches_the_edge_of_the_coordinates() {
    let c = Position::new(isize::MIN + 3, isize::MAX - 3);
    let v = c.radius(3);
    assert_eq!(v.len(), 28);
    assert!(v.contains(&Position::new(isize::MIN, isize::MAX - 3)));
    assert!(v.contains(&Position::new(isize::MIN + 3, isize::MAX)));
}

#[test]
fn rim_of_radius_zero_is_the_eight_neighbors() {
    let mut v = pairs(&Position::new(2, 2).disk_neighbors(0));
    v.sort();
    assert_eq!(v, vec![(1, 1), (1, 2), (1, 3), (2, 1), (2, 3), (3, 1), (3, 2), (3, 3)]);
}

#[test]
fn disk_neighbors_surround_the_disk() {
    for r in 1..=10usize {
        let c = Position::zero();
        let mut disk: HashSet<Position> = c.radius(r).into_iter().collect();
        disk.insert(c);
        let rim = c.disk_neighbors(r);
        let rim_set: HashSet<Position> = rim.iter().copied().collect();
        assert_eq!(rim_set.len(), rim.len(), "radius {r}: rim repeats a position");
        for p in &rim {
            assert!(!disk.contains(p), "radius {r}: rim tile {p:?} lies on the disk");
            let touches = c.radius(1).iter().chain(p.neighbor_list().iter()).any(|q| disk.contains(q));
            assert!(touches, "radius {r}: rim tile {p:?} does not touch the disk");
        }
        // and every tile next to the disk, off it, is on the rim
        let mut missing = Vec::new();
        for q in &disk {
            for n in q.neighbor_list() {
                if !disk.contains(&n) && !rim_set.contains(&n) {
                    missing.push((n.x, n.y));
                }
            }
        }
        assert!(missing.is_empty(), "radius {r}: tiles next to the disk missing from the rim: {missing:?}");
    }
}

#[test]
fn add_sub_and_div() {
    let p = Position::new(7, -3);
    let q = Position::new(-2, 10);
    assert_eq!(p.add(q), Position::new(5, 7));
    assert_eq!(p.add(q).sub(q), p);
    assert_eq!(Position::new(-7, 7).div(2), Position::new(-3, 3));
    assert_eq!(Position::new(9, -9).div(-4), Position::new(-2, 2));
    assert_eq!(p.row(), -3);
    assert_eq!(p.column(), 7);
}

#[test]
fn neighbor_direction_checks_overflow() {
    assert_eq!(Position::new(0, isize::MAX).neighbor_direction(Direction::North), None);
    assert_eq!(Position::new(0, 0).neighbor_direction(Direction::SouthEast), Some(Position::new(1, -1)));
}
