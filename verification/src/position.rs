//! Grid positions, the eight compass directions, neighbourhoods and the
//! discrete disks used when an area of the board is reset.

use vstd::prelude::*;
use arrayvec::ArrayVec;

verus! {

#[verifier::external_type_specification]
#[verifier::external_body]
#[verifier::reject_recursive_types(T)]
pub struct ExArrayVec<T, const CAP: usize>(ArrayVec<T, CAP>);

/// A tile coordinate: `x` is the column, `y` the row.
#[derive(PartialEq, Eq, Clone, Copy, Debug, Hash, Structural)]
pub struct Position {
    pub x: isize,
    pub y: isize,
}

/// The eight compass directions, in the order in which they are enumerated.
#[derive(PartialEq, Eq, Clone, Copy, Debug, Structural)]
pub enum Direction {
    North,
    NorthWest,
    NorthEast,
    West,
    East,
    SouthWest,
    SouthEast,
    South,
}

// ---------------------------------------------------------------------------
// specifications
// ---------------------------------------------------------------------------

pub open spec fn abs(a: int) -> int {
    if a < 0 { -a } else { a }
}

pub open spec fn sq(a: int) -> int {
    a * a
}

/// Division rounding toward zero (Rust's `/` on signed integers).
pub open spec fn trunc_div(a: int, b: int) -> int {
    if b > 0 {
        if a >= 0 { a / b } else { -((-a) / b) }
    } else {
        if a >= 0 { -(a / (-b)) } else { (-a) / (-b) }
    }
}

pub open spec fn in_isize(a: int) -> bool {
    isize::MIN <= a <= isize::MAX
}

pub open spec fn pos(x: int, y: int) -> Position {
    Position { x: x as isize, y: y as isize }
}

/// The offset (dx, dy) of a direction; north is +y, east is +x.
pub open spec fn offset(d: Direction) -> (int, int) {
    match d {
        Direction::North => (0, 1),
        Direction::NorthWest => (-1, 1),
        Direction::NorthEast => (1, 1),
        Direction::West => (-1, 0),
        Direction::East => (1, 0),
        Direction::SouthWest => (-1, -1),
        Direction::SouthEast => (1, -1),
        Direction::South => (0, -1),
    }
}

/// The neighbour of `p` in direction `d`, if its coordinates are representable.
pub open spec fn step(p: Position, d: Direction) -> Option<Position> {
    let nx = p.x + offset(d).0;
    let ny = p.y + offset(d).1;
    if in_isize(nx) && in_isize(ny) { Some(pos(nx, ny)) } else { None }
}

/// All directions in enumeration order.
pub open spec fn direction_seq() -> Seq<Direction> {
    seq![
        Direction::North,
        Direction::NorthWest,
        Direction::NorthEast,
        Direction::West,
        Direction::East,
        Direction::SouthWest,
        Direction::SouthEast,
        Direction::South,
    ]
}

/// The representable neighbours of `p` in the first `n` directions, in order.
pub open spec fn neighbors_upto(p: Position, n: nat) -> Seq<Position>
    decreases n,
{
    if n == 0 {
        Seq::empty()
    } else {
        let rest = neighbors_upto(p, (n - 1) as nat);
        match step(p, direction_seq()[n - 1]) {
            Some(q) => rest.push(q),
            None => rest,
        }
    }
}

/// The representable neighbours of `p`, in direction order.
pub open spec fn spec_neighbors(p: Position) -> Seq<Position> {
    neighbors_upto(p, 8)
}

/// Two positions are distinct and touch (also diagonally).
pub open spec fn adjacent(p: Position, q: Position) -> bool {
    &&& p != q
    &&& abs(q.x - p.x) <= 1
    &&& abs(q.y - p.y) <= 1
}

pub open spec fn no_duplicates(s: Seq<Position>) -> bool {
    forall|i: int, j: int| 0 <= i < j < s.len() ==> s[i] != s[j]
}

/// `e` is how far the disk of radius `r` reaches along column `g`: the largest `e` with
/// `e^2 + g^2 <= r^2`.
pub open spec fn is_ext(r: int, g: int, e: int) -> bool {
    &&& 0 <= e
    &&& sq(e) + sq(g) <= sq(r)
    &&& sq(r) < sq(e + 1) + sq(g)
}

/// How far the disk of radius `r` reaches, on either side, along column `g` (0 <= g <= r).
pub open spec fn ext(r: int, g: int) -> int {
    if 0 <= g <= r { choose|e: int| is_ext(r, g, e) } else { 0 }
}

/// The offset (dx, dy) lies on the disk of radius `r`: at most `r` away from the centre, and
/// not the centre itself.
pub open spec fn in_disk(dx: int, dy: int, r: int) -> bool {
    &&& (dx != 0 || dy != 0)
    &&& sq(dx) + sq(dy) <= sq(r)
}

/// The offset (dx, dy) lies on the rim just outside the disk of radius `r`, as it is traced
/// column by column (from one past where the disk ends in column `dx` up to one past where it
/// ends in the next column toward the centre), or on the caps across the ends of the axes.
pub open spec fn on_rim(dx: int, dy: int, r: int) -> bool {
    ||| (1 <= abs(dx) <= r && ext(r, abs(dx)) + 1 <= abs(dy) <= ext(r, abs(dx) - 1) + 1)
    ||| (abs(dx) == r + 1 && abs(dy) <= 1)
    ||| (dx == 0 && abs(dy) == r + 1)
}

/// The position at offset (dx, dy) from `s`.
pub open spec fn at(s: Position, dx: int, dy: int) -> Position {
    pos(s.x + dx, s.y + dy)
}

/// The four points at distance `k` along the axes around `s`.
pub open spec fn axis_quad(s: Position, k: int) -> Seq<Position> {
    seq![at(s, 0, k), at(s, k, 0), at(s, 0, -k), at(s, -k, 0)]
}

/// The four sign variants of the offset (a, b) around `s`.
pub open spec fn sign_quad(s: Position, a: int, b: int) -> Seq<Position> {
    seq![at(s, a, b), at(s, -a, b), at(s, a, -b), at(s, -a, -b)]
}

// ---------------------------------------------------------------------------
// arithmetic lemmas
// ---------------------------------------------------------------------------

proof fn lemma_sq_lt(a: int, b: int)
    requires
        0 <= a < b,
    ensures
        sq(a) < sq(b),
{
    assert(a * a < b * b) by (nonlinear_arith) requires 0 <= a < b;
}

proof fn lemma_sq_le(a: int, b: int)
    requires
        0 <= a <= b,
    ensures
        sq(a) <= sq(b),
{
    assert(a * a <= b * b) by (nonlinear_arith) requires 0 <= a <= b;
}

proof fn lemma_sq_abs(a: int)
    ensures
        sq(abs(a)) == sq(a),
        sq(a) >= 0,
{
    assert(a * a == (-a) * (-a)) by (nonlinear_arith);
    assert(a * a >= 0) by (nonlinear_arith);
}

proof fn lemma_sq_expand(a: int)
    ensures
        sq(a + 1) == sq(a) + 2 * a + 1,
        sq(2 * a - 1) == 4 * sq(a) - 4 * a + 1,
        sq(2 * a + 1) == 4 * sq(a) + 4 * a + 1,
{
    assert((a + 1) * (a + 1) == a * a + 2 * a + 1) by (nonlinear_arith);
    assert((2 * a - 1) * (2 * a - 1) == 4 * (a * a) - 4 * a + 1) by (nonlinear_arith);
    assert((2 * a + 1) * (2 * a + 1) == 4 * (a * a) + 4 * a + 1) by (nonlinear_arith);
}

/// The largest extension is unique.
proof fn lemma_ext_unique(r: int, g: int, e1: int, e2: int)
    requires
        is_ext(r, g, e1),
        is_ext(r, g, e2),
    ensures
        e1 == e2,
{
    if e1 < e2 {
        lemma_sq_le(e1 + 1, e2);
    } else if e2 < e1 {
        lemma_sq_le(e2 + 1, e1);
    }
}

proof fn lemma_ext(r: int, g: int, e: int)
    requires
        0 <= g <= r,
        is_ext(r, g, e),
    ensures
        ext(r, g) == e,
{
    assert(exists|e0: int| is_ext(r, g, e0));
    lemma_ext_unique(r, g, e, ext(r, g));
}

// ---------------------------------------------------------------------------
// executable code
// ---------------------------------------------------------------------------

/// Integer division rounding toward zero, as Rust's `/` on signed integers does.
fn div_toward_zero(a: isize, b: isize) -> (q: isize)
    requires
        b != 0,
        !(b == -1 && a == isize::MIN),
    ensures
        q == trunc_div(a as int, b as int),
{
    if b > 0 {
        a / b
    } else if b == isize::MIN {
        proof {
            let m: int = -(b as int);
            if a >= 0 {
                assert((a as int) / m == 0) by (nonlinear_arith) requires 0 <= a < m;
            } else if a != isize::MIN {
                assert((-(a as int)) / m == 0) by (nonlinear_arith) requires 0 < -a < m;
            } else {
                assert((-(a as int)) / m == 1) by (nonlinear_arith) requires -a == m, m > 0;
            }
        }
        if a == isize::MIN { 1 } else { 0 }
    } else {
        let nb: isize = -b;
        let q = a / nb;
        proof {
            if nb == 1 {
                assert((-(a as int)) / 1 == -(a as int));
                assert((a as int) / 1 == a as int);
                assert(q == a);
            } else if a >= 0 {
                assert((a as int) / (nb as int) >= 0) by (nonlinear_arith) requires a >= 0, nb >= 2;
            } else {
                let x: int = -(a as int);
                assert(x / (nb as int) < x) by (nonlinear_arith) requires x > 0, nb >= 2;
            }
        }
        -q
    }
}

/// The elements an `ArrayVec` of capacity eight holds, in order.
pub uninterp spec fn neighbor_vec_contents(v: ArrayVec<Position, 8>) -> Seq<Position>;

/// The elements an `ArrayVec` of capacity nine holds, in order.
pub uninterp spec fn group_vec_contents(v: ArrayVec<Position, 9>) -> Seq<Position>;

/// Builds an `ArrayVec` of capacity eight from a slice (`ArrayVec::try_from`), which keeps the
/// elements in order; the slice is short enough that the conversion cannot fail.
#[verifier::external_body]
fn neighbor_vec_from(v: &Vec<Position>) -> (r: ArrayVec<Position, 8>)
    requires
        v.len() <= 8,
    ensures
        neighbor_vec_contents(r) == v@,
{
    ArrayVec::try_from(v.as_slice()).unwrap()
}

/// Builds an `ArrayVec` of capacity nine from a slice (`ArrayVec::try_from`), which keeps the
/// elements in order; the slice is short enough that the conversion cannot fail.
#[verifier::external_body]
fn group_vec_from(v: &Vec<Position>) -> (r: ArrayVec<Position, 9>)
    requires
        v.len() <= 9,
    ensures
        group_vec_contents(r) == v@,
{
    ArrayVec::try_from(v.as_slice()).unwrap()
}

/// Copies the elements of an `ArrayVec` of capacity nine into a `Vec`, in order
/// (`ArrayVec::as_slice`, then `to_vec`).
#[verifier::external_body]
pub(crate) fn group_vec_to_vec(v: &ArrayVec<Position, 9>) -> (r: Vec<Position>)
    ensures
        r@ == group_vec_contents(*v),
{
    v.as_slice().to_vec()
}

impl Direction {
    /// All eight directions, in enumeration order.
    pub fn iter() -> (r: Vec<Direction>)
        ensures
            r@ == direction_seq(),
    {
        let r = vec![
            Direction::North,
            Direction::NorthWest,
            Direction::NorthEast,
            Direction::West,
            Direction::East,
            Direction::SouthWest,
            Direction::SouthEast,
            Direction::South,
        ];
        assert(r@ =~= direction_seq());
        r
    }
}

impl Position {
    /// The origin (0, 0).
    pub fn zero() -> (p: Position)
        ensures
            p.x == 0,
            p.y == 0,
    {
        Position { x: 0, y: 0 }
    }

    pub fn new(x: isize, y: isize) -> (p: Position)
        ensures
            p.x == x,
            p.y == y,
    {
        Position { x, y }
    }

    /// The row of the position (its `y`).
    pub fn row(&self) -> (r: isize)
        ensures
            r == self.y,
    {
        self.y
    }

    /// The column of the position (its `x`).
    pub fn column(&self) -> (c: isize)
        ensures
            c == self.x,
    {
        self.x
    }

    /// Coordinate-wise sum.
    pub fn add(self, rhs: Position) -> (r: Position)
        requires
            in_isize(self.x + rhs.x),
            in_isize(self.y + rhs.y),
        ensures
            r.x == self.x + rhs.x,
            r.y == self.y + rhs.y,
    {
        Position::new(self.x + rhs.x, self.y + rhs.y)
    }

    /// Coordinate-wise difference.
    pub fn sub(self, rhs: Position) -> (r: Position)
        requires
            in_isize(self.x - rhs.x),
            in_isize(self.y - rhs.y),
        ensures
            r.x == self.x - rhs.x,
            r.y == self.y - rhs.y,
    {
        Position::new(self.x - rhs.x, self.y - rhs.y)
    }

    /// Coordinate-wise division, rounding toward zero.
    pub fn div(self, rhs: isize) -> (r: Position)
        requires
            rhs != 0,
            !(rhs == -1 && (self.x == isize::MIN || self.y == isize::MIN)),
        ensures
            r.x == trunc_div(self.x as int, rhs as int),
            r.y == trunc_div(self.y as int, rhs as int),
    {
        Position::new(div_toward_zero(self.x, rhs), div_toward_zero(self.y, rhs))
    }

    /// The neighbour in the given direction, or `None` where a coordinate would overflow.
    pub fn neighbor_direction(&self, direction: Direction) -> (r: Option<Position>)
        ensures
            r == step(*self, direction),
    {
        match direction {
            Direction::North => {
                match self.y.checked_add(1) {
                    Some(y) => Some(Position::new(self.x, y)),
                    None => None,
                }
            },
            Direction::NorthEast => {
                match (self.x.checked_add(1), self.y.checked_add(1)) {
                    (Some(x), Some(y)) => Some(Position::new(x, y)),
                    _ => None,
                }
            },
            Direction::East => {
                match self.x.checked_add(1) {
                    Some(x) => Some(Position::new(x, self.y)),
                    None => None,
                }
            },
            Direction::SouthEast => {
                match (self.x.checked_add(1), self.y.checked_sub(1)) {
                    (Some(x), Some(y)) => Some(Position::new(x, y)),
                    _ => None,
                }
            },
            Direction::South => {
                match self.y.checked_sub(1) {
                    Some(y) => Some(Position::new(self.x, y)),
                    None => None,
                }
            },
            Direction::SouthWest => {
                match (self.x.checked_sub(1), self.y.checked_sub(1)) {
                    (Some(x), Some(y)) => Some(Position::new(x, y)),
                    _ => None,
                }
            },
            Direction::West => {
                match self.x.checked_sub(1) {
                    Some(x) => Some(Position::new(x, self.y)),
                    None => None,
                }
            },
            Direction::NorthWest => {
                match (self.x.checked_sub(1), self.y.checked_add(1)) {
                    (Some(x), Some(y)) => Some(Position::new(x, y)),
                    _ => None,
                }
            },
        }
    }

    /// The representable neighbours, in direction order, as a `Vec`.
    pub fn neighbor_list(&self) -> (r: Vec<Position>)
        ensures
            r@ == spec_neighbors(*self),
    {
        let dirs = Direction::iter();
        let mut r: Vec<Position> = Vec::new();
        let mut i: usize = 0;
        while i < 8
            invariant
                i <= 8,
                dirs@ == direction_seq(),
                r@ == neighbors_upto(*self, i as nat),
            decreases 8 - i,
        {
            if let Some(q) = self.neighbor_direction(dirs[i]) {
                r.push(q);
            }
            i = i + 1;
        }
        r
    }

    /// The representable neighbours, in direction order.
    pub fn neighbors(&self) -> (r: ArrayVec<Position, 8>)
        ensures
            neighbor_vec_contents(r) == spec_neighbors(*self),
    {
        let v = self.neighbor_list();
        proof { lemma_neighbors_len(*self, 8); }
        neighbor_vec_from(&v)
    }

    /// The representable neighbours followed by the position itself.
    pub fn local_group(&self) -> (r: ArrayVec<Position, 9>)
        ensures
            group_vec_contents(r) == spec_neighbors(*self).push(*self),
    {
        let mut v = self.neighbor_list();
        proof { lemma_neighbors_len(*self, 8); }
        v.push(*self);
        group_vec_from(&v)
    }
}

/// Membership in a prefix of the neighbour list: exactly the representable steps in the
/// first `n` directions.
proof fn lemma_neighbors_upto(p: Position, n: nat)
    requires
        n <= 8,
    ensures
        forall|q: Position|
            neighbors_upto(p, n).contains(q) <==> exists|i: int|
                0 <= i < n && #[trigger] step(p, direction_seq()[i]) == Some(q),
        no_duplicates(neighbors_upto(p, n)),
    decreases n,
{
    if n > 0 {
        lemma_neighbors_upto(p, (n - 1) as nat);
        let rest = neighbors_upto(p, (n - 1) as nat);
        let d = direction_seq()[n - 1];
        assert forall|q: Position|
            neighbors_upto(p, n).contains(q) <==> exists|i: int|
                0 <= i < n && #[trigger] step(p, direction_seq()[i]) == Some(q) by {
            if neighbors_upto(p, n).contains(q) {
                if rest.contains(q) {
                    let i = choose|i: int| 0 <= i < n - 1 && #[trigger] step(p, direction_seq()[i]) == Some(q);
                    assert(0 <= i < n && step(p, direction_seq()[i]) == Some(q));
                } else {
                    let k = choose|k: int| 0 <= k < neighbors_upto(p, n).len() && neighbors_upto(p, n)[k] == q;
                    assert(step(p, direction_seq()[n - 1]) == Some(q));
                }
            }
            if exists|i: int| 0 <= i < n && #[trigger] step(p, direction_seq()[i]) == Some(q) {
                let i = choose|i: int| 0 <= i < n && #[trigger] step(p, direction_seq()[i]) == Some(q);
                if i < n - 1 {
                    assert(rest.contains(q));
                    let k = choose|k: int| 0 <= k < rest.len() && rest[k] == q;
                    assert(neighbors_upto(p, n)[k] == q);
                } else {
                    assert(neighbors_upto(p, n)[neighbors_upto(p, n).len() - 1] == q);
                }
            }
        }
        match step(p, d) {
            Some(q) => {
                assert(!rest.contains(q)) by {
                    if rest.contains(q) {
                        let i = choose|i: int| 0 <= i < n - 1 && #[trigger] step(p, direction_seq()[i]) == Some(q);
                        assert(step(p, direction_seq()[i]) == Some(q));
                    }
                }
                assert forall|i: int, j: int| 0 <= i < j < neighbors_upto(p, n).len() implies
                    neighbors_upto(p, n)[i] != neighbors_upto(p, n)[j] by {
                    if j == rest.len() {
                        assert(rest[i] != q) by { assert(rest.contains(rest[i])); }
                    }
                }
            },
            None => {},
        }
    }
}

/// The neighbours of a position are exactly the representable positions touching it, each
/// listed once; away from the edge of the coordinate range there are eight of them.
pub proof fn lemma_neighbors_adjacent(p: Position)
    ensures
        no_duplicates(spec_neighbors(p)),
        forall|q: Position| spec_neighbors(p).contains(q) <==> adjacent(p, q),
        in_isize(p.x - 1) && in_isize(p.x + 1) && in_isize(p.y - 1) && in_isize(p.y + 1)
            ==> spec_neighbors(p).len() == 8,
{
    lemma_neighbors_upto(p, 8);
    assert forall|q: Position| spec_neighbors(p).contains(q) <==> adjacent(p, q) by {
        if adjacent(p, q) {
            let dx = q.x - p.x;
            let dy = q.y - p.y;
            let i: int = if dx == 0 && dy == 1 { 0 } else if dx == -1 && dy == 1 { 1 }
                else if dx == 1 && dy == 1 { 2 } else if dx == -1 && dy == 0 { 3 }
                else if dx == 1 && dy == 0 { 4 } else if dx == -1 && dy == -1 { 5 }
                else if dx == 1 && dy == -1 { 6 } else { 7 };
            assert(step(p, direction_seq()[i]) == Some(q));
        }
        if spec_neighbors(p).contains(q) {
            let i = choose|i: int| 0 <= i < 8 && #[trigger] step(p, direction_seq()[i]) == Some(q);
            assert(step(p, direction_seq()[i]) == Some(q));
        }
    }
    if in_isize(p.x - 1) && in_isize(p.x + 1) && in_isize(p.y - 1) && in_isize(p.y + 1) {
        reveal_with_fuel(neighbors_upto, 9);
    }
}

/// A position has at most eight neighbours.
pub proof fn lemma_neighbors_len8(p: Position)
    ensures
        spec_neighbors(p).len() <= 8,
{
    lemma_neighbors_len(p, 8);
}

proof fn lemma_neighbors_len(p: Position, n: nat)
    ensures
        neighbors_upto(p, n).len() <= n,
    decreases n,
{
    if n > 0 {
        lemma_neighbors_len(p, (n - 1) as nat);
    }
}


// ---------------------------------------------------------------------------
// disks
// ---------------------------------------------------------------------------

proof fn lemma_concat_distinct(a: Seq<Position>, b: Seq<Position>)
    requires
        no_duplicates(a),
        no_duplicates(b),
        forall|i: int| 0 <= i < b.len() ==> !a.contains(#[trigger] b[i]),
    ensures
        no_duplicates(a + b),
        forall|q: Position| #[trigger] (a + b).contains(q) <==> a.contains(q) || b.contains(q),
{
    assert forall|i: int, j: int| 0 <= i < j < (a + b).len() implies (a + b)[i] != (a + b)[j] by {
        if i < a.len() && j >= a.len() {
            assert(a.contains(a[i]));
            assert((a + b)[j] == b[j - a.len()]);
        }
        if i >= a.len() {
            assert((a + b)[i] == b[i - a.len()]);
            assert((a + b)[j] == b[j - a.len()]);
        }
    }
    assert forall|q: Position| #[trigger] (a + b).contains(q) <==> a.contains(q) || b.contains(q) by {
        if (a + b).contains(q) {
            let k = choose|k: int| 0 <= k < (a + b).len() && (a + b)[k] == q;
            if k >= a.len() {
                assert(b[k - a.len()] == q);
            }
        }
        if a.contains(q) {
            let k = choose|k: int| 0 <= k < a.len() && a[k] == q;
            assert((a + b)[k] == q);
        }
        if b.contains(q) {
            let k = choose|k: int| 0 <= k < b.len() && b[k] == q;
            assert((a + b)[k + a.len()] == q);
        }
    }
}

/// Offsets within the coordinate range around `s`.
pub open spec fn offset_fits(s: Position, bound: int) -> bool {
    &&& in_isize(s.x - bound) && in_isize(s.x + bound)
    &&& in_isize(s.y - bound) && in_isize(s.y + bound)
}

proof fn lemma_axis_quad(s: Position, k: int)
    requires
        0 < k,
        offset_fits(s, k),
    ensures
        no_duplicates(axis_quad(s, k)),
        forall|q: Position| #[trigger] axis_quad(s, k).contains(q) <==> (
            (q.x - s.x == 0 || q.y - s.y == 0) && abs(q.x - s.x) + abs(q.y - s.y) == k),
{
    let o = axis_quad(s, k);
    assert forall|q: Position| #[trigger] o.contains(q) <==> (
        (q.x - s.x == 0 || q.y - s.y == 0) && abs(q.x - s.x) + abs(q.y - s.y) == k) by {
        if o.contains(q) {
            let j = choose|j: int| 0 <= j < o.len() && o[j] == q;
            assert(0 <= j < 4);
        } else {
            assert(q != o[0] && q != o[1] && q != o[2] && q != o[3]);
        }
    }
}

proof fn lemma_sign_quad(s: Position, a: int, b: int)
    requires
        0 < a,
        0 < b,
        offset_fits(s, a),
        offset_fits(s, b),
    ensures
        no_duplicates(sign_quad(s, a, b)),
        forall|q: Position| #[trigger] sign_quad(s, a, b).contains(q) <==> (
            abs(q.x - s.x) == a && abs(q.y - s.y) == b),
{
    let o = sign_quad(s, a, b);
    assert forall|q: Position| #[trigger] o.contains(q) <==> (
        abs(q.x - s.x) == a && abs(q.y - s.y) == b) by {
        if o.contains(q) {
            let j = choose|j: int| 0 <= j < o.len() && o[j] == q;
            assert(0 <= j < 4);
        } else {
            assert(q != o[0] && q != o[1] && q != o[2] && q != o[3]);
        }
    }
}

fn push_at(v: &mut Vec<Position>, s: Position, dx: isize, dy: isize)
    requires
        in_isize(s.x + dx),
        in_isize(s.y + dy),
    ensures
        final(v)@ == old(v)@.push(at(s, dx as int, dy as int)),
{
    v.push(Position::new(s.x + dx, s.y + dy));
}

fn push_axis_quad(v: &mut Vec<Position>, s: Position, k: isize)
    requires
        0 < k,
        offset_fits(s, k as int),
    ensures
        final(v)@ == old(v)@ + axis_quad(s, k as int),
{
    push_at(v, s, 0, k);
    push_at(v, s, k, 0);
    push_at(v, s, 0, -k);
    push_at(v, s, -k, 0);
    assert(v@ =~= old(v)@ + axis_quad(s, k as int));
}

fn push_sign_quad(v: &mut Vec<Position>, s: Position, a: isize, b: isize)
    requires
        0 < a,
        0 < b,
        offset_fits(s, a as int),
        offset_fits(s, b as int),
    ensures
        final(v)@ == old(v)@ + sign_quad(s, a as int, b as int),
{
    push_at(v, s, a, b);
    push_at(v, s, -a, b);
    push_at(v, s, a, -b);
    push_at(v, s, -a, -b);
    assert(v@ =~= old(v)@ + sign_quad(s, a as int, b as int));
}

/// The largest coordinate span computed with: a radius whose disk fits the coordinate range
/// is at most this, so its squares, and sums of two of them, fit an `i128`.
pub open spec fn max_span() -> int {
    0x7fff_ffff_ffff_ffff
}

/// A disk that fits the coordinate range has a radius of at most [`max_span`].
proof fn lemma_span(s: Position, b: int)
    requires
        0 <= b,
        offset_fits(s, b),
    ensures
        b <= max_span(),
{
    assert(isize::MAX <= 0x7fff_ffff_ffff_ffff);
    assert(isize::MIN >= -0x8000_0000_0000_0000);
}

fn square(a: i128) -> (s: i128)
    requires
        0 <= a <= max_span(),
    ensures
        s == sq(a as int),
        0 <= s <= max_span() * max_span(),
{
    proof {
        assert(0 <= a * a <= 0x7fff_ffff_ffff_ffff * 0x7fff_ffff_ffff_ffff) by (nonlinear_arith)
            requires 0 <= a <= 0x7fff_ffff_ffff_ffff;
    }
    a * a
}

proof fn lemma_ext_search(r: int, g: int, e: int)
    requires
        0 <= g <= r,
        0 <= e,
        sq(e) + sq(g) <= sq(r),
    ensures
        exists|e2: int| is_ext(r, g, e2),
    decreases r - e,
{
    lemma_sq_abs(g);
    if e > r {
        lemma_sq_lt(r, e);
    }
    if sq(r) < sq(e + 1) + sq(g) {
        assert(is_ext(r, g, e));
    } else {
        if e + 1 > r {
            lemma_sq_lt(r, e + 1);
        }
        lemma_ext_search(r, g, e + 1);
    }
}

/// The extension along a column of the disk exists; it is at most the radius, and below it
/// away from the centre column.
proof fn lemma_ext_exists(r: int, g: int)
    requires
        0 <= g <= r,
    ensures
        is_ext(r, g, ext(r, g)),
        0 <= ext(r, g) <= r,
        g >= 1 ==> ext(r, g) < r,
{
    lemma_sq_le(g, r);
    assert(sq(0) == 0);
    lemma_ext_search(r, g, 0);
    let e = ext(r, g);
    lemma_sq_abs(g);
    if e > r {
        lemma_sq_lt(r, e);
    }
    if g >= 1 && e >= r {
        lemma_sq_le(r, e);
        lemma_sq_lt(0, g);
    }
}

/// Along the centre column the disk reaches the radius; along the outermost column it reaches
/// only the axis.
proof fn lemma_ext_ends(r: int)
    requires
        0 <= r,
    ensures
        ext(r, 0) == r,
        ext(r, r) == 0,
{
    lemma_sq_expand(r);
    assert(sq(0) == 0);
    assert(sq(1) == 1);
    lemma_sq_abs(r);
    lemma_ext(r, 0, r);
    lemma_ext(r, r, 0);
}

/// The extension does not grow from one column to the next, away from the centre.
proof fn lemma_ext_mono(r: int, g: int)
    requires
        0 <= g < r,
    ensures
        ext(r, g + 1) <= ext(r, g),
{
    lemma_ext_exists(r, g);
    lemma_ext_exists(r, g + 1);
    let e0 = ext(r, g);
    let e1 = ext(r, g + 1);
    lemma_sq_lt(g, g + 1);
    if e1 > e0 {
        lemma_sq_le(e0 + 1, e1);
    }
}

/// The largest extension along column `g`, searched upward from `e`.
fn extend(r: i128, g: i128, e: i128) -> (e2: i128)
    requires
        1 <= g <= r <= max_span(),
        0 <= e,
        sq(e as int) + sq(g as int) <= sq(r as int),
    ensures
        is_ext(r as int, g as int, e2 as int),
        e <= e2 < r,
{
    let mut e2 = e;
    proof {
        lemma_sq_lt(0, g as int);
        lemma_sq_abs(e as int);
        if e2 >= r { lemma_sq_le(r as int, e2 as int); }
    }
    while square(e2 + 1) + square(g) <= square(r)
        invariant
            1 <= g <= r <= max_span(),
            0 <= e <= e2 < r,
            sq(e2 as int) + sq(g as int) <= sq(r as int),
        decreases r - e2,
    {
        e2 = e2 + 1;
        proof {
            lemma_sq_lt(0, g as int);
            if e2 >= r { lemma_sq_le(r as int, e2 as int); }
        }
    }
    e2
}

/// Offsets of the disk filled so far: the columns beyond `g`, off the axes.
pub open spec fn disk_beyond(dx: int, dy: int, r: int, g: int) -> bool {
    g < abs(dx) <= r && 1 <= abs(dy) <= ext(r, abs(dx))
}

impl Position {
    /// All positions at most the given radius away from this one, without the centre, each
    /// exactly once. The edge of the circle is marched column by column from the outside in;
    /// each column is filled up to the edge and mirrored to the four quadrants, and the axes
    /// are added last.
    pub fn radius(&self, radius: usize) -> (v: Vec<Position>)
        requires
            1 <= radius,
            offset_fits(*self, radius as int),
        ensures
            no_duplicates(v@),
            forall|q: Position| #[trigger] v@.contains(q) <==> in_disk(q.x - self.x, q.y - self.y, radius as int),
    {
        let s = *self;
        proof { lemma_span(s, radius as int); }
        let r: i128 = radius as i128;
        let ghost ri: int = r as int;
        let mut v: Vec<Position> = Vec::new();

        // the columns, from the edge of the circle inward
        let mut g: i128 = r;
        let mut e: i128 = 0;
        proof { lemma_ext_ends(ri); lemma_ext_exists(ri, ri); }
        while g >= 1
            invariant
                1 <= r <= max_span(),
                ri == r as int,
                0 <= g <= r,
                g >= 1 ==> e == ext(ri, g as int),
                0 <= e < r,
                offset_fits(s, ri),
                no_duplicates(v@),
                forall|q: Position| #[trigger] v@.contains(q) <==> disk_beyond(q.x - s.x, q.y - s.y, ri, g as int),
            decreases g,
        {
            let mut t: i128 = 1;
            while t <= e
                invariant
                    1 <= r <= max_span(),
                    ri == r as int,
                    1 <= g <= r,
                    e == ext(ri, g as int),
                    0 <= e < r,
                    1 <= t <= e + 1,
                    offset_fits(s, ri),
                    no_duplicates(v@),
                    forall|q: Position| #[trigger] v@.contains(q) <==> (
                        disk_beyond(q.x - s.x, q.y - s.y, ri, g as int)
                        || (abs(q.x - s.x) == g && 1 <= abs(q.y - s.y) < t)),
                decreases e + 1 - t,
            {
                let ghost old_v = v@;
                proof { lemma_sign_quad(s, g as int, t as int); }
                push_sign_quad(&mut v, s, g as isize, t as isize);
                proof {
                    let o = sign_quad(s, g as int, t as int);
                    assert forall|i: int| 0 <= i < o.len() implies !old_v.contains(#[trigger] o[i]) by {
                        assert(o.contains(o[i]));
                    }
                    lemma_concat_distinct(old_v, o);
                }
                t = t + 1;
            }
            proof {
                assert forall|q: Position| #[trigger] v@.contains(q) <==> disk_beyond(q.x - s.x, q.y - s.y, ri, g - 1) by {}
            }
            if g >= 2 {
                proof {
                    lemma_ext_exists(ri, g as int);
                    lemma_sq_lt((g - 1) as int, g as int);
                }
                e = extend(r, g - 1, e);
                proof { lemma_ext(ri, (g - 1) as int, e as int); }
            }
            g = g - 1;
        }

        // the four radii along the axes
        let mut k: i128 = 1;
        while k <= r
            invariant
                1 <= r <= max_span(),
                ri == r as int,
                1 <= k <= r + 1,
                offset_fits(s, ri),
                no_duplicates(v@),
                forall|q: Position| #[trigger] v@.contains(q) <==> (
                    disk_beyond(q.x - s.x, q.y - s.y, ri, 0)
                    || ((q.x - s.x == 0 || q.y - s.y == 0) && 1 <= abs(q.x - s.x) + abs(q.y - s.y) < k)),
            decreases r + 1 - k,
        {
            let ghost old_v = v@;
            proof { lemma_axis_quad(s, k as int); }
            push_axis_quad(&mut v, s, k as isize);
            proof {
                let o = axis_quad(s, k as int);
                assert forall|i: int| 0 <= i < o.len() implies !old_v.contains(#[trigger] o[i]) by {
                    assert(o.contains(o[i]));
                }
                lemma_concat_distinct(old_v, o);
            }
            k = k + 1;
        }
        proof {
            assert forall|q: Position| #[trigger] v@.contains(q) <==> in_disk(q.x - s.x, q.y - s.y, ri) by {
                let dx = q.x - s.x;
                let dy = q.y - s.y;
                lemma_disk_column(ri, dx, dy);
                lemma_sq_abs(dx);
                lemma_sq_abs(dy);
                if dx == 0 || dy == 0 {
                    let m = abs(dx) + abs(dy);
                    assert(sq(dx) + sq(dy) == sq(m));
                    if m <= ri { lemma_sq_le(m, ri); } else { lemma_sq_lt(ri, m); }
                }
            }
        }
        v
    }
}

/// The sign variants of the offsets (g, t) for t from t0 to t1, in that order.
pub open spec fn quad_run(s: Position, g: int, t0: int, t1: int) -> Seq<Position>
    decreases t1 - t0 + 1,
{
    if t0 > t1 { seq![] } else { sign_quad(s, g, t0) + quad_run(s, g, t0 + 1, t1) }
}

/// The rim of the disk of radius `r`, column by column from column `g` toward the centre.
pub open spec fn ring_from(s: Position, r: int, g: int) -> Seq<Position>
    decreases g,
{
    if g < 1 { seq![] } else { quad_run(s, g, ext(r, g) + 1, ext(r, g - 1) + 1) + ring_from(s, r, g - 1) }
}

/// The rim of the disk of radius `r` around `s` in the order it is traced: the columns from the
/// outermost inward, then the caps across the ends of the axes.
pub open spec fn rim_seq(s: Position, r: int) -> Seq<Position> {
    ring_from(s, r, r) + axis_quad(s, r + 1) + sign_quad(s, r + 1, 1)
}

/// Offsets of the rim traced so far: the columns beyond `g`.
pub open spec fn rim_beyond(dx: int, dy: int, r: int, g: int) -> bool {
    g < abs(dx) <= r && ext(r, abs(dx)) + 1 <= abs(dy) <= ext(r, abs(dx) - 1) + 1
}

impl Position {
    /// All positions just outside the disk of the given radius around this one: for each column
    /// `dx` of the disk, the cells from one past where the disk ends at `dx` up to one past
    /// where it ends at the column closer to the centre, mirrored to all four quadrants;
    /// followed by the caps across the ends of the axes. Each position appears once.
    pub fn disk_neighbors(&self, radius: usize) -> (v: Vec<Position>)
        requires
            offset_fits(*self, radius as int + 1),
        ensures
            no_duplicates(v@),
            forall|q: Position| #[trigger] v@.contains(q) <==> on_rim(q.x - self.x, q.y - self.y, radius as int),
            v@ == rim_seq(*self, radius as int),
    {
        let s = *self;
        proof { lemma_span(s, radius as int + 1); }
        let r: i128 = radius as i128;
        let ghost ri: int = r as int;
        let mut v: Vec<Position> = Vec::new();
        let mut g: i128 = r;
        let mut prev: i128 = 0;
        proof {
            lemma_ext_ends(ri);
            assert(v@ + ring_from(s, ri, ri) =~= ring_from(s, ri, ri));
        }
        while g >= 1
            invariant
                0 <= r < max_span(),
                ri == r as int,
                0 <= g <= r,
                prev == ext(ri, g as int),
                0 <= prev <= r,
                offset_fits(s, ri + 1),
                no_duplicates(v@),
                forall|q: Position| #[trigger] v@.contains(q) <==> rim_beyond(q.x - s.x, q.y - s.y, ri, g as int),
                v@ + ring_from(s, ri, g as int) == ring_from(s, ri, ri),
            decreases g,
        {
            proof { lemma_ext_exists(ri, g as int); lemma_ext_ends(ri); }
            let next: i128 = if g == 1 {
                r
            } else {
                proof { lemma_sq_lt((g - 1) as int, g as int); }
                extend(r, g - 1, prev)
            };
            proof {
                if g >= 2 {
                    lemma_ext(ri, (g - 1) as int, next as int);
                }
                lemma_ext_mono(ri, (g - 1) as int);
                lemma_ext_exists(ri, (g - 1) as int);
            }
            let mut t: i128 = prev + 1;
            let ghost v0 = v@;
            while t <= next + 1
                invariant
                    0 <= r < max_span(),
                    ri == r as int,
                    1 <= g <= r,
                    prev == ext(ri, g as int),
                    next == ext(ri, (g - 1) as int),
                    0 <= prev <= next <= r,
                    prev + 1 <= t <= next + 2,
                    offset_fits(s, ri + 1),
                    no_duplicates(v@),
                    forall|q: Position| #[trigger] v@.contains(q) <==> (
                        rim_beyond(q.x - s.x, q.y - s.y, ri, g as int)
                        || (abs(q.x - s.x) == g && prev + 1 <= abs(q.y - s.y) < t)),
                    v@ + quad_run(s, g as int, t as int, next + 1) == v0 + quad_run(s, g as int, prev + 1, next + 1),
                decreases next + 2 - t,
            {
                let ghost old_v = v@;
                proof { lemma_sign_quad(s, g as int, t as int); }
                push_sign_quad(&mut v, s, g as isize, t as isize);
                proof {
                    let o = sign_quad(s, g as int, t as int);
                    assert(quad_run(s, g as int, t as int, next + 1) == o + quad_run(s, g as int, t + 1, next + 1));
                    assert(v@ + quad_run(s, g as int, t + 1, next + 1) =~= old_v + (o + quad_run(s, g as int, t + 1, next + 1)));
                    assert forall|i: int| 0 <= i < o.len() implies !old_v.contains(#[trigger] o[i]) by {
                        assert(o.contains(o[i]));
                    }
                    lemma_concat_distinct(old_v, o);
                }
                t = t + 1;
            }
            proof {
                assert forall|q: Position| #[trigger] v@.contains(q) <==> rim_beyond(q.x - s.x, q.y - s.y, ri, g - 1) by {}
                assert(quad_run(s, g as int, t as int, next + 1) =~= Seq::<Position>::empty());
                assert(ring_from(s, ri, g as int) == quad_run(s, g as int, prev + 1, next + 1) + ring_from(s, ri, g - 1));
                assert(v@ + ring_from(s, ri, g - 1) =~= v0 + ring_from(s, ri, g as int));
            }
            prev = next;
            g = g - 1;
        }
        let ghost ring = v@;
        proof {
            assert(ring_from(s, ri, 0) =~= Seq::<Position>::empty());
            assert(ring =~= ring_from(s, ri, ri));
        }
        let cap: i128 = r + 1;
        let ghost old_v = v@;
        proof { lemma_axis_quad(s, cap as int); }
        push_axis_quad(&mut v, s, cap as isize);
        proof {
            let o = axis_quad(s, cap as int);
            assert forall|i: int| 0 <= i < o.len() implies !old_v.contains(#[trigger] o[i]) by {
                assert(o.contains(o[i]));
            }
            lemma_concat_distinct(old_v, o);
        }
        let ghost old_v = v@;
        proof { lemma_sign_quad(s, cap as int, 1); }
        push_sign_quad(&mut v, s, cap as isize, 1);
        proof {
            let o = sign_quad(s, cap as int, 1);
            assert forall|i: int| 0 <= i < o.len() implies !old_v.contains(#[trigger] o[i]) by {
                assert(o.contains(o[i]));
            }
            lemma_concat_distinct(old_v, o);
            assert forall|q: Position| #[trigger] v@.contains(q) <==> on_rim(q.x - s.x, q.y - s.y, ri) by {}
            assert(v@ =~= rim_seq(s, ri));
        }
        v
    }
}

// ---------------------------------------------------------------------------
// the rim surrounds the disk
// ---------------------------------------------------------------------------

/// On the disk of radius `r`, or its centre.
pub open spec fn on_disk(dx: int, dy: int, r: int) -> bool {
    (dx == 0 && dy == 0) || in_disk(dx, dy, r)
}

/// At most one step (in any of the eight directions) from the disk or its centre.
pub open spec fn touches_disk(dx: int, dy: int, r: int) -> bool {
    ||| on_disk(dx - 1, dy - 1, r) ||| on_disk(dx - 1, dy, r) ||| on_disk(dx - 1, dy + 1, r)
    ||| on_disk(dx, dy - 1, r) ||| on_disk(dx, dy + 1, r)
    ||| on_disk(dx + 1, dy - 1, r) ||| on_disk(dx + 1, dy, r) ||| on_disk(dx + 1, dy + 1, r)
}

/// How far the disk reaches, up and down, in column `g` (taken from the centre); -1 beyond it.
pub open spec fn column_height(r: int, g: int) -> int {
    if g <= r { ext(r, g) } else { -1 }
}

/// Membership in the disk, column by column.
proof fn lemma_disk_column(r: int, dx: int, dy: int)
    requires
        r >= 0,
    ensures
        on_disk(dx, dy, r) <==> abs(dy) <= column_height(r, abs(dx)),
{
    let g = abs(dx);
    let y = abs(dy);
    lemma_sq_abs(dx);
    lemma_sq_abs(dy);
    lemma_sq_abs(r);
    assert(sq(0) == 0);
    assert(on_disk(dx, dy, r) <==> sq(g) + sq(y) <= sq(r));
    if g <= r {
        lemma_ext_exists(r, g);
        let e = ext(r, g);
        if y <= e {
            lemma_sq_le(y, e);
        } else {
            lemma_sq_le(e + 1, y);
        }
    } else {
        lemma_sq_lt(r, g);
    }
}

/// The disk's columns do not grow away from the centre.
proof fn lemma_column_mono(r: int, g: int)
    requires
        r >= 0,
        0 <= g,
    ensures
        column_height(r, g + 1) <= column_height(r, g),
        column_height(r, g) >= -1,
        g <= r ==> column_height(r, g) >= 0,
{
    if g <= r {
        lemma_ext_exists(r, g);
    }
    if g + 1 <= r {
        lemma_ext_exists(r, g + 1);
        lemma_ext_mono(r, g);
    }
}

/// The rim of a disk is made of exactly the tiles that are not on the disk (nor its centre)
/// and lie at most one step, in any of the eight directions, from it.
pub proof fn lemma_rim_surrounds_disk(dx: int, dy: int, r: int)
    requires
        r >= 0,
    ensures
        on_rim(dx, dy, r) <==> (!on_disk(dx, dy, r) && touches_disk(dx, dy, r)),
{
    let g = abs(dx);
    let y = abs(dy);
    let g0 = if g >= 1 { g - 1 } else { 0 };
    let y0 = if y >= 1 { y - 1 } else { 0 };
    // each neighbour, column by column
    lemma_disk_column(r, dx, dy);
    lemma_disk_column(r, dx - 1, dy - 1);
    lemma_disk_column(r, dx - 1, dy);
    lemma_disk_column(r, dx - 1, dy + 1);
    lemma_disk_column(r, dx, dy - 1);
    lemma_disk_column(r, dx, dy + 1);
    lemma_disk_column(r, dx + 1, dy - 1);
    lemma_disk_column(r, dx + 1, dy);
    lemma_disk_column(r, dx + 1, dy + 1);
    lemma_column_mono(r, g);
    lemma_column_mono(r, g0);
    lemma_column_mono(r, g + 1);
    lemma_ext_ends(r);
    // the rim in columns: above the column's height, and within one of the next column in
    assert(touches_disk(dx, dy, r) && !on_disk(dx, dy, r) <==> (y > column_height(r, g) && y0 <= column_height(r, g0)));
}

} // verus!
