//! The minefield: a board of the shape of a layout, each of whose tiles carries a state.

use vstd::prelude::*;
use crate::position::{spec_neighbors, lemma_neighbors_adjacent, adjacent, Position};
use crate::shape::{decoded, max_x, max_y, shape_size, FieldShape};

verus! {

/// A board: the tiles of a layout, each with a state of type `T`, stored row by row over the
/// layout's bounding box (which starts at the origin).
pub struct Minefield<T> {
    width: usize,
    height: usize,
    cells: Vec<Option<T>>,
    /// How many tiles without a mine are still to be revealed.
    remaining_blank: usize,
}

/// The slot of position `p` in a row-major grid of the given width, if `p` lies in it.
pub open spec fn slot(w: int, h: int, p: Position) -> int {
    p.y * w + p.x
}

pub open spec fn in_box(w: int, h: int, p: Position) -> bool {
    0 <= p.x < w && 0 <= p.y < h
}

/// The state stored for `p` in a grid, if `p` is a tile of it.
pub open spec fn grid_get<T>(cells: Seq<Option<T>>, w: int, h: int, p: Position) -> Option<T> {
    if in_box(w, h, p) && 0 <= slot(w, h, p) < cells.len() { cells[slot(w, h, p)] } else { None }
}

/// The positions of `s` that are tiles of the grid, in order.
pub open spec fn keep_tiles<T>(cells: Seq<Option<T>>, w: int, h: int, s: Seq<Position>) -> Seq<Position>
    decreases s.len(),
{
    if s.len() == 0 {
        seq![]
    } else {
        let rest = keep_tiles(cells, w, h, s.drop_last());
        if grid_get(cells, w, h, s.last()).is_some() { rest.push(s.last()) } else { rest }
    }
}

/// The tiles of a grid that neighbour `p`, in direction order.
pub open spec fn grid_neighbors<T>(cells: Seq<Option<T>>, w: int, h: int, p: Position) -> Seq<Position> {
    keep_tiles(cells, w, h, spec_neighbors(p))
}

/// The number of tiles of a grid.
pub open spec fn count_tiles<T>(cells: Seq<Option<T>>) -> int
    decreases cells.len(),
{
    if cells.len() == 0 {
        0
    } else {
        count_tiles(cells.drop_last()) + if cells.last().is_some() { 1int } else { 0 }
    }
}

/// The share of the tiles that are to be free of mines: eight tenths, rounded down.
pub open spec fn density(cells: int) -> int {
    cells * 8 / 10
}

/// Converts from the amount of tiles of a board to the amount of tiles without a mine.
pub fn field_density(val: usize) -> (r: usize)
    requires
        val * 8 <= usize::MAX,
    ensures
        r == density(val as int),
{
    val * 8 / 10
}

pub(crate) proof fn lemma_slot_unique(w: int, h: int, p: Position, q: Position)
    requires
        in_box(w, h, p),
        in_box(w, h, q),
        p != q,
    ensures
        slot(w, h, p) != slot(w, h, q),
{
    let (px, py, qx, qy) = (p.x as int, p.y as int, q.x as int, q.y as int);
    if py == qy {
        assert(px != qx);
    } else if py < qy {
        assert(py * w + w <= qy * w) by (nonlinear_arith) requires py < qy, w >= 0;
    } else {
        assert(qy * w + w <= py * w) by (nonlinear_arith) requires qy < py, w >= 0;
    }
}

proof fn lemma_slot_range(w: int, h: int, p: Position)
    requires
        in_box(w, h, p),
    ensures
        0 <= slot(w, h, p) < w * h,
        0 <= p.y * w <= slot(w, h, p),
{
    let (px0, py0) = (p.x as int, p.y as int);
    assert(0 <= py0 * w) by (nonlinear_arith) requires 0 <= py0, 0 <= w;
    let (px, py) = (p.x as int, p.y as int);
    assert(0 <= py * w + px < w * h) by (nonlinear_arith)
        requires 0 <= px < w, 0 <= py < h;
}

proof fn lemma_count_tiles_update<T>(cells: Seq<Option<T>>, i: int, v: Option<T>)
    requires
        0 <= i < cells.len(),
        cells[i].is_some() == v.is_some(),
    ensures
        count_tiles(cells.update(i, v)) == count_tiles(cells),
    decreases cells.len(),
{
    if i < cells.len() - 1 {
        assert(cells.update(i, v).drop_last() =~= cells.drop_last().update(i, v));
        lemma_count_tiles_update(cells.drop_last(), i, v);
    } else {
        assert(cells.update(i, v).drop_last() =~= cells.drop_last());
    }
}

proof fn lemma_count_tiles_bound<T>(cells: Seq<Option<T>>)
    ensures
        0 <= count_tiles(cells) <= cells.len(),
    decreases cells.len(),
{
    if cells.len() > 0 {
        lemma_count_tiles_bound(cells.drop_last());
    }
}

fn slot_index(w: usize, h: usize, p: Position) -> (r: usize)
    requires
        in_box(w as int, h as int, p),
        w * h <= usize::MAX,
    ensures
        r == slot(w as int, h as int, p),
        r < w * h,
{
    proof { lemma_slot_range(w as int, h as int, p); }
    let y = p.y as usize;
    let x = p.x as usize;
    y * w + x
}

/// `a` comes before `b` row by row: in a lower row, or further left in the same row.
pub open spec fn row_major_before(a: Position, b: Position) -> bool {
    a.y < b.y || (a.y == b.y && a.x < b.x)
}

/// A board can be laid out over `shape` on this machine: its codes decode, and the positions
/// they give fit (see [`positions_fit`]). Exactly then does [`Minefield::from_shape`] succeed.
pub open spec fn shape_fits(shape: FieldShape) -> bool {
    shape_size(shape.codes()) <= isize::MAX && positions_fit(decoded(shape.codes()))
}

/// A board can be laid over these positions on this machine: none lies left of or below the
/// origin, and the cells of the box they span, eight times over, can be counted in a `usize`.
pub open spec fn positions_fit(ps: Seq<Position>) -> bool {
    &&& forall|i: int| 0 <= i < ps.len() ==> 0 <= (#[trigger] ps[i]).x && 0 <= ps[i].y
    &&& (max_x(ps, ps.len() as int) + 1) * (max_y(ps, ps.len() as int) + 1) * 8 <= usize::MAX
    &&& max_x(ps, ps.len() as int) < isize::MAX
    &&& max_y(ps, ps.len() as int) < isize::MAX
}

/// Whether a board can be laid over these positions on this machine.
pub fn fits_board(positions: &Vec<Position>) -> (r: bool)
    ensures
        r == positions_fit(positions@),
{
    let n = positions.len();
    let mut maxx: isize = 0;
    let mut maxy: isize = 0;
    let mut i: usize = 0;
    while i < n
        invariant
            n == positions.len(),
            i <= n,
            maxx == max_x(positions@, i as int),
            maxy == max_y(positions@, i as int),
            0 <= maxx,
            0 <= maxy,
            forall|j: int| 0 <= j < i ==> 0 <= (#[trigger] positions@[j]).x && 0 <= positions@[j].y,
        decreases n - i,
    {
        let p = positions[i];
        if p.x < 0 || p.y < 0 {
            return false;
        }
        if p.x > maxx { maxx = p.x; }
        if p.y > maxy { maxy = p.y; }
        i = i + 1;
    }
    if maxx == isize::MAX || maxy == isize::MAX {
        return false;
    }
    let a = (maxx + 1) as usize;
    let b = (maxy + 1) as usize;
    match a.checked_mul(b) {
        None => {
            proof {
                assert(a * b * 8 >= a * b) by (nonlinear_arith) requires a * b >= 0;
            }
            false
        },
        Some(ab) => match ab.checked_mul(8) {
            None => false,
            Some(_) => true,
        },
    }
}

impl<T: Copy> Minefield<T> {
    pub closed spec fn cells(&self) -> Seq<Option<T>> {
        self.cells@
    }

    /// How many tiles without a mine are still to be revealed.
    pub closed spec fn remaining(&self) -> int {
        self.remaining_blank as int
    }

    pub closed spec fn width(&self) -> int {
        self.width as int
    }

    pub closed spec fn height(&self) -> int {
        self.height as int
    }

    /// The board holds its cells row by row over its bounding box.
    pub closed spec fn wf(&self) -> bool {
        &&& self.cells@.len() == self.width * self.height
        &&& self.width * self.height <= usize::MAX
        &&& self.width <= isize::MAX
        &&& self.height <= isize::MAX
    }

    /// The state of a tile, or none where `p` is no tile of the board.
    pub open spec fn tile(&self, p: Position) -> Option<T> {
        grid_get(self.cells(), self.width(), self.height(), p)
    }

    /// The tiles and their states.
    pub open spec fn view(&self) -> Map<Position, T> {
        Map::new(|p: Position| self.tile(p).is_some(), |p: Position| self.tile(p).unwrap())
    }

    /// The tiles neighbouring `p`, in direction order.
    pub open spec fn neighbors_of(&self, p: Position) -> Seq<Position> {
        grid_neighbors(self.cells(), self.width(), self.height(), p)
    }

    /// The number of tiles.
    pub open spec fn tile_count(&self) -> int {
        count_tiles(self.cells())
    }

    /// A board of the given tiles, each in state `init`; eight tenths of them, as
    /// [`field_density`] says, are to be left free of mines.
    pub fn new_shaped(positions: &Vec<Position>, init: T) -> (r: Minefield<T>)
        requires
            forall|i: int| 0 <= i < positions.len() ==> 0 <= (#[trigger] positions[i]).x && 0 <= positions[i].y,
            (max_x(positions@, positions.len() as int) + 1) * (max_y(positions@, positions.len() as int) + 1) * 8
                <= usize::MAX,
            max_x(positions@, positions.len() as int) < isize::MAX,
            max_y(positions@, positions.len() as int) < isize::MAX,
        ensures
            r.wf(),
            forall|p: Position| #[trigger] r.tile(p) == (if positions@.contains(p) { Some(init) } else { None }),
            r.remaining() == density(r.tile_count()),
    {
        let n = positions.len();
        let mut maxx: isize = 0;
        let mut maxy: isize = 0;
        let mut i: usize = 0;
        while i < n
            invariant
                n == positions.len(),
                i <= n,
                maxx == max_x(positions@, i as int),
                maxy == max_y(positions@, i as int),
                0 <= maxx,
                0 <= maxy,
            decreases n - i,
        {
            let p = positions[i];
            if p.x > maxx { maxx = p.x; }
            if p.y > maxy { maxy = p.y; }
            i = i + 1;
        }
        let width = (maxx + 1) as usize;
        let height = (maxy + 1) as usize;
        assert(width * height * 8 <= usize::MAX);
        assert(width * height <= width * height * 8) by (nonlinear_arith)
            requires width * height >= 0;
        let size = width * height;
        let mut cells: Vec<Option<T>> = Vec::new();
        let mut k: usize = 0;
        while k < size
            invariant
                k <= size,
                cells@.len() == k,
                forall|t: int| 0 <= t < k ==> cells@[t].is_none(),
            decreases size - k,
        {
            cells.push(None);
            k = k + 1;
        }
        let mut field = Minefield { width, height, cells, remaining_blank: 0 };
        let mut j: usize = 0;
        while j < n
            invariant
                n == positions.len(),
                j <= n,
                field.width == width,
                field.height == height,
                width == maxx + 1,
                height == maxy + 1,
                maxx == max_x(positions@, n as int),
                maxy == max_y(positions@, n as int),
                field.wf(),
                width * height <= usize::MAX,
                forall|i: int| 0 <= i < positions.len() ==> 0 <= (#[trigger] positions[i]).x && 0 <= positions[i].y,
                forall|p: Position| #[trigger] field.tile(p) == (if positions@.take(j as int).contains(p) { Some(init) } else { None }),
            decreases n - j,
        {
            let p = positions[j];
            proof {
                lemma_max_bounds(positions@, n as int, j as int);
                lemma_slot_range(width as int, height as int, p);
            }
            let idx = slot_index(width, height, p);
            let ghost old_cells = field.cells@;
            assert forall|q: Position| #[trigger] grid_get(old_cells, width as int, height as int, q)
                == (if positions@.take(j as int).contains(q) { Some(init) } else { None }) by {
                assert(field.tile(q) == grid_get(old_cells, width as int, height as int, q));
            }
            field.cells[idx] = Some(init);
            proof {
                assert(positions@.take(j + 1)[j as int] == p);
                assert(positions@.take(j + 1).contains(p));
                assert(field.cells@ == old_cells.update(idx as int, Some(init)));
                assert(field.tile(p) == Some(init));
                assert forall|q: Position| #[trigger] field.tile(q) == (if positions@.take(j + 1).contains(q) { Some(init) } else { None }) by {
                    assert(positions@.take(j + 1) =~= positions@.take(j as int).push(p));
                    if q != p && in_box(width as int, height as int, q) {
                        lemma_slot_unique(width as int, height as int, p, q);
                        lemma_slot_range(width as int, height as int, q);
                        assert(field.cells@[slot(width as int, height as int, q)] == old_cells[slot(width as int, height as int, q)]);
                    }
                    assert(q != p ==> field.tile(q) == grid_get(old_cells, width as int, height as int, q));
                    if positions@.take(j + 1).contains(q) && q != p {
                        let t = choose|t: int| 0 <= t < j + 1 && #[trigger] positions@.take(j + 1)[t] == q;
                        assert(positions@.take(j as int)[t] == q);
                    }
                    if positions@.take(j as int).contains(q) {
                        let t = choose|t: int| 0 <= t < j && #[trigger] positions@.take(j as int)[t] == q;
                        assert(positions@.take(j + 1)[t] == q);
                    }
                }
            }
            j = j + 1;
        }
        proof {
            assert(positions@.take(n as int) =~= positions@);
            assert forall|p: Position| #[trigger] grid_get(field.cells@, width as int, height as int, p)
                == (if positions@.contains(p) { Some(init) } else { None }) by {
                assert(field.tile(p) == (if positions@.take(n as int).contains(p) { Some(init) } else { None }));
            }
        }
        let ghost cells_before = field.cells@;
        let count = field.count_occupied();
        proof { lemma_count_tiles_bound(field.cells@); }
        field.remaining_blank = field_density(count);
        proof {
            assert(field.cells@ == cells_before);
            assert forall|p: Position| #[trigger] field.tile(p) == (if positions@.contains(p) { Some(init) } else { None }) by {
                assert(field.tile(p) == grid_get(cells_before, width as int, height as int, p));
            }
        }
        field
    }

    /// A board over the tiles of `shape`, each in state `init`, or none where the shape cannot
    /// be laid out on this machine (see [`FieldShape::decodable`] and [`positions_fit`]).
    pub fn from_shape(shape: &FieldShape, init: T) -> (r: Option<Minefield<T>>)
        ensures
            r.is_some() <==> (shape_size(shape.codes()) <= isize::MAX && positions_fit(decoded(shape.codes()))),
            r matches Some(f) ==> {
                &&& f.wf()
                &&& forall|p: Position| #[trigger] f.tile(p) == (if decoded(shape.codes()).contains(p) { Some(init) } else { None })
                &&& f.remaining() == density(f.tile_count())
            },
    {
        if !shape.decodable() {
            return None;
        }
        let positions = shape.decode();
        if !fits_board(&positions) {
            return None;
        }
        Some(Minefield::new_shaped(&positions, init))
    }

    /// The width and height of the board's bounding box.
    pub fn size(&self) -> (r: (usize, usize))
        ensures
            r.0 == self.width(),
            r.1 == self.height(),
    {
        (self.width, self.height)
    }

    /// Sets the count of blank tiles still to be revealed.
    pub fn set_remaining(&mut self, n: usize)
        ensures
            final(self).remaining() == n,
            final(self).cells() == old(self).cells(),
            final(self).width() == old(self).width(),
            final(self).height() == old(self).height(),
            old(self).wf() ==> final(self).wf(),
    {
        self.remaining_blank = n;
    }

    /// The count of blank tiles still to be revealed.
    pub fn remaining_blank(&self) -> (n: usize)
        ensures
            n == self.remaining(),
    {
        self.remaining_blank
    }

    /// The number of tiles of the board.
    pub fn count_tiles_exec(&self) -> (c: usize)
        requires
            self.wf(),
        ensures
            c == self.tile_count(),
    {
        self.count_occupied()
    }

    fn count_occupied(&self) -> (c: usize)
        ensures
            c == count_tiles(self.cells@),
    {
        let mut c: usize = 0;
        let mut i: usize = 0;
        while i < self.cells.len()
            invariant
                i <= self.cells@.len(),
                c == count_tiles(self.cells@.take(i as int)),
                c <= i,
            decreases self.cells.len() - i,
        {
            proof {
                assert(self.cells@.take(i + 1).drop_last() =~= self.cells@.take(i as int));
            }
            if self.cells[i].is_some() {
                c = c + 1;
            }
            i = i + 1;
        }
        proof {
            assert(self.cells@.take(i as int) =~= self.cells@);
        }
        c
    }

    /// The state of the tile at `p`, or none where `p` is no tile of the board.
    pub fn get(&self, p: Position) -> (r: Option<T>)
        requires
            self.wf(),
        ensures
            r == self.tile(p),
    {
        if p.x < 0 || p.y < 0 || p.x as usize >= self.width || p.y as usize >= self.height {
            None
        } else {
            proof { lemma_slot_range(self.width as int, self.height as int, p); }
            self.cells[slot_index(self.width, self.height, p)]
        }
    }

    /// Whether `p` is a tile of the board.
    pub fn is_contained(&self, p: &Position) -> (r: bool)
        requires
            self.wf(),
        ensures
            r == self.tile(*p).is_some(),
    {
        self.get(*p).is_some()
    }

    /// Replaces the state of the tile at `p`.
    pub fn set(&mut self, p: Position, state: T)
        requires
            old(self).wf(),
            old(self).tile(p).is_some(),
        ensures
            final(self).wf(),
            final(self).width() == old(self).width(),
            final(self).height() == old(self).height(),
            final(self).remaining() == old(self).remaining(),
            final(self).cells() == old(self).cells().update(slot(old(self).width(), old(self).height(), p), Some(state)),
            forall|q: Position| #[trigger] final(self).tile(q) == if q == p { Some(state) } else { old(self).tile(q) },
            final(self).tile_count() == old(self).tile_count(),
    {
        proof { lemma_slot_range(self.width as int, self.height as int, p); }
        let idx = slot_index(self.width, self.height, p);
        proof { lemma_count_tiles_update(self.cells@, idx as int, Some(state)); }
        self.cells[idx] = Some(state);
        proof {
            assert forall|q: Position| #[trigger] self.tile(q) == if q == p { Some(state) } else { old(self).tile(q) } by {
                if q != p && in_box(self.width as int, self.height as int, q) {
                    lemma_slot_unique(self.width as int, self.height as int, p, q);
                }
            }
        }
    }

    /// The tiles neighbouring `p`, in direction order.
    pub fn neighbor_positions(&self, p: Position) -> (r: Vec<Position>)
        requires
            self.wf(),
        ensures
            r@ == self.neighbors_of(p),
    {
        let all = p.neighbor_list();
        let mut r: Vec<Position> = Vec::new();
        let mut i: usize = 0;
        while i < all.len()
            invariant
                self.wf(),
                i <= all.len(),
                all@ == spec_neighbors(p),
                r@ == keep_tiles(self.cells(), self.width(), self.height(), all@.take(i as int)),
            decreases all.len() - i,
        {
            proof {
                assert(all@.take(i + 1).drop_last() =~= all@.take(i as int));
            }
            let q = all[i];
            if self.get(q).is_some() {
                r.push(q);
            }
            i = i + 1;
        }
        proof {
            assert(all@.take(i as int) =~= all@);
        }
        r
    }

    /// The states of the tiles neighbouring `p`, in direction order.
    pub fn neighbor_cells(&self, p: Position) -> (r: Vec<T>)
        requires
            self.wf(),
        ensures
            r@.len() == self.neighbors_of(p).len(),
            forall|i: int| 0 <= i < r@.len() ==> Some(#[trigger] r@[i]) == self.tile(self.neighbors_of(p)[i]),
    {
        let ps = self.neighbor_positions(p);
        let mut r: Vec<T> = Vec::new();
        let mut i: usize = 0;
        while i < ps.len()
            invariant
                self.wf(),
                i <= ps.len(),
                ps@ == self.neighbors_of(p),
                r@.len() == i,
                forall|t: int| 0 <= t < i ==> Some(#[trigger] r@[t]) == self.tile(ps@[t]),
            decreases ps.len() - i,
        {
            proof { lemma_neighbor_tiles(self.cells(), self.width(), self.height(), p); }
            let s = self.get(ps[i]).unwrap();
            r.push(s);
            i = i + 1;
        }
        r
    }

    /// All tiles of the board, row by row.
    pub fn iter_positions(&self) -> (r: Vec<Position>)
        requires
            self.wf(),
        ensures
            forall|p: Position| r@.contains(p) <==> #[trigger] self.tile(p).is_some(),
            crate::position::no_duplicates(r@),
            forall|i: int, j: int| 0 <= i < j < r@.len() ==> row_major_before(#[trigger] r@[i], #[trigger] r@[j]),
    {
        let mut r: Vec<Position> = Vec::new();
        let mut y: usize = 0;
        while y < self.height
            invariant
                self.wf(),
                y <= self.height,
                crate::position::no_duplicates(r@),
                forall|i: int, j: int| 0 <= i < j < r@.len() ==> row_major_before(#[trigger] r@[i], #[trigger] r@[j]),
                forall|p: Position| #[trigger] r@.contains(p) <==> (self.tile(p).is_some() && p.y < y),
            decreases self.height - y,
        {
            let mut x: usize = 0;
            while x < self.width
                invariant
                    self.wf(),
                    y < self.height,
                    x <= self.width,
                    crate::position::no_duplicates(r@),
                    forall|i: int, j: int| 0 <= i < j < r@.len() ==> row_major_before(#[trigger] r@[i], #[trigger] r@[j]),
                    forall|p: Position| #[trigger] r@.contains(p) <==> (self.tile(p).is_some() && (p.y < y || (p.y == y && p.x < x))),
                decreases self.width - x,
            {
                let p = Position::new(x as isize, y as isize);
                let ghost old_r = r@;
                if self.get(p).is_some() {
                    assert(!old_r.contains(p));
                    r.push(p);
                    assert forall|i: int, j: int| 0 <= i < j < r@.len() implies r@[i] != r@[j] by {
                        if j == old_r.len() {
                            assert(old_r.contains(old_r[i]));
                        }
                    }
                    assert forall|i: int, j: int| 0 <= i < j < r@.len() implies row_major_before(#[trigger] r@[i], #[trigger] r@[j]) by {
                        if j == old_r.len() {
                            assert(old_r.contains(old_r[i]));
                        } else {
                            assert(row_major_before(old_r[i], old_r[j]));
                        }
                    }
                }
                proof {
                    assert forall|q: Position| #[trigger] r@.contains(q) <==> (self.tile(q).is_some() && (q.y < y || (q.y == y && q.x < x + 1))) by {
                        if r@.contains(q) && q != p {
                            let t = choose|t: int| 0 <= t < r@.len() && r@[t] == q;
                            assert(old_r.contains(q)) by { assert(old_r[t] == q); }
                        }
                        if old_r.contains(q) {
                            let t = choose|t: int| 0 <= t < old_r.len() && old_r[t] == q;
                            assert(r@[t] == q);
                        }
                        if q == p && self.tile(q).is_some() {
                            assert(r@[r@.len() - 1] == q);
                        }
                    }
                }
                x = x + 1;
            }
            y = y + 1;
        }
        r
    }

    /// The first tile of the board, row by row from the lowest row, if it has any.
    pub fn first_position(&self) -> (r: Option<Position>)
        requires
            self.wf(),
        ensures
            r is None <==> forall|q: Position| #[trigger] self.tile(q).is_none(),
            r matches Some(p) ==> self.tile(p).is_some() && forall|q: Position| #[trigger] self.tile(q).is_some()
                ==> p.y < q.y || (p.y == q.y && p.x <= q.x),
    {
        let mut y: usize = 0;
        while y < self.height
            invariant
                self.wf(),
                y <= self.height,
                forall|q: Position| #[trigger] self.tile(q).is_some() ==> q.y >= y,
            decreases self.height - y,
        {
            let mut x: usize = 0;
            while x < self.width
                invariant
                    self.wf(),
                    y < self.height,
                    x <= self.width,
                    forall|q: Position| #[trigger] self.tile(q).is_some() ==> q.y > y || (q.y == y && q.x >= x),
                decreases self.width - x,
            {
                let p = Position::new(x as isize, y as isize);
                if self.get(p).is_some() {
                    return Some(p);
                }
                x = x + 1;
            }
            y = y + 1;
        }
        None
    }
}

pub(crate) proof fn lemma_keep_tiles<T>(cells: Seq<Option<T>>, w: int, h: int, s: Seq<Position>)
    ensures
        forall|i: int| 0 <= i < keep_tiles(cells, w, h, s).len() ==>
            grid_get(cells, w, h, #[trigger] keep_tiles(cells, w, h, s)[i]).is_some(),
        forall|q: Position| keep_tiles(cells, w, h, s).contains(q) <==>
            (s.contains(q) && #[trigger] grid_get(cells, w, h, q).is_some()),
        keep_tiles(cells, w, h, s).len() <= s.len(),
        crate::position::no_duplicates(s) ==> crate::position::no_duplicates(keep_tiles(cells, w, h, s)),
    decreases s.len(),
{
    if s.len() > 0 {
        let init = s.drop_last();
        lemma_keep_tiles(cells, w, h, init);
        let rest = keep_tiles(cells, w, h, init);
        assert forall|q: Position| keep_tiles(cells, w, h, s).contains(q) <==>
            (s.contains(q) && #[trigger] grid_get(cells, w, h, q).is_some()) by {
            if s.contains(q) {
                let k = choose|k: int| 0 <= k < s.len() && s[k] == q;
                if k < s.len() - 1 {
                    assert(init[k] == q);
                    assert(init.contains(q));
                }
            }
            if init.contains(q) {
                let k = choose|k: int| 0 <= k < init.len() && init[k] == q;
                assert(s[k] == q);
            }
            if rest.contains(q) {
                let k = choose|k: int| 0 <= k < rest.len() && rest[k] == q;
                if grid_get(cells, w, h, s.last()).is_some() {
                    assert(rest.push(s.last())[k] == q);
                }
            }
            if grid_get(cells, w, h, s.last()).is_some() && q == s.last() {
                assert(rest.push(s.last())[rest.len() as int] == q);
            }
        }
        if crate::position::no_duplicates(s) {
            assert(crate::position::no_duplicates(init));
            if grid_get(cells, w, h, s.last()).is_some() {
                assert(!rest.contains(s.last())) by {
                    if rest.contains(s.last()) {
                        let k = choose|k: int| 0 <= k < init.len() && init[k] == s.last();
                        assert(s[k] == s[s.len() - 1]);
                    }
                }
                assert forall|i: int, j: int| 0 <= i < j < rest.push(s.last()).len() implies
                    rest.push(s.last())[i] != rest.push(s.last())[j] by {
                    if j == rest.len() {
                        assert(rest.contains(rest[i]));
                    }
                }
            }
        }
    }
}

/// Neighbouring tiles of a grid are tiles, adjacent to `p`, listed once, at most eight.
pub proof fn lemma_neighbor_tiles<T>(cells: Seq<Option<T>>, w: int, h: int, p: Position)
    ensures
        forall|i: int| 0 <= i < grid_neighbors(cells, w, h, p).len() ==>
            grid_get(cells, w, h, #[trigger] grid_neighbors(cells, w, h, p)[i]).is_some(),
        forall|q: Position| grid_neighbors(cells, w, h, p).contains(q) <==>
            (adjacent(p, q) && #[trigger] grid_get(cells, w, h, q).is_some()),
        grid_neighbors(cells, w, h, p).len() <= 8,
        crate::position::no_duplicates(grid_neighbors(cells, w, h, p)),
{
    lemma_neighbors_adjacent(p);
    crate::position::lemma_neighbors_len8(p);
    lemma_keep_tiles(cells, w, h, spec_neighbors(p));
}

proof fn lemma_max_bounds(ps: Seq<Position>, n: int, j: int)
    requires
        0 <= j < n <= ps.len(),
    ensures
        ps[j].x <= max_x(ps, n),
        ps[j].y <= max_y(ps, n),
    decreases n,
{
    if j < n - 1 {
        lemma_max_bounds(ps, n - 1, j);
    }
}

// ---------------------------------------------------------------------------
// laying mines
// ---------------------------------------------------------------------------

/// Draws `amount` distinct indices below `length` with the thread's random generator
/// (`rand::seq::index::sample`, whose documentation promises exactly `amount` distinct indices
/// from `0..length` and a panic when `amount > length`). Which indices come out, and in which
/// order, is left to chance and is not stated.
#[verifier::external_body]
fn sample_indices(length: usize, amount: usize) -> (r: Vec<usize>)
    requires
        amount <= length,
    ensures
        r.len() == amount,
        forall|i: int| 0 <= i < r.len() ==> #[trigger] r[i] < length,
        forall|i: int, j: int| 0 <= i < j < r.len() ==> r[i] != r[j],
{
    rand::seq::index::sample(&mut rand::thread_rng(), length, amount).into_vec()
}

/// Puts `mine` on each chosen candidate tile.
pub fn place_mines<T: Copy>(field: &mut Minefield<T>, candidates: &Vec<Position>, chosen: &Vec<usize>, mine: T)
    requires
        old(field).wf(),
        forall|i: int| 0 <= i < candidates.len() ==> old(field).tile(#[trigger] candidates[i]).is_some(),
        forall|i: int| 0 <= i < chosen.len() ==> #[trigger] chosen[i] < candidates.len(),
    ensures
        final(field).wf(),
        final(field).width() == old(field).width(),
        final(field).height() == old(field).height(),
        final(field).remaining() == old(field).remaining(),
        final(field).tile_count() == old(field).tile_count(),
        forall|q: Position| #[trigger] final(field).tile(q) == if (exists|i: int| 0 <= i < chosen.len() && candidates[chosen[i] as int] == q) {
            Some(mine)
        } else {
            old(field).tile(q)
        },
{
    let mut i: usize = 0;
    while i < chosen.len()
        invariant
            field.wf(),
            i <= chosen.len(),
            field.width() == old(field).width(),
            field.height() == old(field).height(),
            field.remaining() == old(field).remaining(),
            field.tile_count() == old(field).tile_count(),
            forall|i: int| 0 <= i < candidates.len() ==> old(field).tile(#[trigger] candidates[i]).is_some(),
            forall|i: int| 0 <= i < chosen.len() ==> #[trigger] chosen[i] < candidates.len(),
            forall|q: Position| #[trigger] field.tile(q) == if (exists|t: int| 0 <= t < i && candidates[chosen[t] as int] == q) {
                Some(mine)
            } else {
                old(field).tile(q)
            },
        decreases chosen.len() - i,
    {
        let p = candidates[chosen[i]];
        proof {
            assert(old(field).tile(candidates[chosen[i as int] as int]).is_some());
            if field.tile(p).is_none() {
                assert(field.tile(p) == old(field).tile(p));
            }
        }
        field.set(p, mine);
        proof {
            assert forall|q: Position| #[trigger] field.tile(q) == if (exists|t: int| 0 <= t < i + 1 && candidates[chosen[t] as int] == q) {
                Some(mine)
            } else {
                old(field).tile(q)
            } by {
                if q != p && (exists|t: int| 0 <= t < i + 1 && candidates[chosen[t] as int] == q) {
                    let t = choose|t: int| 0 <= t < i + 1 && candidates[chosen[t] as int] == q;
                    assert(t < i);
                }
            }
        }
        i = i + 1;
    }
}

/// The number of mines a board of `tiles` tiles receives: the tiles beyond the blank share.
pub open spec fn mine_quota(tiles: int) -> int {
    tiles - density(tiles)
}

/// `n` distinct indices below `n` cover every index below `n`.
proof fn lemma_all_indices_chosen(s: Seq<usize>, n: int, k: int)
    requires
        s.len() == n,
        n <= usize::MAX,
        0 <= k < n,
        forall|i: int| 0 <= i < s.len() ==> #[trigger] s[i] < n,
        forall|i: int, j: int| 0 <= i < j < s.len() ==> s[i] != s[j],
    ensures
        exists|t: int| 0 <= t < s.len() && #[trigger] s[t] == k,
{
    let set = s.to_set();
    let full = Set::new(|v: usize| v < n);
    if !(exists|t: int| 0 <= t < s.len() && #[trigger] s[t] == k) {
        let kk = k as usize;
        assert(set.subset_of(full.remove(kk))) by {
            assert forall|v: usize| set.contains(v) implies full.remove(kk).contains(v) by {
                let t = choose|t: int| 0 <= t < s.len() && s[t] == v;
                assert(s[t] < n);
                assert(s[t] != k);
            }
        }
        assert(s.no_duplicates());
        s.unique_seq_to_set();
        lemma_usize_range_len(n);
        vstd::set_lib::lemma_len_subset(set, full.remove(k as usize));
    }
}

/// The set of `usize` values below `n` has `n` elements.
proof fn lemma_usize_range_len(n: int)
    requires
        0 <= n <= usize::MAX + 1,
    ensures
        Set::new(|v: usize| v < n).finite(),
        Set::new(|v: usize| v < n).len() == n,
    decreases n,
{
    if n == 0 {
        assert(Set::new(|v: usize| v < n) =~= Set::<usize>::empty());
    } else {
        lemma_usize_range_len(n - 1);
        assert(Set::new(|v: usize| v < n) =~= Set::new(|v: usize| v < n - 1).insert((n - 1) as usize));
    }
}

/// `after` is `before` with `mine` laid on the tiles of `mines`: distinct tiles, none of them
/// excluded, as many as the mine quota of the board or, if fewer tiles are free, all of them.
pub open spec fn mines_laid<T: Copy>(
    before: Minefield<T>,
    after: Minefield<T>,
    mines: Seq<Position>,
    excluded: Set<Position>,
    mine: T,
) -> bool {
    &&& crate::position::no_duplicates(mines)
    &&& mines.len() <= mine_quota(before.tile_count())
    &&& (mines.len() == mine_quota(before.tile_count())
        || forall|q: Position| before.tile(q).is_some() && !excluded.contains(q) ==> #[trigger] mines.contains(q))
    &&& forall|i: int| 0 <= i < mines.len() ==> before.tile(#[trigger] mines[i]).is_some() && !excluded.contains(mines[i])
    &&& forall|q: Position| #[trigger] after.tile(q) == if mines.contains(q) { Some(mine) } else { before.tile(q) }
}

/// Lays the mines of a new game, in the state `mine`: as many as the mine quota of the board,
/// on tiles drawn at random among those not in `exclude` (all of them if there are fewer).
pub fn choose_multiple<T: Copy>(field: &mut Minefield<T>, exclude: &Vec<Position>, mine: T)
    requires
        old(field).wf(),
        old(field).tile_count() * 8 <= usize::MAX,
    ensures
        final(field).wf(),
        final(field).width() == old(field).width(),
        final(field).height() == old(field).height(),
        final(field).remaining() == old(field).remaining(),
        final(field).tile_count() == old(field).tile_count(),
        exists|mines: Seq<Position>| #[trigger] mines_laid(*old(field), *final(field), mines, exclude@.to_set(), mine),
{
    let all = field.iter_positions();
    let mut candidates: Vec<Position> = Vec::new();
    let mut i: usize = 0;
    while i < all.len()
        invariant
            field.wf(),
            i <= all.len(),
            crate::position::no_duplicates(all@),
            forall|p: Position| all@.contains(p) <==> #[trigger] field.tile(p).is_some(),
            crate::position::no_duplicates(candidates@),
            forall|p: Position| #[trigger] candidates@.contains(p) <==> (all@.take(i as int).contains(p) && !exclude@.contains(p)),
        decreases all.len() - i,
    {
        let p = all[i];
        let ghost before = candidates@;
        proof {
            assert(all@.take(i + 1) =~= all@.take(i as int).push(p));
            assert(!all@.take(i as int).contains(p)) by {
                if all@.take(i as int).contains(p) {
                    let t = choose|t: int| 0 <= t < i && #[trigger] all@.take(i as int)[t] == p;
                    assert(all@[t] == all@[i as int]);
                }
            }
        }
        let excluded = crate::shape::contains_position(exclude, p);
        if !excluded {
            candidates.push(p);
            proof {
                assert forall|a: int, b: int| 0 <= a < b < candidates@.len() implies candidates@[a] != candidates@[b] by {
                    if b == before.len() {
                        assert(before.contains(before[a]));
                    }
                }
            }
        }
        proof {
            assert(candidates@ == if excluded { before } else { before.push(p) });
            assert(all@.take(i + 1)[i as int] == p);
            assert forall|q: Position| #[trigger] candidates@.contains(q) <==> (all@.take(i + 1).contains(q) && !exclude@.contains(q)) by {
                if candidates@.contains(q) && q != p {
                    let t = choose|t: int| 0 <= t < candidates@.len() && candidates@[t] == q;
                    assert(before[t] == q);
                }
                if before.contains(q) {
                    let t = choose|t: int| 0 <= t < before.len() && before[t] == q;
                    assert(candidates@[t] == q);
                }
                if q == p && !exclude@.contains(q) {
                    assert(candidates@[candidates@.len() - 1] == q);
                }
                if all@.take(i + 1).contains(q) && q != p {
                    let t = choose|t: int| 0 <= t < i + 1 && #[trigger] all@.take(i + 1)[t] == q;
                    assert(all@.take(i as int)[t] == q);
                }
                if all@.take(i as int).contains(q) {
                    let t = choose|t: int| 0 <= t < i && #[trigger] all@.take(i as int)[t] == q;
                    assert(all@.take(i + 1)[t] == q);
                }
            }
        }
        i = i + 1;
    }
    proof {
        assert(all@.take(i as int) =~= all@);
    }
    let tiles = field.count_tiles_exec();
    let quota = tiles - field_density(tiles);
    let amount = if quota < candidates.len() { quota } else { candidates.len() };
    let chosen = sample_indices(candidates.len(), amount);
    let ghost mines = chosen@.map_values(|k: usize| candidates@[k as int]);
    proof {
        assert forall|i: int| 0 <= i < candidates.len() implies field.tile(#[trigger] candidates[i]).is_some() by {
            assert(candidates@.contains(candidates@[i]));
        }
        assert forall|q: Position| mines.contains(q) <==> (exists|t: int| 0 <= t < chosen.len() && candidates[chosen[t] as int] == q) by {
            if mines.contains(q) {
                let t = choose|t: int| 0 <= t < mines.len() && mines[t] == q;
                assert(candidates[chosen[t] as int] == q);
            }
            if exists|t: int| 0 <= t < chosen.len() && candidates[chosen[t] as int] == q {
                let t = choose|t: int| 0 <= t < chosen.len() && candidates[chosen[t] as int] == q;
                assert(mines[t] == q);
            }
        }
        assert forall|a: int, b: int| 0 <= a < b < mines.len() implies mines[a] != mines[b] by {
            assert(chosen[a] != chosen[b]);
        }
        assert forall|i: int| 0 <= i < mines.len() implies
            field.tile(#[trigger] mines[i]).is_some() && !exclude@.contains(mines[i]) by {
            assert(candidates@.contains(candidates@[chosen[i] as int]));
        }
        if mines.len() != mine_quota(field.tile_count()) {
            assert(amount == candidates.len());
            assert forall|q: Position| field.tile(q).is_some() && !exclude@.contains(q) implies #[trigger] mines.contains(q) by {
                assert(candidates@.contains(q));
                let k = choose|k: int| 0 <= k < candidates.len() && candidates@[k] == q;
                lemma_all_indices_chosen(chosen@, candidates.len() as int, k);
                let t = choose|t: int| 0 <= t < chosen.len() && chosen[t] == k;
                assert(mines[t] == q);
            }
        }
    }
    let ghost before = *field;
    place_mines(field, &candidates, &chosen, mine);
    proof {
        assert(mines_laid(before, *field, mines, exclude@.to_set(), mine));
    }
}

} // verus!
