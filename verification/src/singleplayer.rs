//! The rules of the single-player game: flagging, revealing (with the flood fill over empty
//! areas and the chord over satisfied numbers), and the outcome of the game.

use vstd::prelude::*;
use std::collections::VecDeque;
use crate::position::Position;
use crate::minefield::{grid_get, grid_neighbors, lemma_neighbor_tiles, slot, in_box, choose_multiple, mines_laid, Minefield};

verus! {

/// The state of one tile of a single-player board.
#[derive(PartialEq, Eq, Clone, Copy, Debug, Structural)]
pub enum MineCellState {
    Empty,
    Mine,
    /// Revealed, with the number of neighbouring mines.
    Revealed(u8),
    FlaggedEmpty,
    FlaggedMine,
}

/// How a game ends.
#[derive(PartialEq, Eq, Clone, Copy, Debug, Structural)]
pub enum GameOutcome {
    Failed,
    Succeeded,
}

/// The phases of a single-player session.
#[derive(PartialEq, Eq, Clone, Copy, Debug, Hash, Structural)]
pub enum SingleplayerState {
    Inactive,
    PreGame,
    Game,
    GameFailed,
    GameSuccess,
}

pub open spec fn flagged(s: MineCellState) -> bool {
    s is FlaggedEmpty || s is FlaggedMine
}

pub open spec fn mined(s: MineCellState) -> bool {
    s is Mine || s is FlaggedMine
}

pub open spec fn marked(s: MineCellState) -> bool {
    !(s is Mine || s is Empty)
}

impl MineCellState {
    pub fn is_flagged(&self) -> (r: bool)
        ensures
            r == flagged(*self),
    {
        matches!(self, MineCellState::FlaggedEmpty | MineCellState::FlaggedMine)
    }

    pub fn is_mine(&self) -> (r: bool)
        ensures
            r == mined(*self),
    {
        matches!(self, MineCellState::Mine | MineCellState::FlaggedMine)
    }

    pub fn is_marked(&self) -> (r: bool)
        ensures
            r == marked(*self),
    {
        !matches!(self, MineCellState::Mine | MineCellState::Empty)
    }
}

/// The state a flag toggle leaves a tile in; revealed tiles keep theirs.
pub open spec fn toggled(s: MineCellState) -> MineCellState {
    match s {
        MineCellState::Empty => MineCellState::FlaggedEmpty,
        MineCellState::FlaggedEmpty => MineCellState::Empty,
        MineCellState::Mine => MineCellState::FlaggedMine,
        MineCellState::FlaggedMine => MineCellState::Mine,
        MineCellState::Revealed(n) => MineCellState::Revealed(n),
    }
}

// ---------------------------------------------------------------------------
// specification of revealing
// ---------------------------------------------------------------------------

pub type Cells = Seq<Option<MineCellState>>;

pub open spec fn sel_mined() -> spec_fn(MineCellState) -> bool {
    |t: MineCellState| mined(t)
}

pub open spec fn sel_flagged() -> spec_fn(MineCellState) -> bool {
    |t: MineCellState| flagged(t)
}

pub open spec fn sel_unflagged() -> spec_fn(MineCellState) -> bool {
    |t: MineCellState| !flagged(t)
}

pub open spec fn sel_unmarked() -> spec_fn(MineCellState) -> bool {
    |t: MineCellState| !marked(t)
}

pub open spec fn sel_revealed() -> spec_fn(MineCellState) -> bool {
    |t: MineCellState| t is Revealed
}

/// The state of a tile (arbitrary where `p` is no tile).
pub open spec fn state_at(c: Cells, w: int, h: int, p: Position) -> MineCellState {
    grid_get(c, w, h, p).unwrap()
}

/// The positions of `ps` whose state satisfies `f`, in order.
pub open spec fn select(c: Cells, w: int, h: int, ps: Seq<Position>, f: spec_fn(MineCellState) -> bool) -> Seq<Position>
    decreases ps.len(),
{
    if ps.len() == 0 {
        seq![]
    } else {
        let rest = select(c, w, h, ps.drop_last(), f);
        if f(state_at(c, w, h, ps.last())) { rest.push(ps.last()) } else { rest }
    }
}

/// The number of tiles in state `Empty`.
pub open spec fn count_empty(c: Cells) -> int
    decreases c.len(),
{
    if c.len() == 0 {
        0
    } else {
        count_empty(c.drop_last()) + if c.last() == Some(MineCellState::Empty) { 1int } else { 0 }
    }
}

/// A reveal in progress: the board, the count of blank tiles still to reveal, the positions
/// waiting to be checked, and the outcomes reported so far.
pub type RevealState = (Cells, int, Seq<Position>, Seq<GameOutcome>);

pub open spec fn success_check(rem: int) -> Seq<GameOutcome> {
    if rem == 0 { seq![GameOutcome::Succeeded] } else { seq![] }
}

/// Checking the first waiting position:
/// - an empty tile is revealed with the number of its neighbouring mines, and if that is zero
///   its unflagged neighbours are queued;
/// - a mine fails the game;
/// - a revealed tile whose number of flagged neighbours equals its number queues its unmarked
///   neighbours;
/// - flagged tiles are left alone.
/// After each check a success is reported if no blank tile is left.
pub open spec fn reveal_step(w: int, h: int, s: RevealState) -> RevealState {
    let (c, rem, q, ev) = s;
    if q.len() == 0 {
        s
    } else {
        let p = q[0];
        let rest = q.drop_first();
        let ns = grid_neighbors(c, w, h, p);
        match state_at(c, w, h, p) {
            MineCellState::Empty => {
                let k = select(c, w, h, ns, sel_mined()).len();
                let c2 = c.update(slot(w, h, p), Some(MineCellState::Revealed(k as u8)));
                let add = if k == 0 { select(c, w, h, ns, sel_unflagged()) } else { seq![] };
                (c2, rem - 1, rest + add, ev + success_check(rem - 1))
            },
            MineCellState::Mine => (c, rem, rest, ev + seq![GameOutcome::Failed] + success_check(rem)),
            MineCellState::Revealed(x) => {
                let add = if select(c, w, h, ns, sel_flagged()).len() == x as int {
                    select(c, w, h, ns, sel_unmarked())
                } else {
                    seq![]
                };
                (c, rem, rest + add, ev + success_check(rem))
            },
            _ => (c, rem, rest, ev + success_check(rem)),
        }
    }
}

/// `n` checks in a row.
pub open spec fn reveal_steps(w: int, h: int, s: RevealState, n: nat) -> RevealState
    decreases n,
{
    if n == 0 { s } else { reveal_steps(w, h, reveal_step(w, h, s), (n - 1) as nat) }
}

// ---------------------------------------------------------------------------
// lemmas
// ---------------------------------------------------------------------------

proof fn lemma_select_props(c: Cells, w: int, h: int, ps: Seq<Position>, f: spec_fn(MineCellState) -> bool)
    ensures
        select(c, w, h, ps, f).len() <= ps.len(),
        forall|i: int| 0 <= i < select(c, w, h, ps, f).len() ==> f(state_at(c, w, h, #[trigger] select(c, w, h, ps, f)[i])),
        forall|i: int| 0 <= i < select(c, w, h, ps, f).len() ==> ps.contains(#[trigger] select(c, w, h, ps, f)[i]),
    decreases ps.len(),
{
    if ps.len() > 0 {
        lemma_select_props(c, w, h, ps.drop_last(), f);
        let rest = select(c, w, h, ps.drop_last(), f);
        assert forall|i: int| 0 <= i < select(c, w, h, ps, f).len() implies ps.contains(#[trigger] select(c, w, h, ps, f)[i]) by {
            if i < rest.len() {
                let k = choose|k: int| 0 <= k < ps.drop_last().len() && ps.drop_last()[k] == rest[i];
                assert(ps[k] == rest[i]);
            } else {
                assert(ps[ps.len() - 1] == ps.last());
            }
        }
    }
}

/// Selecting by a condition that no element meets selects nothing.
proof fn lemma_select_none(c: Cells, w: int, h: int, ps: Seq<Position>, f: spec_fn(MineCellState) -> bool)
    requires
        forall|i: int| 0 <= i < ps.len() ==> !f(state_at(c, w, h, #[trigger] ps[i])),
    ensures
        select(c, w, h, ps, f).len() == 0,
    decreases ps.len(),
{
    if ps.len() > 0 {
        lemma_select_none(c, w, h, ps.drop_last(), f);
        assert(!f(state_at(c, w, h, ps[ps.len() - 1])));
    }
}

proof fn lemma_select_append(c: Cells, w: int, h: int, a: Seq<Position>, b: Seq<Position>, f: spec_fn(MineCellState) -> bool)
    ensures
        select(c, w, h, a + b, f).len() == select(c, w, h, a, f).len() + select(c, w, h, b, f).len(),
    decreases b.len(),
{
    if b.len() == 0 {
        assert(a + b =~= a);
    } else {
        lemma_select_append(c, w, h, a, b.drop_last(), f);
        assert((a + b).drop_last() =~= a + b.drop_last());
        assert((a + b).last() == b.last());
    }
}

proof fn lemma_select_first(c: Cells, w: int, h: int, q: Seq<Position>, f: spec_fn(MineCellState) -> bool)
    requires
        q.len() > 0,
    ensures
        select(c, w, h, q, f).len() == select(c, w, h, q.drop_first(), f).len()
            + if f(state_at(c, w, h, q[0])) { 1int } else { 0 },
{
    assert(q =~= seq![q[0]] + q.drop_first());
    lemma_select_append(c, w, h, seq![q[0]], q.drop_first(), f);
    let one = seq![q[0]];
    assert(one.drop_last() =~= Seq::<Position>::empty());
    assert(select(c, w, h, one.drop_last(), f) =~= Seq::<Position>::empty());
}

proof fn lemma_count_empty_update(c: Cells, i: int, v: Option<MineCellState>)
    requires
        0 <= i < c.len(),
    ensures
        count_empty(c.update(i, v)) == count_empty(c)
            - (if c[i] == Some(MineCellState::Empty) { 1int } else { 0 })
            + (if v == Some(MineCellState::Empty) { 1int } else { 0 }),
        count_empty(c) >= 0,
    decreases c.len(),
{
    if i < c.len() - 1 {
        assert(c.update(i, v).drop_last() =~= c.drop_last().update(i, v));
        lemma_count_empty_update(c.drop_last(), i, v);
    } else {
        assert(c.update(i, v).drop_last() =~= c.drop_last());
        lemma_count_empty_nonneg(c.drop_last());
    }
}

proof fn lemma_count_empty_nonneg(c: Cells)
    ensures
        count_empty(c) >= 0,
    decreases c.len(),
{
    if c.len() > 0 {
        lemma_count_empty_nonneg(c.drop_last());
    }
}


proof fn lemma_steps_succ(w: int, h: int, s: RevealState, n: nat)
    ensures
        reveal_steps(w, h, s, n + 1) == reveal_step(w, h, reveal_steps(w, h, s, n)),
    decreases n,
{
    if n > 0 {
        lemma_steps_succ(w, h, reveal_step(w, h, s), (n - 1) as nat);
        assert(reveal_steps(w, h, s, n) == reveal_steps(w, h, reveal_step(w, h, s), (n - 1) as nat));
        assert(reveal_steps(w, h, s, n + 1) == reveal_steps(w, h, reveal_step(w, h, s), n));
    } else {
        assert(reveal_steps(w, h, s, 1) == reveal_steps(w, h, reveal_step(w, h, s), 0));
    }
}

/// Counts, among the neighbours, the states that satisfy `f`.
fn count_selected(
    Ghost(c): Ghost<Cells>,
    Ghost(w): Ghost<int>,
    Ghost(h): Ghost<int>,
    ns: &Vec<Position>,
    states: &Vec<MineCellState>,
    Ghost(f): Ghost<spec_fn(MineCellState) -> bool>,
    which: u8,
) -> (k: usize)
    requires
        ns.len() == states.len(),
        forall|i: int| 0 <= i < ns.len() ==> #[trigger] states[i] == state_at(c, w, h, ns[i]),
        which == 0 ==> f == sel_mined(),
        which == 1 ==> f == sel_flagged(),
        which <= 1,
    ensures
        k == select(c, w, h, ns@, f).len(),
{
    let mut k: usize = 0;
    let mut i: usize = 0;
    while i < ns.len()
        invariant
            i <= ns.len(),
            ns.len() == states.len(),
            forall|i: int| 0 <= i < ns.len() ==> #[trigger] states[i] == state_at(c, w, h, ns[i]),
            which == 0 ==> f == sel_mined(),
            which == 1 ==> f == sel_flagged(),
            which <= 1,
            k == select(c, w, h, ns@.take(i as int), f).len(),
            k <= i,
        decreases ns.len() - i,
    {
        proof {
            assert(ns@.take(i + 1).drop_last() =~= ns@.take(i as int));
            assert(ns@.take(i + 1).last() == ns[i as int]);
        }
        let hit = if which == 0 { states[i].is_mine() } else { states[i].is_flagged() };
        if hit {
            k = k + 1;
        }
        i = i + 1;
    }
    proof { assert(ns@.take(i as int) =~= ns@); }
    k
}

/// Queues, among the neighbours, those whose states satisfy `f`.
fn queue_selected(
    Ghost(c): Ghost<Cells>,
    Ghost(w): Ghost<int>,
    Ghost(h): Ghost<int>,
    ns: &Vec<Position>,
    states: &Vec<MineCellState>,
    Ghost(f): Ghost<spec_fn(MineCellState) -> bool>,
    which: u8,
    queue: &mut VecDeque<Position>,
)
    requires
        ns.len() == states.len(),
        forall|i: int| 0 <= i < ns.len() ==> #[trigger] states[i] == state_at(c, w, h, ns[i]),
        which == 0 ==> f == sel_unflagged(),
        which == 1 ==> f == sel_unmarked(),
        which <= 1,
    ensures
        final(queue)@ == old(queue)@ + select(c, w, h, ns@, f),
{
    let ghost q0 = queue@;
    let mut i: usize = 0;
    proof { assert(q0 + select(c, w, h, ns@.take(0), f) =~= q0); }
    while i < ns.len()
        invariant
            i <= ns.len(),
            ns.len() == states.len(),
            forall|i: int| 0 <= i < ns.len() ==> #[trigger] states[i] == state_at(c, w, h, ns[i]),
            which == 0 ==> f == sel_unflagged(),
            which == 1 ==> f == sel_unmarked(),
            which <= 1,
            queue@ == q0 + select(c, w, h, ns@.take(i as int), f),
        decreases ns.len() - i,
    {
        proof {
            assert(ns@.take(i + 1).drop_last() =~= ns@.take(i as int));
            assert(ns@.take(i + 1).last() == ns[i as int]);
        }
        let hit = if which == 0 { !states[i].is_flagged() } else { !states[i].is_marked() };
        if hit {
            queue.push_back(ns[i]);
            proof {
                assert(queue@ =~= q0 + select(c, w, h, ns@.take(i + 1), f));
            }
        }
        i = i + 1;
    }
    proof { assert(ns@.take(i as int) =~= ns@); }
}

/// Toggles the flag on a tile; revealed tiles are left as they are.
pub fn flag_cell(field: &mut Minefield<MineCellState>, pos: Position)
    requires
        old(field).wf(),
        old(field).tile(pos).is_some(),
    ensures
        final(field).wf(),
        final(field).width() == old(field).width(),
        final(field).height() == old(field).height(),
        final(field).remaining() == old(field).remaining(),
        forall|q: Position| #[trigger] final(field).tile(q)
            == if q == pos { Some(toggled(old(field).tile(pos).unwrap())) } else { old(field).tile(q) },
{
    let state = field.get(pos).unwrap();
    let new_state = match state {
        MineCellState::Empty => MineCellState::FlaggedEmpty,
        MineCellState::FlaggedEmpty => MineCellState::Empty,
        MineCellState::Mine => MineCellState::FlaggedMine,
        MineCellState::FlaggedMine => MineCellState::Mine,
        MineCellState::Revealed(_) => {
            return;
        },
    };
    field.set(pos, new_state);
}

/// Resets every tile to `Empty` and the count of blank tiles to eight tenths of the tiles.
pub fn wipe_minefield(field: &mut Minefield<MineCellState>)
    requires
        old(field).wf(),
        old(field).tile_count() * 8 <= usize::MAX,
    ensures
        final(field).wf(),
        final(field).width() == old(field).width(),
        final(field).height() == old(field).height(),
        forall|q: Position| #[trigger] final(field).tile(q)
            == if old(field).tile(q).is_some() { Some(MineCellState::Empty) } else { None },
        final(field).remaining() == crate::minefield::density(final(field).tile_count()),
        final(field).tile_count() == old(field).tile_count(),
{
    let ps = field.iter_positions();
    let mut i: usize = 0;
    while i < ps.len()
        invariant
            field.wf(),
            i <= ps.len(),
            field.width() == old(field).width(),
            field.height() == old(field).height(),
            field.tile_count() == old(field).tile_count(),
            crate::position::no_duplicates(ps@),
            forall|p: Position| ps@.contains(p) <==> #[trigger] old(field).tile(p).is_some(),
            forall|q: Position| #[trigger] field.tile(q) == if ps@.take(i as int).contains(q) {
                Some(MineCellState::Empty)
            } else {
                old(field).tile(q)
            },
        decreases ps.len() - i,
    {
        let p = ps[i];
        proof {
            assert(ps@.contains(p));
            assert(ps@.take(i + 1) =~= ps@.take(i as int).push(p));
        }
        field.set(p, MineCellState::Empty);
        proof {
            assert forall|q: Position| #[trigger] field.tile(q) == if ps@.take(i + 1).contains(q) {
                Some(MineCellState::Empty)
            } else {
                old(field).tile(q)
            } by {
                if q == p {
                    assert(ps@.take(i + 1)[i as int] == p);
                } else if ps@.take(i + 1).contains(q) {
                    let t = choose|t: int| 0 <= t < i + 1 && #[trigger] ps@.take(i + 1)[t] == q;
                    assert(ps@.take(i as int)[t] == q);
                } else if ps@.take(i as int).contains(q) {
                    let t = choose|t: int| 0 <= t < i && #[trigger] ps@.take(i as int)[t] == q;
                    assert(ps@.take(i + 1)[t] == q);
                }
            }
        }
        i = i + 1;
    }
    proof {
        assert(ps@.take(i as int) =~= ps@);
    }
    let ghost c_before = field.cells();
    proof {
        assert forall|q: Position| #[trigger] grid_get(c_before, field.width(), field.height(), q)
            == if old(field).tile(q).is_some() { Some(MineCellState::Empty) } else { None } by {
            assert(field.tile(q) == if ps@.take(i as int).contains(q) { Some(MineCellState::Empty) } else { old(field).tile(q) });
        }
    }
    let count = field.count_tiles_exec();
    field.set_remaining(crate::minefield::field_density(count));
    proof {
        assert forall|q: Position| #[trigger] field.tile(q)
            == if old(field).tile(q).is_some() { Some(MineCellState::Empty) } else { None } by {
            assert(field.tile(q) == grid_get(c_before, field.width(), field.height(), q));
        }
    }
}


/// Reveals the requested tiles, one check at a time in the order of a queue (see
/// [`reveal_step`]), until no check is waiting; returns the outcomes reported on the way.
pub fn reveal_cell(field: &mut Minefield<MineCellState>, checks: &Vec<Position>) -> (events: Vec<GameOutcome>)
    requires
        old(field).wf(),
        forall|i: int| 0 <= i < checks.len() ==> old(field).tile(#[trigger] checks[i]).is_some(),
        old(field).remaining() >= count_empty(old(field).cells()),
    ensures
        final(field).wf(),
        final(field).width() == old(field).width(),
        final(field).height() == old(field).height(),
        final(field).remaining() >= count_empty(final(field).cells()),
        exists|n: nat| reveal_steps(old(field).width(), old(field).height(),
            (old(field).cells(), old(field).remaining(), checks@, Seq::<GameOutcome>::empty()), n)
            == (final(field).cells(), final(field).remaining(), Seq::<Position>::empty(), events@),
{
    let ghost w = field.width();
    let ghost h = field.height();
    let ghost init: RevealState = (field.cells(), field.remaining(), checks@, Seq::<GameOutcome>::empty());
    let mut queue: VecDeque<Position> = VecDeque::new();
    let mut i: usize = 0;
    while i < checks.len()
        invariant
            i <= checks.len(),
            queue@ == checks@.take(i as int),
        decreases checks.len() - i,
    {
        queue.push_back(checks[i]);
        proof { assert(queue@ =~= checks@.take(i + 1)); }
        i = i + 1;
    }
    proof {
        assert(queue@ =~= checks@);
        assert(reveal_steps(w, h, init, 0) == init);
    }
    let mut events: Vec<GameOutcome> = Vec::new();
    let ghost mut n: nat = 0;
    while queue.len() > 0
        invariant
            field.wf(),
            field.width() == w,
            field.height() == h,
            reveal_steps(w, h, init, n) == (field.cells(), field.remaining(), queue@, events@),
            forall|i: int| 0 <= i < queue@.len() ==> field.tile(#[trigger] queue@[i]).is_some(),
            field.remaining() >= count_empty(field.cells()),
        decreases count_empty(field.cells()), select(field.cells(), w, h, queue@, sel_revealed()).len(), queue@.len(),
    {
        let ghost c = field.cells();
        let ghost rem = field.remaining();
        let ghost q = queue@;
        let ghost ev = events@;
        let ghost s0: RevealState = (c, rem, q, ev);
        let p = queue.pop_front().unwrap();
        proof {
            assert(queue@ =~= q.drop_first());
            assert(field.tile(q[0]).is_some());
            lemma_neighbor_tiles(c, w, h, p);
            lemma_select_first(c, w, h, q, sel_revealed());
            lemma_count_empty_nonneg(c);
        }
        let ns = field.neighbor_positions(p);
        let mut states: Vec<MineCellState> = Vec::new();
        let mut j: usize = 0;
        while j < ns.len()
            invariant
                field.wf(),
                field.cells() == c,
                field.width() == w,
                field.height() == h,
                ns@ == grid_neighbors(c, w, h, p),
                forall|i: int| 0 <= i < ns@.len() ==> grid_get(c, w, h, #[trigger] ns@[i]).is_some(),
                j <= ns.len(),
                states.len() == j,
                forall|i: int| 0 <= i < j ==> #[trigger] states[i] == state_at(c, w, h, ns[i]),
            decreases ns.len() - j,
        {
            let st = field.get(ns[j]).unwrap();
            states.push(st);
            j = j + 1;
        }
        let cur = field.get(p).unwrap();
        let ghost rest = q.drop_first();
        let ghost ns_s = grid_neighbors(c, w, h, p);
        match cur {
            MineCellState::Empty => {
                let k = count_selected(Ghost(c), Ghost(w), Ghost(h), &ns, &states, Ghost(sel_mined()), 0);
                proof { lemma_select_props(c, w, h, ns_s, sel_mined()); }
                if k == 0 {
                    queue_selected(Ghost(c), Ghost(w), Ghost(h), &ns, &states, Ghost(sel_unflagged()), 0, &mut queue);
                }
                proof {
                    lemma_slot_in(c, w, h, p);
                    lemma_count_empty_update(c, slot(w, h, p), Some(MineCellState::Revealed(k as u8)));
                    lemma_count_empty_nonneg(c.update(slot(w, h, p), Some(MineCellState::Revealed(k as u8))));
                    lemma_select_props(c, w, h, ns_s, sel_unflagged());
                }
                field.set(p, MineCellState::Revealed(k as u8));
                let r = field.remaining_blank();
                field.set_remaining(r - 1);
                proof {
                    let add = if k == 0 { select(c, w, h, ns_s, sel_unflagged()) } else { seq![] };
                    assert(queue@ == rest + add);
                    assert forall|i: int| 0 <= i < queue@.len() implies field.tile(#[trigger] queue@[i]).is_some() by {
                        if i < rest.len() {
                            assert(queue@[i] == q[i + 1]);
                        } else {
                            assert(ns_s.contains(add[i - rest.len()]));
                        }
                    }
                }
            },
            MineCellState::Mine => {
                events.push(GameOutcome::Failed);
            },
            MineCellState::Revealed(x) => {
                let kf = count_selected(Ghost(c), Ghost(w), Ghost(h), &ns, &states, Ghost(sel_flagged()), 1);
                if kf == x as usize {
                    queue_selected(Ghost(c), Ghost(w), Ghost(h), &ns, &states, Ghost(sel_unmarked()), 1, &mut queue);
                }
                proof {
                    lemma_select_props(c, w, h, ns_s, sel_unmarked());
                    let add = if kf == x as usize { select(c, w, h, ns_s, sel_unmarked()) } else { seq![] };
                    assert(queue@ == rest + add);
                    lemma_select_none(c, w, h, add, sel_revealed());
                    lemma_select_append(c, w, h, rest, add, sel_revealed());
                    assert forall|i: int| 0 <= i < queue@.len() implies field.tile(#[trigger] queue@[i]).is_some() by {
                        if i < rest.len() {
                            assert(queue@[i] == q[i + 1]);
                        } else {
                            assert(ns_s.contains(add[i - rest.len()]));
                        }
                    }
                }
            },
            _ => {
                proof {
                    assert forall|i: int| 0 <= i < queue@.len() implies field.tile(#[trigger] queue@[i]).is_some() by {
                        assert(queue@[i] == q[i + 1]);
                    }
                }
            },
        }
        if field.remaining_blank() == 0 {
            events.push(GameOutcome::Succeeded);
        }
        proof {
            assert(reveal_step(w, h, s0) == (field.cells(), field.remaining(), queue@, events@));
            lemma_steps_succ(w, h, init, n);
            n = n + 1;
            let e0 = count_empty(c);
            let e1 = count_empty(field.cells());
            let r0 = select(c, w, h, q, sel_revealed()).len();
            let r1 = select(field.cells(), w, h, queue@, sel_revealed()).len();
            if !(cur is Empty) {
                assert(field.cells() == c);
                if cur is Revealed {
                    assert(r1 < r0);
                } else {
                    assert(queue@ == rest);
                    assert(r1 == r0);
                    assert(queue@.len() < q.len());
                }
            } else {
                assert(e1 < e0);
            }
        }
    }
    proof {
        assert(queue@ =~= Seq::<Position>::empty());
    }
    events
}

/// A tile's slot lies in the grid.
proof fn lemma_slot_in(c: Cells, w: int, h: int, p: Position)
    requires
        grid_get(c, w, h, p).is_some(),
    ensures
        0 <= slot(w, h, p) < c.len(),
        c[slot(w, h, p)] == grid_get(c, w, h, p),
{
}


/// Lays the mines of a new game: as many as the mine quota of the board, on tiles drawn at
/// random among those not in `exclude` (all of them if there are fewer). The tiles in `exclude`
/// are the ones the first move reveals.
pub fn generate_minefield(field: &mut Minefield<MineCellState>, exclude: &Vec<Position>)
    requires
        old(field).wf(),
        old(field).tile_count() * 8 <= usize::MAX,
    ensures
        final(field).wf(),
        final(field).width() == old(field).width(),
        final(field).height() == old(field).height(),
        final(field).remaining() == old(field).remaining(),
        final(field).tile_count() == old(field).tile_count(),
        exists|mines: Seq<Position>| #[trigger] mines_laid(*old(field), *final(field), mines, exclude@.to_set(), MineCellState::Mine),
{
    choose_multiple(field, exclude, MineCellState::Mine)
}

/// Where a game goes when an outcome is reported: the first reported outcome decides.
pub fn advance_to_end(outcomes: &Vec<GameOutcome>) -> (next: Option<SingleplayerState>)
    ensures
        outcomes.len() == 0 ==> next.is_none(),
        outcomes.len() > 0 && outcomes[0] == GameOutcome::Failed ==> next == Some(SingleplayerState::GameFailed),
        outcomes.len() > 0 && outcomes[0] == GameOutcome::Succeeded ==> next == Some(SingleplayerState::GameSuccess),
{
    if outcomes.len() == 0 {
        None
    } else {
        match outcomes[0] {
            GameOutcome::Failed => Some(SingleplayerState::GameFailed),
            GameOutcome::Succeeded => Some(SingleplayerState::GameSuccess),
        }
    }
}

/// The sprite a cell is drawn with while playing: its number once revealed, a flag, or a
/// covered tile.
pub open spec fn sprite_of(s: MineCellState) -> usize {
    match s {
        MineCellState::Empty | MineCellState::Mine => 9,
        MineCellState::FlaggedMine | MineCellState::FlaggedEmpty => 10,
        MineCellState::Revealed(x) => x as usize,
    }
}

/// The sprite a cell is drawn with while playing.
pub fn render_mines(s: MineCellState) -> (r: usize)
    ensures
        r == sprite_of(s),
{
    match s {
        MineCellState::Empty | MineCellState::Mine => 9,
        MineCellState::FlaggedMine | MineCellState::FlaggedEmpty => 10,
        MineCellState::Revealed(x) => x as usize,
    }
}

/// When a game is lost, each unflagged mine is shown with the mine sprite; other cells keep
/// theirs.
pub fn display_mines(s: MineCellState) -> (r: Option<usize>)
    ensures
        r == (if s == MineCellState::Mine { Some(11usize) } else { None }),
{
    if s == MineCellState::Mine { Some(11) } else { None }
}

/// The cells the first move of a game reveals: the cursor's tile and its neighbouring tiles.
pub fn init_check_cell(field: &Minefield<MineCellState>, position: Position) -> (r: Vec<Position>)
    requires
        field.wf(),
    ensures
        r@ == field.neighbors_of(position).push(position),
{
    let mut r = field.neighbor_positions(position);
    r.push(position);
    r
}

/// What a key press on a cell asks for.
#[derive(PartialEq, Eq, Clone, Copy, Debug, Structural)]
pub enum CellRequest {
    Check(Position),
    Flag(Position),
}

/// The request a cursor on `position` makes: the check key checks the cell, and otherwise the
/// flag key flags it.
pub fn check_cell(position: Position, check_pressed: bool, flag_pressed: bool) -> (r: Option<CellRequest>)
    ensures
        r == (if check_pressed {
            Some(CellRequest::Check(position))
        } else if flag_pressed {
            Some(CellRequest::Flag(position))
        } else {
            None
        }),
{
    if check_pressed {
        Some(CellRequest::Check(position))
    } else if flag_pressed {
        Some(CellRequest::Flag(position))
    } else {
        None
    }
}

/// The game begins with the first move: any first check moves the game from its preparation
/// to play.
pub fn advance_to_game(state: SingleplayerState, first_moves: usize) -> (r: SingleplayerState)
    ensures
        r == (if state == SingleplayerState::PreGame && first_moves > 0 { SingleplayerState::Game } else { state }),
{
    if state == SingleplayerState::PreGame && first_moves > 0 { SingleplayerState::Game } else { state }
}

/// Where the cursor of a new game starts: the centre of the field, or the origin if it has
/// none.
pub fn start_position(field: &crate::shape::BlankField) -> (r: Position)
    requires
        crate::shape::moderate(field.view_positions()),
    ensures
        r == (match crate::shape::layout_center(field.view_positions()) {
            Some(c) => c,
            None => crate::position::pos(0, 0),
        }),
{
    match field.center() {
        Some(c) => c,
        None => Position::new(0, 0),
    }
}

// ---------------------------------------------------------------------------
// laws of revealing
// ---------------------------------------------------------------------------

/// Every position waiting to be checked is a tile.
pub open spec fn queue_on_tiles(c: Cells, w: int, h: int, q: Seq<Position>) -> bool {
    forall|i: int| 0 <= i < q.len() ==> grid_get(c, w, h, #[trigger] q[i]).is_some()
}

/// Two boards have their tiles in the same places, mines on the same tiles and flags on the
/// same tiles.
pub open spec fn same_mines_and_flags(a: Cells, b: Cells) -> bool {
    &&& a.len() == b.len()
    &&& forall|i: int| 0 <= i < a.len() ==> (#[trigger] a[i] is Some <==> b[i] is Some)
    &&& forall|i: int| 0 <= i < a.len() && #[trigger] a[i] is Some ==>
            mined(a[i].unwrap()) == mined(b[i].unwrap()) && flagged(a[i].unwrap()) == flagged(b[i].unwrap())
}

/// Every revealed tile shows the number of mines on the tiles around it.
pub open spec fn numbers_correct(c: Cells, w: int, h: int) -> bool {
    forall|p: Position| #[trigger] grid_get(c, w, h, p) matches Some(MineCellState::Revealed(k))
        ==> k as int == select(c, w, h, grid_neighbors(c, w, h, p), sel_mined()).len()
}

proof fn lemma_update_frame(c: Cells, w: int, h: int, p: Position, v: MineCellState)
    requires
        grid_get(c, w, h, p).is_some(),
    ensures
        grid_get(c.update(slot(w, h, p), Some(v)), w, h, p) == Some(v),
        forall|q: Position| q != p ==> #[trigger] grid_get(c.update(slot(w, h, p), Some(v)), w, h, q) == grid_get(c, w, h, q),
{
    let c2 = c.update(slot(w, h, p), Some(v));
    assert forall|q: Position| q != p implies #[trigger] grid_get(c2, w, h, q) == grid_get(c, w, h, q) by {
        if in_box(w, h, q) {
            crate::minefield::lemma_slot_unique(w, h, p, q);
        }
    }
}

proof fn lemma_select_same(a: Cells, b: Cells, w: int, h: int, ps: Seq<Position>, f: spec_fn(MineCellState) -> bool)
    requires
        forall|i: int| 0 <= i < ps.len() ==> f(state_at(a, w, h, #[trigger] ps[i])) == f(state_at(b, w, h, ps[i])),
    ensures
        select(a, w, h, ps, f) == select(b, w, h, ps, f),
    decreases ps.len(),
{
    if ps.len() > 0 {
        lemma_select_same(a, b, w, h, ps.drop_last(), f);
        assert(f(state_at(a, w, h, ps[ps.len() - 1])) == f(state_at(b, w, h, ps[ps.len() - 1])));
    }
}

proof fn lemma_keep_same(a: Cells, b: Cells, w: int, h: int, s: Seq<Position>)
    requires
        forall|q: Position| #[trigger] grid_get(a, w, h, q).is_some() == grid_get(b, w, h, q).is_some(),
    ensures
        crate::minefield::keep_tiles(a, w, h, s) == crate::minefield::keep_tiles(b, w, h, s),
    decreases s.len(),
{
    if s.len() > 0 {
        lemma_keep_same(a, b, w, h, s.drop_last());
        assert(grid_get(a, w, h, s.last()).is_some() == grid_get(b, w, h, s.last()).is_some());
    }
}

proof fn lemma_selected_on_tiles(c: Cells, w: int, h: int, p: Position, f: spec_fn(MineCellState) -> bool, c2: Cells)
    requires
        forall|q: Position| #[trigger] grid_get(c2, w, h, q).is_some() == grid_get(c, w, h, q).is_some(),
    ensures
        queue_on_tiles(c2, w, h, select(c, w, h, grid_neighbors(c, w, h, p), f)),
{
    let ns = grid_neighbors(c, w, h, p);
    lemma_neighbor_tiles(c, w, h, p);
    lemma_select_props(c, w, h, ns, f);
    let sel = select(c, w, h, ns, f);
    assert forall|i: int| 0 <= i < sel.len() implies grid_get(c2, w, h, #[trigger] sel[i]).is_some() by {
        assert(ns.contains(sel[i]));
        let k = choose|k: int| 0 <= k < ns.len() && ns[k] == sel[i];
        assert(grid_get(c, w, h, ns[k]).is_some());
    }
}

proof fn lemma_reveal_step_laws(w: int, h: int, s: RevealState)
    requires
        queue_on_tiles(s.0, w, h, s.2),
        numbers_correct(s.0, w, h),
    ensures
        queue_on_tiles(reveal_step(w, h, s).0, w, h, reveal_step(w, h, s).2),
        numbers_correct(reveal_step(w, h, s).0, w, h),
        same_mines_and_flags(s.0, reveal_step(w, h, s).0),
{
    let (c, rem, q, ev) = s;
    let t = reveal_step(w, h, s);
    if q.len() > 0 {
        let p = q[0];
        let rest = q.drop_first();
        let ns = grid_neighbors(c, w, h, p);
        assert(grid_get(c, w, h, q[0]).is_some());
        assert forall|i: int| 0 <= i < rest.len() implies grid_get(c, w, h, #[trigger] rest[i]).is_some() by {
            assert(rest[i] == q[i + 1]);
        }
        lemma_neighbor_tiles(c, w, h, p);
        lemma_select_props(c, w, h, ns, sel_mined());
        match state_at(c, w, h, p) {
            MineCellState::Empty => {
                let k = select(c, w, h, ns, sel_mined()).len();
                let v = MineCellState::Revealed(k as u8);
                let c2 = c.update(slot(w, h, p), Some(v));
                lemma_update_frame(c, w, h, p, v);
                assert forall|x: Position| #[trigger] grid_get(c2, w, h, x).is_some() == grid_get(c, w, h, x).is_some() by {
                    if x != p {
                        assert(grid_get(c2, w, h, x) == grid_get(c, w, h, x));
                    }
                }
                lemma_keep_same(c2, c, w, h, crate::position::spec_neighbors(p));
                assert forall|x: Position| #[trigger] sel_mined()(state_at(c2, w, h, x)) == sel_mined()(state_at(c, w, h, x)) by {
                    if x != p {
                        assert(grid_get(c2, w, h, x) == grid_get(c, w, h, x));
                    }
                }
                assert forall|x: Position| (#[trigger] grid_get(c2, w, h, x) matches Some(MineCellState::Revealed(j))
                    ==> j as int == select(c2, w, h, grid_neighbors(c2, w, h, x), sel_mined()).len()) by {
                    lemma_keep_same(c2, c, w, h, crate::position::spec_neighbors(x));
                    let nx = grid_neighbors(c, w, h, x);
                    lemma_select_same(c2, c, w, h, nx, sel_mined());
                    if x != p {
                        assert(grid_get(c2, w, h, x) == grid_get(c, w, h, x));
                    }
                }
                let add = if k == 0 { select(c, w, h, ns, sel_unflagged()) } else { seq![] };
                lemma_selected_on_tiles(c, w, h, p, sel_unflagged(), c2);
                assert forall|i: int| 0 <= i < t.2.len() implies grid_get(c2, w, h, #[trigger] t.2[i]).is_some() by {
                    if i < rest.len() {
                        assert(t.2[i] == rest[i]);
                        assert(grid_get(c, w, h, rest[i]).is_some());
                    } else {
                        assert(t.2[i] == add[i - rest.len()]);
                    }
                }
                lemma_slot_in(c, w, h, p);
                assert forall|i: int| 0 <= i < c.len() implies (#[trigger] c[i] is Some <==> c2[i] is Some) by {}
                assert forall|i: int| 0 <= i < c.len() && #[trigger] c[i] is Some implies
                    mined(c[i].unwrap()) == mined(c2[i].unwrap()) && flagged(c[i].unwrap()) == flagged(c2[i].unwrap()) by {
                    if i == slot(w, h, p) {
                        assert(c[i] == grid_get(c, w, h, p));
                    }
                }
            },
            MineCellState::Revealed(x) => {
                let add = if select(c, w, h, ns, sel_flagged()).len() == x as int {
                    select(c, w, h, ns, sel_unmarked())
                } else {
                    seq![]
                };
                lemma_selected_on_tiles(c, w, h, p, sel_unmarked(), c);
                assert forall|i: int| 0 <= i < t.2.len() implies grid_get(c, w, h, #[trigger] t.2[i]).is_some() by {
                    if i < rest.len() {
                        assert(t.2[i] == rest[i]);
                    } else {
                        assert(t.2[i] == add[i - rest.len()]);
                    }
                }
            },
            _ => {
                assert(t.2 == rest);
            },
        }
    }
}

/// Revealing never lays, lifts or moves a mine or a flag, and every number it reveals is the
/// number of mines around its tile: from a board whose revealed numbers are right, with only
/// tiles waiting to be checked, any number of checks leaves the tiles, the mines and the flags
/// where they were, and every revealed number right.
pub proof fn lemma_reveal_laws(w: int, h: int, s: RevealState, n: nat)
    requires
        queue_on_tiles(s.0, w, h, s.2),
        numbers_correct(s.0, w, h),
    ensures
        same_mines_and_flags(s.0, reveal_steps(w, h, s, n).0),
        numbers_correct(reveal_steps(w, h, s, n).0, w, h),
        queue_on_tiles(reveal_steps(w, h, s, n).0, w, h, reveal_steps(w, h, s, n).2),
    decreases n,
{
    if n > 0 {
        lemma_reveal_step_laws(w, h, s);
        let t = reveal_step(w, h, s);
        lemma_reveal_laws(w, h, t, (n - 1) as nat);
        let u = reveal_steps(w, h, t, (n - 1) as nat);
        assert(reveal_steps(w, h, s, n) == u);
        assert forall|i: int| 0 <= i < s.0.len() && #[trigger] s.0[i] is Some implies
            mined(s.0[i].unwrap()) == mined(u.0[i].unwrap()) && flagged(s.0[i].unwrap()) == flagged(u.0[i].unwrap()) by {
            assert(t.0[i] is Some);
        }
        assert forall|i: int| 0 <= i < s.0.len() implies (#[trigger] s.0[i] is Some <==> u.0[i] is Some) by {
            assert(s.0[i] is Some <==> t.0[i] is Some);
        }
    } else {
        assert(reveal_steps(w, h, s, 0) == s);
    }
}

proof fn lemma_reveal_step_count(w: int, h: int, s: RevealState)
    requires
        queue_on_tiles(s.0, w, h, s.2),
        s.1 == count_empty(s.0),
    ensures
        reveal_step(w, h, s).1 == count_empty(reveal_step(w, h, s).0),
        reveal_step(w, h, s).3 == s.3 + (if s.2.len() == 0 { seq![] } else {
            (if state_at(s.0, w, h, s.2[0]) is Mine { seq![GameOutcome::Failed] } else { seq![] })
                + success_check(count_empty(reveal_step(w, h, s).0))
        }),
{
    let (c, rem, q, ev) = s;
    if q.len() > 0 {
        let p = q[0];
        assert(grid_get(c, w, h, q[0]).is_some());
        lemma_slot_in(c, w, h, p);
        if state_at(c, w, h, p) is Empty {
            let ns = grid_neighbors(c, w, h, p);
            let k = select(c, w, h, ns, sel_mined()).len();
            lemma_count_empty_update(c, slot(w, h, p), Some(MineCellState::Revealed(k as u8)));
        }
        assert(reveal_step(w, h, s).3 =~= s.3 + ((if state_at(s.0, w, h, s.2[0]) is Mine { seq![GameOutcome::Failed] } else { seq![] })
                + success_check(count_empty(reveal_step(w, h, s).0))));
    }
}

/// The count of blank tiles left tells the truth, and success is reported exactly when it
/// reaches zero: if the count starts equal to the number of unrevealed blank tiles, it stays
/// so through any number of checks, and each check reports a success exactly when no blank
/// tile is left (after a failure, if the tile held a mine).
pub proof fn lemma_reveal_counts(w: int, h: int, s: RevealState, n: nat)
    requires
        queue_on_tiles(s.0, w, h, s.2),
        numbers_correct(s.0, w, h),
        s.1 == count_empty(s.0),
    ensures
        reveal_steps(w, h, s, n).1 == count_empty(reveal_steps(w, h, s, n).0),
        ({
            let t = reveal_steps(w, h, s, n);
            let u = reveal_steps(w, h, s, n + 1);
            u.3 == t.3 + (if t.2.len() == 0 { seq![] } else {
                (if state_at(t.0, w, h, t.2[0]) is Mine { seq![GameOutcome::Failed] } else { seq![] })
                    + success_check(count_empty(u.0))
            })
        }),
    decreases n,
{
    if n > 0 {
        lemma_reveal_step_count(w, h, s);
        lemma_reveal_step_laws(w, h, s);
        lemma_reveal_counts(w, h, reveal_step(w, h, s), (n - 1) as nat);
        assert(reveal_steps(w, h, s, n + 1) == reveal_steps(w, h, reveal_step(w, h, s), n));
    } else {
        lemma_reveal_step_count(w, h, s);
        assert(reveal_steps(w, h, s, 1) == reveal_steps(w, h, reveal_step(w, h, s), 0));
    }
}

/// Flagging a cell twice leaves it as it was, and flagging never lays or lifts a mine.
pub proof fn lemma_flag_twice(s: MineCellState)
    ensures
        toggled(toggled(s)) == s,
        mined(toggled(s)) == mined(s),
{
}

// ---------------------------------------------------------------------------
// revealing floods
// ---------------------------------------------------------------------------

/// Only blank tiles have changed from `c0` to `c`: every other position keeps its state.
pub open spec fn only_blanks_changed(c0: Cells, c: Cells, w: int, h: int) -> bool {
    forall|p: Position| #[trigger] grid_get(c0, w, h, p) != Some(MineCellState::Empty)
        ==> grid_get(c, w, h, p) == grid_get(c0, w, h, p)
}

/// Each tile that was blank in `c0` and is revealed in `c` with no mine around it has every
/// unflagged neighbouring tile revealed or waiting in `q`.
pub open spec fn flood_pending(c0: Cells, c: Cells, w: int, h: int, q: Seq<Position>) -> bool {
    forall|p: Position, x: Position|
        grid_get(c0, w, h, p) == Some(MineCellState::Empty)
        && grid_get(c, w, h, p) == Some(MineCellState::Revealed(0))
        && #[trigger] crate::position::adjacent(p, x)
        && grid_get(c, w, h, x) is Some && !flagged(state_at(c, w, h, x))
        ==> state_at(c, w, h, x) is Revealed || q.contains(x)
}

/// Each tile that was blank in `c0` and is revealed in `c` with no mine around it has every
/// unflagged neighbouring tile revealed.
pub open spec fn flooded(c0: Cells, c: Cells, w: int, h: int) -> bool {
    forall|p: Position, x: Position|
        grid_get(c0, w, h, p) == Some(MineCellState::Empty)
        && grid_get(c, w, h, p) == Some(MineCellState::Revealed(0))
        && #[trigger] crate::position::adjacent(p, x)
        && grid_get(c, w, h, x) is Some && !flagged(state_at(c, w, h, x))
        ==> state_at(c, w, h, x) is Revealed
}

/// An element of `ps` whose state meets `f` is selected.
proof fn lemma_select_complete(c: Cells, w: int, h: int, ps: Seq<Position>, f: spec_fn(MineCellState) -> bool, x: Position)
    requires
        ps.contains(x),
        f(state_at(c, w, h, x)),
    ensures
        select(c, w, h, ps, f).contains(x),
    decreases ps.len(),
{
    let rest = select(c, w, h, ps.drop_last(), f);
    if ps.last() == x {
        assert(select(c, w, h, ps, f) == rest.push(x));
        assert(select(c, w, h, ps, f)[rest.len() as int] == x);
    } else {
        let k = choose|k: int| 0 <= k < ps.len() && ps[k] == x;
        assert(ps.drop_last()[k] == x);
        lemma_select_complete(c, w, h, ps.drop_last(), f, x);
        let j = choose|j: int| 0 <= j < rest.len() && rest[j] == x;
        if f(state_at(c, w, h, ps.last())) {
            assert(select(c, w, h, ps, f)[j] == x);
        } else {
            assert(select(c, w, h, ps, f)[j] == x);
        }
    }
}

/// A position waiting behind the first is waiting after the first is taken off.
proof fn lemma_in_rest(q: Seq<Position>, x: Position, add: Seq<Position>)
    requires
        q.len() > 0,
        q.contains(x),
        x != q[0],
    ensures
        (q.drop_first() + add).contains(x),
{
    let k = choose|k: int| 0 <= k < q.len() && q[k] == x;
    assert((q.drop_first() + add)[k - 1] == x);
}

proof fn lemma_flood_step(w: int, h: int, c0: Cells, s: RevealState)
    requires
        queue_on_tiles(s.0, w, h, s.2),
        numbers_correct(s.0, w, h),
        only_blanks_changed(c0, s.0, w, h),
        flood_pending(c0, s.0, w, h, s.2),
    ensures
        only_blanks_changed(c0, reveal_step(w, h, s).0, w, h),
        flood_pending(c0, reveal_step(w, h, s).0, w, h, reveal_step(w, h, s).2),
{
    let (c, rem, q, ev) = s;
    let t = reveal_step(w, h, s);
    if q.len() > 0 {
        let p0 = q[0];
        let rest = q.drop_first();
        let ns = grid_neighbors(c, w, h, p0);
        assert(grid_get(c, w, h, q[0]).is_some());
        lemma_neighbor_tiles(c, w, h, p0);
        match state_at(c, w, h, p0) {
            MineCellState::Empty => {
                let k = select(c, w, h, ns, sel_mined()).len();
                let v = MineCellState::Revealed(k as u8);
                let c2 = c.update(slot(w, h, p0), Some(v));
                let add = if k == 0 { select(c, w, h, ns, sel_unflagged()) } else { seq![] };
                lemma_update_frame(c, w, h, p0, v);
                lemma_select_props(c, w, h, ns, sel_mined());
                assert(t.0 == c2);
                assert(t.2 == rest + add);
                assert(grid_get(c0, w, h, p0) == Some(MineCellState::Empty));
                assert forall|p: Position| #[trigger] grid_get(c0, w, h, p) != Some(MineCellState::Empty)
                    implies grid_get(c2, w, h, p) == grid_get(c0, w, h, p) by {
                    assert(p != p0);
                }
                assert forall|p: Position, x: Position|
                    grid_get(c0, w, h, p) == Some(MineCellState::Empty)
                    && grid_get(c2, w, h, p) == Some(MineCellState::Revealed(0))
                    && #[trigger] crate::position::adjacent(p, x)
                    && grid_get(c2, w, h, x) is Some && !flagged(state_at(c2, w, h, x))
                    implies state_at(c2, w, h, x) is Revealed || (rest + add).contains(x) by {
                    assert(x != p);
                    if p == p0 {
                        assert(k == 0);
                        assert(grid_get(c, w, h, x) == grid_get(c2, w, h, x));
                        assert(ns.contains(x));
                        lemma_select_complete(c, w, h, ns, sel_unflagged(), x);
                        let j = choose|j: int| 0 <= j < add.len() && add[j] == x;
                        assert((rest + add)[rest.len() + j] == x);
                    } else {
                        assert(grid_get(c, w, h, p) == grid_get(c2, w, h, p));
                        if x == p0 {
                        } else {
                            assert(grid_get(c, w, h, x) == grid_get(c2, w, h, x));
                            if !(state_at(c, w, h, x) is Revealed) {
                                assert(q.contains(x));
                                lemma_in_rest(q, x, add);
                            }
                        }
                    }
                }
            },
            MineCellState::Mine => {
                assert(t.0 == c && t.2 == rest);
                assert forall|p: Position, x: Position|
                    grid_get(c0, w, h, p) == Some(MineCellState::Empty)
                    && grid_get(c, w, h, p) == Some(MineCellState::Revealed(0))
                    && #[trigger] crate::position::adjacent(p, x)
                    && grid_get(c, w, h, x) is Some && !flagged(state_at(c, w, h, x))
                    implies state_at(c, w, h, x) is Revealed || rest.contains(x) by {
                    if !(state_at(c, w, h, x) is Revealed) {
                        if x == p0 {
                            lemma_neighbor_tiles(c, w, h, p);
                            assert(grid_neighbors(c, w, h, p).contains(x));
                            lemma_select_complete(c, w, h, grid_neighbors(c, w, h, p), sel_mined(), x);
                            assert(false);
                        }
                        lemma_in_rest(q, x, seq![]);
                        assert(rest + seq![] =~= rest);
                    }
                }
            },
            MineCellState::Revealed(xv) => {
                let add = if select(c, w, h, ns, sel_flagged()).len() == xv as int {
                    select(c, w, h, ns, sel_unmarked())
                } else {
                    seq![]
                };
                assert(t.0 == c && t.2 == rest + add);
                assert forall|p: Position, x: Position|
                    grid_get(c0, w, h, p) == Some(MineCellState::Empty)
                    && grid_get(c, w, h, p) == Some(MineCellState::Revealed(0))
                    && #[trigger] crate::position::adjacent(p, x)
                    && grid_get(c, w, h, x) is Some && !flagged(state_at(c, w, h, x))
                    implies state_at(c, w, h, x) is Revealed || (rest + add).contains(x) by {
                    if !(state_at(c, w, h, x) is Revealed) {
                        lemma_in_rest(q, x, add);
                    }
                }
            },
            _ => {
                assert(t.0 == c && t.2 == rest);
                assert forall|p: Position, x: Position|
                    grid_get(c0, w, h, p) == Some(MineCellState::Empty)
                    && grid_get(c, w, h, p) == Some(MineCellState::Revealed(0))
                    && #[trigger] crate::position::adjacent(p, x)
                    && grid_get(c, w, h, x) is Some && !flagged(state_at(c, w, h, x))
                    implies state_at(c, w, h, x) is Revealed || rest.contains(x) by {
                    if !(state_at(c, w, h, x) is Revealed) {
                        lemma_in_rest(q, x, seq![]);
                        assert(rest + seq![] =~= rest);
                    }
                }
            },
        }
    }
}

proof fn lemma_flood_run(w: int, h: int, c0: Cells, s: RevealState, n: nat)
    requires
        queue_on_tiles(s.0, w, h, s.2),
        numbers_correct(s.0, w, h),
        only_blanks_changed(c0, s.0, w, h),
        flood_pending(c0, s.0, w, h, s.2),
    ensures
        only_blanks_changed(c0, reveal_steps(w, h, s, n).0, w, h),
        flood_pending(c0, reveal_steps(w, h, s, n).0, w, h, reveal_steps(w, h, s, n).2),
    decreases n,
{
    if n > 0 {
        lemma_flood_step(w, h, c0, s);
        lemma_reveal_step_laws(w, h, s);
        lemma_flood_run(w, h, c0, reveal_step(w, h, s), (n - 1) as nat);
    }
}

/// Revealing floods over blank areas, and touches nothing but blank tiles: through any run of
/// checks from a board whose revealed numbers are right, every tile other than a blank one
/// keeps its state (flags and mines stay as they are); and once nothing waits to be checked,
/// every tile that was blank and was revealed with no mine around it has every unflagged
/// neighbouring tile revealed.
pub proof fn lemma_reveal_floods(w: int, h: int, s: RevealState, n: nat)
    requires
        queue_on_tiles(s.0, w, h, s.2),
        numbers_correct(s.0, w, h),
    ensures
        only_blanks_changed(s.0, reveal_steps(w, h, s, n).0, w, h),
        reveal_steps(w, h, s, n).2.len() == 0 ==> flooded(s.0, reveal_steps(w, h, s, n).0, w, h),
{
    assert forall|p: Position, x: Position|
        grid_get(s.0, w, h, p) == Some(MineCellState::Empty)
        && grid_get(s.0, w, h, p) == Some(MineCellState::Revealed(0))
        && #[trigger] crate::position::adjacent(p, x)
        && grid_get(s.0, w, h, x) is Some && !flagged(state_at(s.0, w, h, x))
        implies state_at(s.0, w, h, x) is Revealed || s.2.contains(x) by {}
    lemma_flood_run(w, h, s.0, s, n);
    let t = reveal_steps(w, h, s, n);
    if t.2.len() == 0 {
        assert forall|p: Position, x: Position|
            grid_get(s.0, w, h, p) == Some(MineCellState::Empty)
            && grid_get(t.0, w, h, p) == Some(MineCellState::Revealed(0))
            && #[trigger] crate::position::adjacent(p, x)
            && grid_get(t.0, w, h, x) is Some && !flagged(state_at(t.0, w, h, x))
            implies state_at(t.0, w, h, x) is Revealed by {
            assert(!t.2.contains(x));
        }
    }
}

// ---------------------------------------------------------------------------
// checking a revealed number
// ---------------------------------------------------------------------------

/// Selecting by a condition keeps exactly the positions whose state meets it, in order.
proof fn lemma_select_is_filter(c: Cells, w: int, h: int, ps: Seq<Position>, f: spec_fn(MineCellState) -> bool)
    ensures
        select(c, w, h, ps, f) == ps.filter(|q: Position| f(state_at(c, w, h, q))),
    decreases ps.len(),
{
    reveal(Seq::filter);
    if ps.len() > 0 {
        lemma_select_is_filter(c, w, h, ps.drop_last(), f);
    }
}

/// Checking a revealed number chords exactly when as many neighbouring tiles carry a flag as
/// the number says: then every neighbouring tile that holds neither a flag nor a revealed
/// number (a hidden blank or a hidden mine) is queued behind the waiting positions; with any
/// other count of flags, fewer or more, the check changes no tile, queues nothing and only
/// takes the position off the queue. Either way a success is reported if no blank tile is left.
pub proof fn lemma_chord_needs_exact_flags(w: int, h: int, s: RevealState, x: u8)
    requires
        s.2.len() > 0,
        state_at(s.0, w, h, s.2[0]) == MineCellState::Revealed(x),
    ensures
        ({
            let ns = grid_neighbors(s.0, w, h, s.2[0]);
            let flags = ns.filter(|q: Position|
                state_at(s.0, w, h, q) is FlaggedEmpty || state_at(s.0, w, h, q) is FlaggedMine).len();
            let hidden = ns.filter(|q: Position|
                state_at(s.0, w, h, q) is Empty || state_at(s.0, w, h, q) is Mine);
            reveal_step(w, h, s) == (s.0, s.1, s.2.drop_first() + (if flags == x as int { hidden } else { seq![] }),
                s.3 + success_check(s.1))
        }),
{
    let c = s.0;
    let ns = grid_neighbors(c, w, h, s.2[0]);
    lemma_select_is_filter(c, w, h, ns, sel_flagged());
    lemma_select_is_filter(c, w, h, ns, sel_unmarked());
    assert(ns.filter(|q: Position| sel_flagged()(state_at(c, w, h, q)))
        == ns.filter(|q: Position| state_at(c, w, h, q) is FlaggedEmpty || state_at(c, w, h, q) is FlaggedMine)) by {
        assert((|q: Position| sel_flagged()(state_at(c, w, h, q)))
            =~= (|q: Position| state_at(c, w, h, q) is FlaggedEmpty || state_at(c, w, h, q) is FlaggedMine));
    }
    assert(ns.filter(|q: Position| sel_unmarked()(state_at(c, w, h, q)))
        == ns.filter(|q: Position| state_at(c, w, h, q) is Empty || state_at(c, w, h, q) is Mine)) by {
        assert((|q: Position| sel_unmarked()(state_at(c, w, h, q)))
            =~= (|q: Position| state_at(c, w, h, q) is Empty || state_at(c, w, h, q) is Mine));
    }
}

} // verus!
