//! Area Attack, the multiplayer mode: players race to claim the board. The server keeps the
//! true state of each tile; claiming an empty tile floods over empty areas like revealing
//! does, and hitting a mine punishes the player according to the stage of the game.

use vstd::prelude::*;
use std::collections::VecDeque;
use crate::position::{in_disk, on_rim, rim_seq, spec_neighbors, Position};
use crate::minefield::{grid_get, grid_neighbors, keep_tiles, lemma_neighbor_tiles, shape_fits, Minefield};
use crate::shape::FieldShape;

pub mod client;
pub mod server;

verus! {

/// Players are known by the identifier of their connection.
pub type PlayerId = u64;

/// The game mode Area Attack, as the server's registry of game modes holds it.
#[derive(PartialEq, Eq, Clone, Copy, Debug, Structural)]
pub struct IAreaAttack;

impl IAreaAttack {
    pub fn new() -> (r: Box<IAreaAttack>)
        ensures
            *r == IAreaAttack,
    {
        Box::new(IAreaAttack)
    }

    /// The board of a new session: a shape drawn at random among the loaded ones, every tile
    /// empty. None exactly where the drawn shape cannot be laid out on this machine, so a board
    /// is owed whenever every loaded shape fits.
    pub fn create_field(&self, shapes: &Vec<FieldShape>) -> (r: Option<Minefield<ServerTile>>)
        requires
            shapes.len() > 0,
        ensures
            exists|k: int| 0 <= k < shapes.len() && {
                &&& (r.is_some() <==> shape_fits(#[trigger] shapes@[k]))
                &&& (r matches Some(f) ==> f.wf() && empty_board_of(f, shapes@[k]))
            },
            (forall|k: int| 0 <= k < shapes.len() ==> shape_fits(#[trigger] shapes@[k])) ==> r.is_some(),
    {
        let shape = crate::shape::take_one(shapes);
        let ghost k = choose|k: int| 0 <= k < shapes@.len() && shapes@[k] == *shape;
        let r = Minefield::from_shape(shape, ServerTile::Empty);
        proof {
            assert(shapes@[k] == *shape);
            assert(r.is_some() <==> shape_fits(shapes@[k]));
            if r.is_some() {
                assert(empty_board_of(r.unwrap(), shapes@[k]));
            }
        }
        r
    }
}

/// `f` holds exactly the tiles of `shape`, all empty.
pub open spec fn empty_board_of(f: Minefield<ServerTile>, shape: FieldShape) -> bool {
    forall|p: Position| #[trigger] f.tile(p)
        == (if crate::shape::decoded(shape.codes()).contains(p) { Some(ServerTile::Empty) } else { None })
}

/// The stages of a game of Area Attack.
#[derive(PartialEq, Eq, Clone, Copy, Debug, Hash, Structural)]
pub enum AreaAttack {
    /// Only for the client: no game of Area Attack in progress.
    Inactive,
    /// Players are selecting the tiles they will begin on.
    Selecting,
    /// The first stage, without restrictions.
    Stage1,
    /// The attack stage, which follows the first.
    Attack,
    /// The lock stage, which follows the attack stage.
    Lock,
    /// The game is over.
    Finishing,
}

/// A tile as the server knows it.
#[derive(PartialEq, Eq, Clone, Copy, Debug, Structural)]
pub enum ServerTile {
    /// No one has claimed the tile, and it holds no mine.
    Empty,
    /// A player has claimed the tile.
    Owned { player: PlayerId },
    /// The tile holds a mine that has not been revealed.
    Mine,
    /// The tile holds a mine that has been revealed.
    HardMine,
    /// The tile was destroyed by a mine revealed in the attack stage; it is lost for good.
    Destroyed,
}

/// A tile as a client is shown it.
#[derive(PartialEq, Eq, Clone, Copy, Debug, Structural)]
pub enum ClientTile {
    /// Unclaimed; whether it holds a mine is not known.
    Unknown,
    /// Claimed by `player`; the owner is told how many neighbouring tiles hold mines, others
    /// are told zero.
    Owned { player: PlayerId, num_neighbors: u8 },
    /// A mine someone has revealed.
    Mine,
    /// A flag the client placed.
    Flag,
    /// Destroyed in the attack stage.
    Destroyed,
}

/// The colours players are told apart by, in the order they are handed out.
#[derive(PartialEq, Eq, Clone, Copy, Debug, Structural)]
pub enum PlayerColor {
    Yellow,
    Green,
    Blue,
    Purple,
}

/// What the server keeps of a player: since when it is frozen, if it is, and whether it was
/// killed.
#[derive(PartialEq, Eq, Clone, Copy, Debug, Structural)]
pub struct PlayerStatus {
    pub id: PlayerId,
    /// The time (in nanoseconds of game time) at which the player was frozen.
    pub frozen: Option<u64>,
    pub killed: bool,
}

/// A request to claim the tile at `position` on behalf of `player`.
#[derive(PartialEq, Eq, Clone, Copy, Debug, Structural)]
pub struct RevealTile {
    pub position: Position,
    pub player: PlayerId,
}

/// Messages from the server to the clients of a game.
#[derive(Clone, Debug)]
pub enum AreaAttackUpdate {
    FieldShape(FieldShape),
    /// Sent on the creation of a player and when it changes its properties, and in a batch to
    /// any player who joins the game.
    PlayerProperties { id: PlayerId, username: String, color: PlayerColor, position: Position },
    Reposition { id: PlayerId, position: Position },
    /// Sent to a player whose properties the game sets (as on joining).
    SelfChange { color: PlayerColor, position: Position },
    TileChanged { position: Position, to: ClientTile },
    Transition(AreaAttack),
    /// The player has been frozen.
    Freeze,
    /// The player revealed a mine in the lock stage and is out.
    Killed,
    /// The game the player tried to join is full.
    Full,
    NotHost,
}

/// Messages from a client to the game.
#[derive(PartialEq, Eq, Clone, Copy, Debug, Structural)]
pub enum AreaAttackRequest {
    StartGame,
    Reveal(Position),
    Position(Position),
    Color(PlayerColor),
}

pub open spec fn reveals_in(stage: AreaAttack) -> bool {
    stage is Stage1 || stage is Attack || stage is Lock
}

impl AreaAttack {
    /// Whether tiles can be claimed in this stage.
    pub fn can_reveal(&self) -> (r: bool)
        ensures
            r == reveals_in(*self),
    {
        matches!(self, AreaAttack::Stage1 | AreaAttack::Attack | AreaAttack::Lock)
    }
}

// ---------------------------------------------------------------------------
// specification of claiming
// ---------------------------------------------------------------------------

/// The board as the map from tiles to their states.
pub type Board = Map<Position, ServerTile>;

/// The radius of the area an attack-stage mine resets.
pub const ATTACK_RADIUS: usize = 5;

pub open spec fn is_minish(t: ServerTile) -> bool {
    t is Mine || t is HardMine
}

/// The positions of `s` that are tiles of the board, in order.
pub open spec fn keep_on(m: Board, s: Seq<Position>) -> Seq<Position>
    decreases s.len(),
{
    if s.len() == 0 {
        seq![]
    } else {
        let rest = keep_on(m, s.drop_last());
        if m.contains_key(s.last()) { rest.push(s.last()) } else { rest }
    }
}

/// The tiles neighbouring `p`, in direction order.
pub open spec fn board_neighbors(m: Board, p: Position) -> Seq<Position> {
    keep_on(m, spec_neighbors(p))
}

/// How many of the positions hold a mine (revealed or not).
pub open spec fn count_minish(m: Board, s: Seq<Position>) -> int
    decreases s.len(),
{
    if s.len() == 0 {
        0
    } else {
        count_minish(m, s.drop_last()) + if is_minish(m[s.last()]) { 1int } else { 0 }
    }
}

/// Requests to claim each of the positions for `player`.
pub open spec fn requests_for(s: Seq<Position>, player: PlayerId) -> Seq<RevealTile> {
    Seq::new(s.len(), |i: int| RevealTile { position: s[i], player })
}

/// The board after the disk of an attack-stage mine at `p` is reset: each of its tiles that is
/// not destroyed becomes a mine where the draw for it came out true and empty otherwise.
pub open spec fn attack_disk(m: Board, p: Position, draws: Map<Position, bool>) -> Board {
    Map::new(
        |q: Position| m.contains_key(q),
        |q: Position|
            if in_disk(q.x - p.x, q.y - p.y, ATTACK_RADIUS as int) && m[q] != ServerTile::Destroyed {
                if draws[q] { ServerTile::Mine } else { ServerTile::Empty }
            } else {
                m[q]
            },
    )
}

/// The board after the claimed tiles on the rim around `p` are cleared.
pub open spec fn rim_clear(m: Board, p: Position) -> Board {
    Map::new(
        |q: Position| m.contains_key(q),
        |q: Position| if on_rim(q.x - p.x, q.y - p.y, ATTACK_RADIUS as int) && m[q] is Owned { ServerTile::Empty } else { m[q] },
    )
}

/// Requests, in the order of `rim`, to claim again each cleared tile for its former owner.
pub open spec fn rim_requeue(m: Board, rim: Seq<Position>) -> Seq<RevealTile>
    decreases rim.len(),
{
    if rim.len() == 0 {
        seq![]
    } else {
        let rest = rim_requeue(m, rim.drop_last());
        let q = rim.last();
        if m.contains_key(q) && m[q] is Owned {
            rest.push(RevealTile { position: q, player: m[q]->player })
        } else {
            rest
        }
    }
}

/// The tiles written when an attack-stage mine at `p` goes off.
pub open spec fn attack_written(m: Board, p: Position) -> Set<Position> {
    Set::new(|q: Position| m.contains_key(q) && (
        (in_disk(q.x - p.x, q.y - p.y, ATTACK_RADIUS as int) && m[q] != ServerTile::Destroyed)
        || on_rim(q.x - p.x, q.y - p.y, ATTACK_RADIUS as int) || q == p))
}

/// The index of the first player with the given identifier, or -1.
pub open spec fn find_player(ps: Seq<PlayerStatus>, id: PlayerId) -> int
    decreases ps.len(),
{
    if ps.len() == 0 {
        -1
    } else {
        let i = find_player(ps.drop_last(), id);
        if i >= 0 { i } else if ps.last().id == id { ps.len() - 1 } else { -1 }
    }
}

/// A claim in progress: the board, the players, the waiting requests, the messages to players
/// and the tiles written so far.
pub type ClaimState = (Board, Seq<PlayerStatus>, Seq<RevealTile>, Seq<(PlayerId, AreaAttackUpdate)>, Set<Position>);

/// Handling the first waiting request. Requests of frozen or killed players, and all requests
/// outside the stages that allow claiming, are dropped. Otherwise:
/// - an empty tile becomes the player's, and if none of its neighbours holds a mine the
///   neighbours are requested for the same player;
/// - a mine in the first stage is revealed and freezes the player;
/// - a mine in the attack stage resets the disk around it (see [`attack_disk`]), clears the
///   claimed tiles on the rim around that disk and requests them again for their owners, and
///   is itself destroyed;
/// - a mine in the lock stage is revealed and kills the player;
/// - other tiles, and positions that are no tiles, are left alone.
pub open spec fn claim_step(stage: AreaAttack, now: u64, s: ClaimState, draws: Map<Position, bool>) -> ClaimState {
    let (m, ps, q, out, written) = s;
    if q.len() == 0 {
        s
    } else {
        let rt = q[0];
        let rest = q.drop_first();
        let p = rt.position;
        let i = find_player(ps, rt.player);
        let st = ps[i];
        if st.frozen.is_some() || st.killed || !reveals_in(stage) || !m.contains_key(p) {
            (m, ps, rest, out, written)
        } else {
            match m[p] {
                ServerTile::Empty => {
                    let ns = board_neighbors(m, p);
                    let add = if count_minish(m, ns) == 0 { requests_for(ns, rt.player) } else { seq![] };
                    (m.insert(p, ServerTile::Owned { player: rt.player }), ps, rest + add, out, written.insert(p))
                },
                ServerTile::Mine => {
                    if stage is Stage1 {
                        (m.insert(p, ServerTile::HardMine), ps.update(i, PlayerStatus { frozen: Some(now), ..st }),
                            rest, out.push((rt.player, AreaAttackUpdate::Freeze)), written.insert(p))
                    } else if stage is Attack {
                        let md = attack_disk(m, p, draws);
                        let add = rim_requeue(md, rim_seq(p, ATTACK_RADIUS as int));
                        (rim_clear(md, p).insert(p, ServerTile::Destroyed), ps, rest + add, out,
                            written.union(attack_written(m, p)))
                    } else {
                        (m.insert(p, ServerTile::HardMine), ps.update(i, PlayerStatus { killed: true, ..st }),
                            rest, out.push((rt.player, AreaAttackUpdate::Killed)), written.insert(p))
                    }
                },
                _ => (m, ps, rest, out, written),
            }
        }
    }
}

/// Several steps, each with its own draws.
pub open spec fn claim_steps(stage: AreaAttack, now: u64, s: ClaimState, draws: Seq<Map<Position, bool>>, n: nat) -> ClaimState
    decreases n,
{
    if n == 0 {
        s
    } else {
        claim_steps(stage, now, claim_step(stage, now, s, draws[0]), draws.drop_first(), (n - 1) as nat)
    }
}


// ---------------------------------------------------------------------------
// counting measures
// ---------------------------------------------------------------------------

pub type ServerCells = Seq<Option<ServerTile>>;

/// The number of tiles that are not destroyed.
pub open spec fn count_standing(c: ServerCells) -> int
    decreases c.len(),
{
    if c.len() == 0 {
        0
    } else {
        count_standing(c.drop_last()) + if c.last().is_some() && c.last() != Some(ServerTile::Destroyed) { 1int } else { 0 }
    }
}

/// The number of empty tiles.
pub open spec fn count_open(c: ServerCells) -> int
    decreases c.len(),
{
    if c.len() == 0 {
        0
    } else {
        count_open(c.drop_last()) + if c.last() == Some(ServerTile::Empty) { 1int } else { 0 }
    }
}

pub open spec fn standing(v: Option<ServerTile>) -> int {
    if v.is_some() && v != Some(ServerTile::Destroyed) { 1 } else { 0 }
}

pub open spec fn open(v: Option<ServerTile>) -> int {
    if v == Some(ServerTile::Empty) { 1 } else { 0 }
}

proof fn lemma_counts_update(c: ServerCells, i: int, v: Option<ServerTile>)
    requires
        0 <= i < c.len(),
    ensures
        count_standing(c.update(i, v)) == count_standing(c) - standing(c[i]) + standing(v),
        count_open(c.update(i, v)) == count_open(c) - open(c[i]) + open(v),
        count_standing(c) >= 0,
        count_open(c) >= 0,
    decreases c.len(),
{
    if i < c.len() - 1 {
        assert(c.update(i, v).drop_last() =~= c.drop_last().update(i, v));
        lemma_counts_update(c.drop_last(), i, v);
    } else {
        assert(c.update(i, v).drop_last() =~= c.drop_last());
        lemma_counts_nonneg(c.drop_last());
    }
}

proof fn lemma_counts_nonneg(c: ServerCells)
    ensures
        count_standing(c) >= 0,
        count_open(c) >= 0,
    decreases c.len(),
{
    if c.len() > 0 {
        lemma_counts_nonneg(c.drop_last());
    }
}

// ---------------------------------------------------------------------------
// helpers
// ---------------------------------------------------------------------------

proof fn lemma_find_extend(ps: Seq<PlayerStatus>, k: int, id: PlayerId)
    requires
        0 <= k < ps.len(),
    ensures
        find_player(ps.take(k + 1), id) == if find_player(ps.take(k), id) >= 0 {
            find_player(ps.take(k), id)
        } else if ps[k].id == id {
            k
        } else {
            -1
        },
{
    assert(ps.take(k + 1).drop_last() =~= ps.take(k));
}

proof fn lemma_find_bounds(ps: Seq<PlayerStatus>, id: PlayerId)
    ensures
        -1 <= find_player(ps, id) < ps.len(),
        find_player(ps, id) >= 0 ==> ps[find_player(ps, id)].id == id,
    decreases ps.len(),
{
    if ps.len() > 0 {
        lemma_find_bounds(ps.drop_last(), id);
    }
}

proof fn lemma_find_prefix(ps: Seq<PlayerStatus>, k: int, id: PlayerId)
    requires
        0 <= k <= ps.len(),
        find_player(ps.take(k), id) >= 0,
    ensures
        find_player(ps, id) == find_player(ps.take(k), id),
    decreases ps.len() - k,
{
    if k < ps.len() {
        lemma_find_extend(ps, k, id);
        lemma_find_prefix(ps, k + 1, id);
    } else {
        assert(ps.take(k) =~= ps);
    }
}

/// Only the identifiers matter to finding a player.
proof fn lemma_find_same_ids(ps: Seq<PlayerStatus>, qs: Seq<PlayerStatus>, id: PlayerId)
    requires
        ps.len() == qs.len(),
        forall|i: int| 0 <= i < ps.len() ==> #[trigger] ps[i].id == qs[i].id,
    ensures
        find_player(ps, id) == find_player(qs, id),
    decreases ps.len(),
{
    if ps.len() > 0 {
        lemma_find_same_ids(ps.drop_last(), qs.drop_last(), id);
    }
}

/// The position of the first player with this identifier.
fn player_index(ps: &Vec<PlayerStatus>, id: PlayerId) -> (i: usize)
    requires
        find_player(ps@, id) >= 0,
    ensures
        i == find_player(ps@, id),
        i < ps.len(),
{
    let mut i: usize = 0;
    proof { assert(ps@.take(0).len() == 0); }
    while i < ps.len()
        invariant
            i <= ps.len(),
            find_player(ps@, id) >= 0,
            find_player(ps@.take(i as int), id) == -1,
        decreases ps.len() - i,
    {
        proof { lemma_find_extend(ps@, i as int, id); }
        if ps[i].id == id {
            proof { lemma_find_prefix(ps@, i + 1, id); }
            return i;
        }
        i = i + 1;
    }
    proof { assert(ps@.take(i as int) =~= ps@); }
    0
}

/// Draws whether a reset tile receives a mine: true with probability one in five
/// (`rand::Rng::gen_ratio(1, 5)` on the thread's random generator). The result is left to
/// chance and is not stated.
#[verifier::external_body]
fn mine_draw() -> (b: bool) {
    rand::Rng::gen_ratio(&mut rand::thread_rng(), 1, 5)
}

/// The largest width and height of an Area Attack board.
pub const MAX_SIDE: usize = 0x3fff_ffff;

proof fn lemma_keep_on(field: Minefield<ServerTile>, s: Seq<Position>)
    requires
        field.wf(),
    ensures
        keep_tiles(field.cells(), field.width(), field.height(), s) == keep_on(field.view(), s),
    decreases s.len(),
{
    if s.len() > 0 {
        lemma_keep_on(field, s.drop_last());
    }
}


pub open spec fn disk_tile(m0: Board, p: Position, x: Position) -> bool {
    m0.contains_key(x) && in_disk(x.x - p.x, x.y - p.y, ATTACK_RADIUS as int) && m0[x] != ServerTile::Destroyed
}

/// Sets off a mine at `p` in the attack stage: resets the disk around it with fresh draws,
/// clears and requests again the claimed tiles on the rim, and destroys the tile of the mine.
fn attack_mine(
    field: &mut Minefield<ServerTile>,
    p: Position,
    queue: &mut VecDeque<RevealTile>,
    touched: &mut Vec<Position>,
) -> (draws: Ghost<Map<Position, bool>>)
    requires
        old(field).wf(),
        old(field).width() <= MAX_SIDE,
        old(field).height() <= MAX_SIDE,
        old(field).tile(p) == Some(ServerTile::Mine),
    ensures
        final(field).wf(),
        final(field).width() == old(field).width(),
        final(field).height() == old(field).height(),
        final(field).view() == rim_clear(attack_disk(old(field).view(), p, draws@), p).insert(p, ServerTile::Destroyed),
        final(queue)@ == old(queue)@ + rim_requeue(attack_disk(old(field).view(), p, draws@), rim_seq(p, ATTACK_RADIUS as int)),
        forall|x: Position| #[trigger] final(touched)@.contains(x) <==> (old(touched)@.contains(x) || attack_written(old(field).view(), p).contains(x)),
        count_standing(final(field).cells()) == count_standing(old(field).cells()) - 1,
{
    let ghost m0 = field.view();
    let ghost c0 = field.cells();
    let ghost t0 = touched@;
    proof {
        assert(crate::position::offset_fits(p, ATTACK_RADIUS as int + 1));
    }
    let disk = p.radius(ATTACK_RADIUS);
    let ghost mut dr: Map<Position, bool> = Map::empty();
    let mut i: usize = 0;
    while i < disk.len()
        invariant
            field.wf(),
            field.width() == old(field).width(),
            field.height() == old(field).height(),
            m0 == old(field).view(),
            c0 == old(field).cells(),
            t0 == old(touched)@,
            i <= disk.len(),
            crate::position::no_duplicates(disk@),
            forall|q: Position| #[trigger] disk@.contains(q) <==> in_disk(q.x - p.x, q.y - p.y, ATTACK_RADIUS as int),
            forall|x: Position| #[trigger] field.tile(x) == if disk@.take(i as int).contains(x) && disk_tile(m0, p, x) {
                Some(if dr[x] { ServerTile::Mine } else { ServerTile::Empty })
            } else {
                old(field).tile(x)
            },
            forall|x: Position| #[trigger] touched@.contains(x) <==> (t0.contains(x) || (disk@.take(i as int).contains(x) && disk_tile(m0, p, x))),
            count_standing(field.cells()) == count_standing(c0),
        decreases disk.len() - i,
    {
        let q = disk[i];
        proof {
            assert(disk@.take(i + 1) =~= disk@.take(i as int).push(q));
            assert(!disk@.take(i as int).contains(q)) by {
                if disk@.take(i as int).contains(q) {
                    let t = choose|t: int| 0 <= t < i && #[trigger] disk@.take(i as int)[t] == q;
                    assert(disk@[t] == disk@[i as int]);
                }
            }
            assert(disk@.contains(q)) by { assert(disk@[i as int] == q); }
        }
        let ghost before_touched = touched@;
        match field.get(q) {
            Some(t) => {
                if t != ServerTile::Destroyed {
                    let b = mine_draw();
                    proof {
                        lemma_counts_update(field.cells(), crate::minefield::slot(field.width(), field.height(), q),
                            Some(if b { ServerTile::Mine } else { ServerTile::Empty }));
                        dr = dr.insert(q, b);
                    }
                    field.set(q, if b { ServerTile::Mine } else { ServerTile::Empty });
                    touched.push(q);
                }
            },
            None => {},
        }
        proof {
            assert forall|x: Position| #[trigger] field.tile(x) == if disk@.take(i + 1).contains(x) && disk_tile(m0, p, x) {
                Some(if dr[x] { ServerTile::Mine } else { ServerTile::Empty })
            } else {
                old(field).tile(x)
            } by {
                if x != q && disk@.take(i + 1).contains(x) {
                    let t = choose|t: int| 0 <= t < i + 1 && #[trigger] disk@.take(i + 1)[t] == x;
                    assert(disk@.take(i as int)[t] == x);
                }
                if disk@.take(i as int).contains(x) {
                    let t = choose|t: int| 0 <= t < i && #[trigger] disk@.take(i as int)[t] == x;
                    assert(disk@.take(i + 1)[t] == x);
                }
                if x == q {
                    assert(disk@.take(i + 1)[i as int] == x);
                }
            }
            assert forall|x: Position| #[trigger] touched@.contains(x) <==> (t0.contains(x) || (disk@.take(i + 1).contains(x) && disk_tile(m0, p, x))) by {
                if x != q && disk@.take(i + 1).contains(x) {
                    let t = choose|t: int| 0 <= t < i + 1 && #[trigger] disk@.take(i + 1)[t] == x;
                    assert(disk@.take(i as int)[t] == x);
                }
                if disk@.take(i as int).contains(x) {
                    let t = choose|t: int| 0 <= t < i && #[trigger] disk@.take(i as int)[t] == x;
                    assert(disk@.take(i + 1)[t] == x);
                }
                if x == q {
                    assert(disk@.take(i + 1)[i as int] == x);
                }
                if touched@.contains(x) && x != q {
                    let t = choose|t: int| 0 <= t < touched@.len() && touched@[t] == x;
                    assert(before_touched[t] == x);
                }
                if before_touched.contains(x) {
                    let t = choose|t: int| 0 <= t < before_touched.len() && before_touched[t] == x;
                    assert(touched@[t] == x);
                }
                if x == q && disk_tile(m0, p, x) {
                    assert(touched@[touched@.len() - 1] == x);
                }
            }
        }
        i = i + 1;
    }
    let ghost md = field.view();
    proof {
        assert(disk@.take(i as int) =~= disk@);
        assert(md =~= attack_disk(m0, p, dr)) by {
            assert forall|x: Position| md.contains_key(x) <==> attack_disk(m0, p, dr).contains_key(x) by {}
            assert forall|x: Position| md.contains_key(x) implies md[x] == attack_disk(m0, p, dr)[x] by {
                assert(field.tile(x).is_some());
            }
        }
    }
    let ghost t1 = touched@;
    let ghost q0 = queue@;
    let rim = p.disk_neighbors(ATTACK_RADIUS);
    let mut j: usize = 0;
    proof {
        assert(rim@.take(0) =~= Seq::<Position>::empty());
        assert(q0 + rim_requeue(md, rim@.take(0)) =~= q0);
    }
    while j < rim.len()
        invariant
            field.wf(),
            field.width() == old(field).width(),
            field.height() == old(field).height(),
            md == attack_disk(m0, p, dr),
            j <= rim.len(),
            rim@ == rim_seq(p, ATTACK_RADIUS as int),
            crate::position::no_duplicates(rim@),
            forall|q: Position| #[trigger] rim@.contains(q) <==> on_rim(q.x - p.x, q.y - p.y, ATTACK_RADIUS as int),
            forall|x: Position| #[trigger] field.tile(x) == if rim@.take(j as int).contains(x) && md.contains_key(x) && md[x] is Owned {
                Some(ServerTile::Empty)
            } else {
                if md.contains_key(x) { Some(md[x]) } else { None }
            },
            queue@ == q0 + rim_requeue(md, rim@.take(j as int)),
            forall|x: Position| #[trigger] touched@.contains(x) <==> (t1.contains(x) || (rim@.take(j as int).contains(x) && md.contains_key(x))),
            count_standing(field.cells()) == count_standing(c0),
            forall|x: Position| #[trigger] md.contains_key(x) <==> field.tile(x).is_some(),
        decreases rim.len() - j,
    {
        let q = rim[j];
        proof {
            assert(rim@.take(j + 1) =~= rim@.take(j as int).push(q));
            assert(rim@.take(j + 1).drop_last() =~= rim@.take(j as int));
            assert(!rim@.take(j as int).contains(q)) by {
                if rim@.take(j as int).contains(q) {
                    let t = choose|t: int| 0 <= t < j && #[trigger] rim@.take(j as int)[t] == q;
                    assert(rim@[t] == rim@[j as int]);
                }
            }
        }
        let ghost before_touched = touched@;
        match field.get(q) {
            Some(ServerTile::Owned { player }) => {
                proof {
                    lemma_counts_update(field.cells(), crate::minefield::slot(field.width(), field.height(), q), Some(ServerTile::Empty));
                }
                field.set(q, ServerTile::Empty);
                queue.push_back(RevealTile { position: q, player });
                touched.push(q);
            },
            Some(_) => {
                touched.push(q);
            },
            None => {},
        }
        proof {
            assert forall|x: Position| #[trigger] field.tile(x) == if rim@.take(j + 1).contains(x) && md.contains_key(x) && md[x] is Owned {
                Some(ServerTile::Empty)
            } else {
                if md.contains_key(x) { Some(md[x]) } else { None }
            } by {
                if x != q && rim@.take(j + 1).contains(x) {
                    let t = choose|t: int| 0 <= t < j + 1 && #[trigger] rim@.take(j + 1)[t] == x;
                    assert(rim@.take(j as int)[t] == x);
                }
                if rim@.take(j as int).contains(x) {
                    let t = choose|t: int| 0 <= t < j && #[trigger] rim@.take(j as int)[t] == x;
                    assert(rim@.take(j + 1)[t] == x);
                }
                if x == q {
                    assert(rim@.take(j + 1)[j as int] == x);
                }
            }
            assert(queue@ =~= q0 + rim_requeue(md, rim@.take(j + 1)));
            assert forall|x: Position| #[trigger] touched@.contains(x) <==> (t1.contains(x) || (rim@.take(j + 1).contains(x) && md.contains_key(x))) by {
                if x != q && rim@.take(j + 1).contains(x) {
                    let t = choose|t: int| 0 <= t < j + 1 && #[trigger] rim@.take(j + 1)[t] == x;
                    assert(rim@.take(j as int)[t] == x);
                }
                if rim@.take(j as int).contains(x) {
                    let t = choose|t: int| 0 <= t < j && #[trigger] rim@.take(j as int)[t] == x;
                    assert(rim@.take(j + 1)[t] == x);
                }
                if x == q {
                    assert(rim@.take(j + 1)[j as int] == x);
                }
                if touched@.contains(x) && x != q {
                    let t = choose|t: int| 0 <= t < touched@.len() && touched@[t] == x;
                    assert(before_touched[t] == x);
                }
                if before_touched.contains(x) {
                    let t = choose|t: int| 0 <= t < before_touched.len() && before_touched[t] == x;
                    assert(touched@[t] == x);
                }
                if x == q && md.contains_key(x) {
                    assert(touched@[touched@.len() - 1] == x);
                }
            }
        }
        j = j + 1;
    }
    proof {
        assert(rim@.take(j as int) =~= rim@);
        assert(field.view() =~= rim_clear(md, p)) by {
            assert forall|x: Position| field.view().contains_key(x) implies field.view()[x] == rim_clear(md, p)[x] by {
                assert(field.tile(x).is_some());
            }
        }
        assert(md[p] == ServerTile::Mine);
        assert(field.tile(p) == Some(ServerTile::Mine)) by {
            assert(!rim@.contains(p));
        }
        lemma_counts_update(field.cells(), crate::minefield::slot(field.width(), field.height(), p), Some(ServerTile::Destroyed));
    }
    let ghost before_touched = touched@;
    field.set(p, ServerTile::Destroyed);
    touched.push(p);
    proof {
        assert(field.view() =~= rim_clear(md, p).insert(p, ServerTile::Destroyed)) by {
            assert forall|x: Position| field.view().contains_key(x) implies field.view()[x] == rim_clear(md, p).insert(p, ServerTile::Destroyed)[x] by {
                assert(field.tile(x).is_some());
            }
        }
        assert forall|x: Position| #[trigger] touched@.contains(x) <==> (t0.contains(x) || attack_written(m0, p).contains(x)) by {
            if touched@.contains(x) && x != p {
                let t = choose|t: int| 0 <= t < touched@.len() && touched@[t] == x;
                assert(before_touched[t] == x);
            }
            if before_touched.contains(x) {
                let t = choose|t: int| 0 <= t < before_touched.len() && before_touched[t] == x;
                assert(touched@[t] == x);
            }
            if x == p {
                assert(touched@[touched@.len() - 1] == x);
            }
            if attack_written(m0, p).contains(x) && x != p {
                if on_rim(x.x - p.x, x.y - p.y, ATTACK_RADIUS as int) {
                    assert(md.contains_key(x));
                    assert(rim@.contains(x));
                } else {
                    assert(disk@.contains(x));
                }
            }
        }
    }
    Ghost(dr)
}


// ---------------------------------------------------------------------------
// claiming
// ---------------------------------------------------------------------------

/// Every claimed tile belongs to a player of the game.
pub open spec fn owners_present(m: Board, ps: Seq<PlayerStatus>) -> bool {
    forall|q: Position| #[trigger] m.contains_key(q) ==> (m[q] is Owned ==> find_player(ps, m[q]->player) >= 0)
}

/// Every request comes from a player of the game.
pub open spec fn requests_present(q: Seq<RevealTile>, ps: Seq<PlayerStatus>) -> bool {
    forall|i: int| 0 <= i < q.len() ==> find_player(ps, #[trigger] q[i].player) >= 0
}

/// Two lists of players that differ at most in whether players are frozen or killed.
pub open spec fn same_players(ps: Seq<PlayerStatus>, qs: Seq<PlayerStatus>) -> bool {
    &&& ps.len() == qs.len()
    &&& forall|i: int| 0 <= i < ps.len() ==> #[trigger] ps[i].id == qs[i].id
}

proof fn lemma_view_set(f0: Minefield<ServerTile>, f1: Minefield<ServerTile>, p: Position, v: ServerTile)
    requires
        f0.tile(p).is_some(),
        forall|q: Position| #[trigger] f1.tile(q) == if q == p { Some(v) } else { f0.tile(q) },
    ensures
        f1.view() == f0.view().insert(p, v),
{
    assert(f1.view() =~= f0.view().insert(p, v)) by {
        assert forall|q: Position| f1.view().contains_key(q) implies f1.view()[q] == f0.view().insert(p, v)[q] by {
            assert(f1.tile(q).is_some());
        }
        assert forall|q: Position| f1.view().contains_key(q) <==> f0.view().insert(p, v).contains_key(q) by {
            assert(f1.tile(q) == if q == p { Some(v) } else { f0.tile(q) });
        }
    }
}

proof fn lemma_rim_requeue_present(md: Board, rim: Seq<Position>, ps: Seq<PlayerStatus>)
    requires
        owners_present(md, ps),
    ensures
        requests_present(rim_requeue(md, rim), ps),
    decreases rim.len(),
{
    if rim.len() > 0 {
        lemma_rim_requeue_present(md, rim.drop_last(), ps);
        let q = rim.last();
        if md.contains_key(q) && md[q] is Owned {
            let r = rim_requeue(md, rim);
            assert forall|i: int| 0 <= i < r.len() implies find_player(ps, #[trigger] r[i].player) >= 0 by {
                if i < r.len() - 1 {
                    assert(r[i] == rim_requeue(md, rim.drop_last())[i]);
                }
            }
        }
    }
}

proof fn lemma_claim_steps_push(stage: AreaAttack, now: u64, s: ClaimState, d: Seq<Map<Position, bool>>, x: Map<Position, bool>, n: nat)
    requires
        d.len() == n,
    ensures
        claim_steps(stage, now, s, d.push(x), n + 1) == claim_step(stage, now, claim_steps(stage, now, s, d, n), x),
    decreases n,
{
    let e = d.push(x);
    assert(claim_steps(stage, now, s, e, n + 1) == claim_steps(stage, now, claim_step(stage, now, s, e[0]), e.drop_first(), n));
    if n > 0 {
        assert(e[0] == d[0]);
        assert(e.drop_first() =~= d.drop_first().push(x));
        lemma_claim_steps_push(stage, now, claim_step(stage, now, s, d[0]), d.drop_first(), x, (n - 1) as nat);
    } else {
        assert(e[0] == x);
    }
}

/// How many of the tiles neighbouring `p` hold a mine, revealed or not.
fn count_neighbor_mines(field: &Minefield<ServerTile>, p: Position) -> (n: u8)
    requires
        field.wf(),
    ensures
        n == count_minish(field.view(), board_neighbors(field.view(), p)),
        n <= 8,
{
    let ns = field.neighbor_positions(p);
    let cs = field.neighbor_cells(p);
    proof {
        lemma_neighbor_tiles(field.cells(), field.width(), field.height(), p);
        lemma_keep_on(*field, spec_neighbors(p));
    }
    let mut mines: u8 = 0;
    let mut k: usize = 0;
    while k < cs.len()
        invariant
            field.wf(),
            k <= cs.len(),
            cs@.len() == ns@.len(),
            ns@.len() <= 8,
            mines <= k,
            forall|t: int| 0 <= t < cs@.len() ==> Some(#[trigger] cs@[t]) == field.tile(ns@[t]),
            mines == count_minish(field.view(), ns@.take(k as int)),
        decreases cs.len() - k,
    {
        proof {
            assert(ns@.take(k + 1).drop_last() =~= ns@.take(k as int));
            assert(Some(cs@[k as int]) == field.tile(ns@[k as int]));
        }
        if matches!(cs[k], ServerTile::Mine | ServerTile::HardMine) {
            mines = mines + 1;
        }
        k = k + 1;
    }
    proof {
        assert(ns@.take(k as int) =~= ns@);
    }
    mines
}

/// Handles one request, `rt`, taken from the front of the queue.
fn claim_one(
    field: &mut Minefield<ServerTile>,
    stage: AreaAttack,
    now: u64,
    players: &mut Vec<PlayerStatus>,
    queue: &mut VecDeque<RevealTile>,
    notices: &mut Vec<(PlayerId, AreaAttackUpdate)>,
    touched: &mut Vec<Position>,
    rt: RevealTile,
) -> (draws: Ghost<Map<Position, bool>>)
    requires
        old(field).wf(),
        old(field).width() <= MAX_SIDE,
        old(field).height() <= MAX_SIDE,
        find_player(old(players)@, rt.player) >= 0,
        owners_present(old(field).view(), old(players)@),
        requests_present(old(queue)@, old(players)@),
    ensures
        final(field).wf(),
        final(field).width() == old(field).width(),
        final(field).height() == old(field).height(),
        same_players(final(players)@, old(players)@),
        owners_present(final(field).view(), final(players)@),
        requests_present(final(queue)@, final(players)@),
        claim_step(stage, now, (old(field).view(), old(players)@, seq![rt] + old(queue)@, old(notices)@, old(touched)@.to_set()), draws@)
            == (final(field).view(), final(players)@, final(queue)@, final(notices)@, final(touched)@.to_set()),
        count_standing(final(field).cells()) < count_standing(old(field).cells())
            || (count_standing(final(field).cells()) == count_standing(old(field).cells())
                && (count_open(final(field).cells()) < count_open(old(field).cells())
                    || (count_open(final(field).cells()) == count_open(old(field).cells())
                        && final(queue)@.len() <= old(queue)@.len()))),
{
    let ghost m = field.view();
    let ghost ps = players@;
    let ghost q0 = queue@;
    let ghost w0 = touched@.to_set();
    let ghost c0 = field.cells();
    proof {
        assert((seq![rt] + q0)[0] == rt);
        assert((seq![rt] + q0).drop_first() =~= q0);
        lemma_find_bounds(ps, rt.player);
    }
    let p = rt.position;
    let i = player_index(players, rt.player);
    let st = players[i];
    if st.frozen.is_some() || st.killed || !stage.can_reveal() {
        return Ghost(Map::empty());
    }
    match field.get(p) {
        None => Ghost(Map::empty()),
        Some(ServerTile::Empty) => {
            let ns = field.neighbor_positions(p);
            let mines = count_neighbor_mines(field, p);
            proof {
                lemma_keep_on(*field, spec_neighbors(p));
                lemma_counts_update(field.cells(), crate::minefield::slot(field.width(), field.height(), p),
                    Some(ServerTile::Owned { player: rt.player }));
            }
            let ghost f0 = *field;
            field.set(p, ServerTile::Owned { player: rt.player });
            proof { lemma_view_set(f0, *field, p, ServerTile::Owned { player: rt.player }); }
            let ghost tb = touched@;
            touched.push(p);
            proof {
                assert(touched@.to_set() =~= w0.insert(p)) by {
                    assert forall|x: Position| touched@.contains(x) <==> w0.insert(p).contains(x) by {
                        if touched@.contains(x) && x != p {
                            let t = choose|t: int| 0 <= t < touched@.len() && touched@[t] == x;
                            assert(tb[t] == x);
                        }
                        if tb.contains(x) {
                            let t = choose|t: int| 0 <= t < tb.len() && tb[t] == x;
                            assert(touched@[t] == x);
                        }
                        if x == p {
                            assert(touched@[touched@.len() - 1] == x);
                        }
                    }
                }
            }
            if mines == 0 {
                let mut k: usize = 0;
                proof { assert(requests_for(ns@.take(0), rt.player) =~= Seq::<RevealTile>::empty()); }
                while k < ns.len()
                    invariant
                        k <= ns.len(),
                        queue@ == q0 + requests_for(ns@.take(k as int), rt.player),
                    decreases ns.len() - k,
                {
                    queue.push_back(RevealTile { position: ns[k], player: rt.player });
                    proof {
                        assert(requests_for(ns@.take(k + 1), rt.player) =~= requests_for(ns@.take(k as int), rt.player).push(
                            RevealTile { position: ns@[k as int], player: rt.player }));
                    }
                    k = k + 1;
                }
                proof {
                    assert(ns@.take(k as int) =~= ns@);
                }
            } else {
                proof { assert(q0 + seq![] =~= q0); }
            }
            proof {
                assert forall|j: int| 0 <= j < queue@.len() implies find_player(players@, #[trigger] queue@[j].player) >= 0 by {
                    if j >= q0.len() {
                        assert(queue@[j].player == rt.player);
                    }
                }
            }
            Ghost(Map::empty())
        },
        Some(ServerTile::Mine) => {
            match stage {
                AreaAttack::Stage1 => {
                    proof {
                        lemma_counts_update(field.cells(), crate::minefield::slot(field.width(), field.height(), p), Some(ServerTile::HardMine));
                    }
                    let ghost f0 = *field;
                    field.set(p, ServerTile::HardMine);
                    proof { lemma_view_set(f0, *field, p, ServerTile::HardMine); }
                    players.set(i, PlayerStatus { id: st.id, frozen: Some(now), killed: st.killed });
                    notices.push((rt.player, AreaAttackUpdate::Freeze));
                    let ghost tb = touched@;
                    touched.push(p);
                    proof {
                        assert(touched@.to_set() =~= w0.insert(p)) by {
                            assert forall|x: Position| touched@.contains(x) <==> w0.insert(p).contains(x) by {
                                if touched@.contains(x) && x != p {
                                    let t = choose|t: int| 0 <= t < touched@.len() && touched@[t] == x;
                                    assert(tb[t] == x);
                                }
                                if tb.contains(x) {
                                    let t = choose|t: int| 0 <= t < tb.len() && tb[t] == x;
                                    assert(touched@[t] == x);
                                }
                                if x == p {
                                    assert(touched@[touched@.len() - 1] == x);
                                }
                            }
                        }
                        assert(players@ == ps.update(i as int, PlayerStatus { frozen: Some(now), ..st }));
                        lemma_find_same_ids(players@, ps, rt.player);
                        assert forall|id: PlayerId| find_player(players@, id) == find_player(ps, id) by {
                            lemma_find_same_ids(players@, ps, id);
                        }
                    }
                    Ghost(Map::empty())
                },
                AreaAttack::Attack => {
                    let ghost tb = touched@;
                    let d = attack_mine(field, p, queue, touched);
                    proof {
                        let md = attack_disk(m, p, d@);
                        assert(touched@.to_set() =~= w0.union(attack_written(m, p)));
                        assert(owners_present(md, ps));
                        lemma_rim_requeue_present(md, rim_seq(p, ATTACK_RADIUS as int), ps);
                        let r = rim_requeue(md, rim_seq(p, ATTACK_RADIUS as int));
                        assert forall|j: int| 0 <= j < queue@.len() implies find_player(players@, #[trigger] queue@[j].player) >= 0 by {
                            if j >= q0.len() {
                                assert(queue@[j] == r[j - q0.len()]);
                            }
                        }
                    }
                    d
                },
                AreaAttack::Lock => {
                    proof {
                        lemma_counts_update(field.cells(), crate::minefield::slot(field.width(), field.height(), p), Some(ServerTile::HardMine));
                    }
                    let ghost f0 = *field;
                    field.set(p, ServerTile::HardMine);
                    proof { lemma_view_set(f0, *field, p, ServerTile::HardMine); }
                    players.set(i, PlayerStatus { id: st.id, frozen: st.frozen, killed: true });
                    notices.push((rt.player, AreaAttackUpdate::Killed));
                    let ghost tb = touched@;
                    touched.push(p);
                    proof {
                        assert(touched@.to_set() =~= w0.insert(p)) by {
                            assert forall|x: Position| touched@.contains(x) <==> w0.insert(p).contains(x) by {
                                if touched@.contains(x) && x != p {
                                    let t = choose|t: int| 0 <= t < touched@.len() && touched@[t] == x;
                                    assert(tb[t] == x);
                                }
                                if tb.contains(x) {
                                    let t = choose|t: int| 0 <= t < tb.len() && tb[t] == x;
                                    assert(touched@[t] == x);
                                }
                                if x == p {
                                    assert(touched@[touched@.len() - 1] == x);
                                }
                            }
                        }
                        assert(players@ == ps.update(i as int, PlayerStatus { killed: true, ..st }));
                        assert forall|id: PlayerId| find_player(players@, id) == find_player(ps, id) by {
                            lemma_find_same_ids(players@, ps, id);
                        }
                    }
                    Ghost(Map::empty())
                },
                _ => Ghost(Map::empty()),
            }
        },
        Some(_) => Ghost(Map::empty()),
    }
}

/// Handles the claims made since the last call. The requests are taken as they come in, each
/// put at the front of the queue, so the latest is handled first; the queue is then worked
/// through, requests added by a step going to its back, until it is empty (see
/// [`claim_step`]). Returns the messages for players, and the tiles that were written, whose
/// new state the clients are to be told.
pub fn reveal_tiles(
    field: &mut Minefield<ServerTile>,
    stage: AreaAttack,
    now: u64,
    players: &mut Vec<PlayerStatus>,
    requests: &Vec<RevealTile>,
) -> (r: (Vec<(PlayerId, AreaAttackUpdate)>, Vec<Position>))
    requires
        old(field).wf(),
        old(field).width() <= MAX_SIDE,
        old(field).height() <= MAX_SIDE,
        requests_present(requests@, old(players)@),
        owners_present(old(field).view(), old(players)@),
    ensures
        final(field).wf(),
        final(field).width() == old(field).width(),
        final(field).height() == old(field).height(),
        same_players(final(players)@, old(players)@),
        owners_present(final(field).view(), final(players)@),
        exists|d: Seq<Map<Position, bool>>, n: nat|
            claim_steps(stage, now, (old(field).view(), old(players)@, requests@.reverse(), seq![], Set::empty()), d, n)
                == (final(field).view(), final(players)@, Seq::<RevealTile>::empty(), r.0@, r.1@.to_set()),
        (forall|i: int| 0 <= i < requests.len() ==> claim_blocked(stage, old(players)@, #[trigger] requests@[i])) ==> {
            &&& final(field).view() == old(field).view()
            &&& final(players)@ == old(players)@
            &&& r.0@.len() == 0
            &&& r.1@.len() == 0
        },
{
    let mut queue: VecDeque<RevealTile> = VecDeque::new();
    let mut i: usize = 0;
    while i < requests.len()
        invariant
            i <= requests.len(),
            queue@ == requests@.take(i as int).reverse(),
        decreases requests.len() - i,
    {
        queue.push_front(requests[i]);
        proof {
            assert(requests@.take(i + 1).reverse() =~= seq![requests@[i as int]] + requests@.take(i as int).reverse());
        }
        i = i + 1;
    }
    proof {
        assert(requests@.take(i as int) =~= requests@);
    }
    let mut notices: Vec<(PlayerId, AreaAttackUpdate)> = Vec::new();
    let mut touched: Vec<Position> = Vec::new();
    let ghost init: ClaimState = (field.view(), players@, queue@, seq![], Set::empty());
    let ghost mut d: Seq<Map<Position, bool>> = seq![];
    proof {
        assert(touched@.to_set() =~= Set::<Position>::empty());
        assert(notices@ =~= Seq::<(PlayerId, AreaAttackUpdate)>::empty());
        assert forall|j: int| 0 <= j < queue@.len() implies find_player(players@, #[trigger] queue@[j].player) >= 0 by {
            assert(queue@[j] == requests@[requests@.len() - 1 - j]);
        }
        lemma_counts_nonneg(field.cells());
    }
    while queue.len() > 0
        invariant
            field.wf(),
            field.width() == old(field).width(),
            field.height() == old(field).height(),
            field.width() <= MAX_SIDE,
            field.height() <= MAX_SIDE,
            same_players(players@, old(players)@),
            owners_present(field.view(), players@),
            requests_present(queue@, players@),
            claim_steps(stage, now, init, d, d.len()) == (field.view(), players@, queue@, notices@, touched@.to_set()),
            init == (old(field).view(), old(players)@, requests@.reverse(), Seq::<(PlayerId, AreaAttackUpdate)>::empty(), Set::<Position>::empty()),
            count_standing(field.cells()) >= 0,
            count_open(field.cells()) >= 0,
        decreases count_standing(field.cells()), count_open(field.cells()), queue@.len(),
    {
        let ghost before = (field.view(), players@, queue@, notices@, touched@.to_set());
        let ghost ps0 = players@;
        let rt = queue.pop_front().unwrap();
        proof {
            assert(before.2 =~= seq![rt] + queue@);
            assert(find_player(players@, rt.player) >= 0) by {
                assert(before.2[0] == rt);
            }
            assert forall|j: int| 0 <= j < queue@.len() implies find_player(players@, #[trigger] queue@[j].player) >= 0 by {
                assert(queue@[j] == before.2[j + 1]);
            }
        }
        let x = claim_one(field, stage, now, players, &mut queue, &mut notices, &mut touched, rt);
        proof {
            lemma_claim_steps_push(stage, now, init, d, x@, d.len());
            d = d.push(x@);
            assert forall|j: int| 0 <= j < players@.len() implies #[trigger] players@[j].id == old(players)@[j].id by {
                assert(players@[j].id == ps0[j].id);
            }
            lemma_counts_nonneg(field.cells());
        }
    }
    proof {
        assert(queue@ =~= Seq::<RevealTile>::empty());
        if forall|i: int| 0 <= i < requests.len() ==> claim_blocked(stage, old(players)@, #[trigger] requests@[i]) {
            let rq = requests@.reverse();
            assert forall|i: int| 0 <= i < rq.len() implies player_listed(init.1, (#[trigger] rq[i]).player)
                && claim_blocked(stage, init.1, rq[i]) by {
                assert(rq[i] == requests@[requests@.len() - 1 - i]);
                assert(find_player(old(players)@, requests@[requests@.len() - 1 - i].player) >= 0);
                lemma_find_bounds(old(players)@, rq[i].player);
                assert(old(players)@[find_player(old(players)@, rq[i].player)].id == rq[i].player);
            }
            lemma_blocked_claims_change_nothing(stage, now, init, d, d.len());
            if touched@.len() > 0 {
                assert(touched@.to_set().contains(touched@[0]));
            }
        }
    }
    (notices, touched)
}

// ---------------------------------------------------------------------------
// laws of claiming
// ---------------------------------------------------------------------------

proof fn lemma_claim_step_keeps_board(stage: AreaAttack, now: u64, s: ClaimState, d: Map<Position, bool>)
    ensures
        claim_step(stage, now, s, d).0.dom() == s.0.dom(),
        forall|p: Position| s.0.contains_key(p) && s.0[p] == ServerTile::Destroyed
            ==> #[trigger] claim_step(stage, now, s, d).0[p] == ServerTile::Destroyed,
{
    let (m, ps, q, out, written) = s;
    let t = claim_step(stage, now, s, d);
    if q.len() > 0 {
        let rt = q[0];
        let p = rt.position;
        let i = find_player(ps, rt.player);
        let st = ps[i];
        if !(st.frozen.is_some() || st.killed || !reveals_in(stage) || !m.contains_key(p)) {
            match m[p] {
                ServerTile::Empty => {
                    assert(t.0.dom() =~= m.dom());
                },
                ServerTile::Mine => {
                    if stage is Attack {
                        let md = attack_disk(m, p, d);
                        assert(md.dom() =~= m.dom());
                        assert(rim_clear(md, p).dom() =~= m.dom());
                        assert(t.0.dom() =~= m.dom());
                    } else {
                        assert(t.0.dom() =~= m.dom());
                    }
                },
                _ => {},
            }
        }
    }
}

/// Claiming never adds or removes a tile of the board, and a destroyed tile stays destroyed:
/// whatever the draws, any number of steps leaves the same tiles, and each tile that was
/// destroyed is destroyed still.
pub proof fn lemma_claim_keeps_board(stage: AreaAttack, now: u64, s: ClaimState, draws: Seq<Map<Position, bool>>, n: nat)
    ensures
        claim_steps(stage, now, s, draws, n).0.dom() == s.0.dom(),
        forall|p: Position| s.0.contains_key(p) && s.0[p] == ServerTile::Destroyed
            ==> #[trigger] claim_steps(stage, now, s, draws, n).0[p] == ServerTile::Destroyed,
    decreases n,
{
    if n > 0 {
        lemma_claim_step_keeps_board(stage, now, s, draws[0]);
        let t = claim_step(stage, now, s, draws[0]);
        lemma_claim_keeps_board(stage, now, t, draws.drop_first(), (n - 1) as nat);
        assert forall|p: Position| s.0.contains_key(p) && s.0[p] == ServerTile::Destroyed
            implies #[trigger] claim_steps(stage, now, s, draws, n).0[p] == ServerTile::Destroyed by {
            assert(t.0[p] == ServerTile::Destroyed);
        }
    }
}

/// The first waiting request is from a player who is neither frozen nor killed, and names a
/// tile of the board that holds a mine.
pub open spec fn claims_mine(t: ClaimState) -> bool {
    let (m, ps, q, _, _) = t;
    &&& q.len() > 0
    &&& ps[find_player(ps, q[0].player)].frozen is None
    &&& !ps[find_player(ps, q[0].player)].killed
    &&& m.contains_key(q[0].position)
    &&& m[q[0].position] == ServerTile::Mine
}

/// In the attack stage a claimed mine ends destroyed: whatever the draws, if the request
/// handled at any step of a run claims a mine, that tile is destroyed once the run is over.
pub proof fn lemma_attack_mine_destroyed(now: u64, s: ClaimState, draws: Seq<Map<Position, bool>>, n: nat, k: nat)
    requires
        k < n,
        claims_mine(claim_steps(AreaAttack::Attack, now, s, draws, k)),
    ensures
        ({
            let p = claim_steps(AreaAttack::Attack, now, s, draws, k).2[0].position;
            claim_steps(AreaAttack::Attack, now, s, draws, n).0[p] == ServerTile::Destroyed
        }),
    decreases k,
{
    let t = claim_step(AreaAttack::Attack, now, s, draws[0]);
    if k == 0 {
        let p = s.2[0].position;
        assert(t.0.contains_key(p) && t.0[p] == ServerTile::Destroyed);
        lemma_claim_keeps_board(AreaAttack::Attack, now, t, draws.drop_first(), (n - 1) as nat);
    } else {
        assert(claim_steps(AreaAttack::Attack, now, s, draws, k)
            == claim_steps(AreaAttack::Attack, now, t, draws.drop_first(), (k - 1) as nat));
        lemma_attack_mine_destroyed(now, t, draws.drop_first(), (n - 1) as nat, (k - 1) as nat);
    }
}

/// A player found among the players has an entry that the lookup finds.
proof fn lemma_find_found(ps: Seq<PlayerStatus>, id: PlayerId)
    requires
        exists|k: int| 0 <= k < ps.len() && (#[trigger] ps[k]).id == id,
    ensures
        0 <= find_player(ps, id) < ps.len(),
        ps[find_player(ps, id)].id == id,
    decreases ps.len(),
{
    lemma_find_bounds(ps, id);
    let k = choose|k: int| 0 <= k < ps.len() && (#[trigger] ps[k]).id == id;
    if k < ps.len() - 1 {
        assert(ps.drop_last()[k].id == id);
        lemma_find_found(ps.drop_last(), id);
    }
}

/// Some entry of the players has the identifier `id`.
pub open spec fn player_listed(ps: Seq<PlayerStatus>, id: PlayerId) -> bool {
    exists|k: int| 0 <= k < ps.len() && (#[trigger] ps[k]).id == id
}

/// The first waiting request may not claim: its player is killed or frozen (every entry of
/// that player says so), or the stage allows no claims.
pub open spec fn claim_blocked(stage: AreaAttack, ps: Seq<PlayerStatus>, rt: RevealTile) -> bool {
    ||| forall|k: int| 0 <= k < ps.len() && (#[trigger] ps[k]).id == rt.player ==> ps[k].killed || ps[k].frozen is Some
    ||| stage is Selecting || stage is Finishing || stage is Inactive
}

/// A killed or frozen player claims nothing, and nothing is claimed while the game is
/// selecting, finishing or inactive: such a request leaves the board, the players, the notices
/// and the written tiles as they were, and is only taken off the queue.
pub proof fn lemma_blocked_claim_dropped(stage: AreaAttack, now: u64, s: ClaimState, draws: Map<Position, bool>)
    requires
        s.2.len() > 0,
        player_listed(s.1, s.2[0].player),
        claim_blocked(stage, s.1, s.2[0]),
    ensures
        claim_step(stage, now, s, draws) == (s.0, s.1, s.2.drop_first(), s.3, s.4),
{
    lemma_find_found(s.1, s.2[0].player);
}

/// Over a whole run, requests that may not claim change nothing: if every waiting request is
/// from a killed or frozen player, or the stage allows no claims, any number of steps leaves
/// the board, the players, the notices and the written tiles as they were.
pub proof fn lemma_blocked_claims_change_nothing(stage: AreaAttack, now: u64, s: ClaimState, draws: Seq<Map<Position, bool>>, n: nat)
    requires
        forall|i: int| 0 <= i < s.2.len() ==> player_listed(s.1, (#[trigger] s.2[i]).player) && claim_blocked(stage, s.1, s.2[i]),
    ensures
        ({
            let t = claim_steps(stage, now, s, draws, n);
            t.0 == s.0 && t.1 == s.1 && t.3 == s.3 && t.4 == s.4
        }),
    decreases n,
{
    if n > 0 {
        if s.2.len() > 0 {
            assert(player_listed(s.1, s.2[0].player) && claim_blocked(stage, s.1, s.2[0]));
            lemma_blocked_claim_dropped(stage, now, s, draws[0]);
        }
        let t = claim_step(stage, now, s, draws[0]);
        assert forall|i: int| 0 <= i < t.2.len() implies player_listed(t.1, (#[trigger] t.2[i]).player) && claim_blocked(stage, t.1, t.2[i]) by {
            assert(t.2[i] == s.2[i + 1]);
        }
        lemma_blocked_claims_change_nothing(stage, now, t, draws.drop_first(), (n - 1) as nat);
    }
}

} // verus!
