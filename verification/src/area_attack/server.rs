//! The server's side of Area Attack: what each client is shown, and the decisions the server
//! takes on requests, on joining players and as time passes.

use vstd::prelude::*;
use crate::area_attack::{
    board_neighbors, count_minish, AreaAttack, AreaAttackRequest, AreaAttackUpdate, Board, ClientTile,
    PlayerColor, PlayerId, PlayerStatus, RevealTile, ServerTile,
};
use crate::shape::FieldShape;
use crate::minefield::Minefield;
use crate::position::Position;

verus! {

/// What a player is shown of a tile: unclaimed tiles and hidden mines look alike, and of a
/// claimed tile only its owner learns how many neighbouring tiles hold mines.
pub open spec fn client_tile_spec(m: Board, p: Position, viewer: PlayerId) -> ClientTile {
    match m[p] {
        ServerTile::Empty | ServerTile::Mine => ClientTile::Unknown,
        ServerTile::Owned { player } => ClientTile::Owned {
            player,
            num_neighbors: if viewer == player { count_minish(m, board_neighbors(m, p)) as u8 } else { 0 },
        },
        ServerTile::HardMine => ClientTile::Mine,
        ServerTile::Destroyed => ClientTile::Destroyed,
    }
}

/// The tile at `p` as `viewer` is to be shown it.
pub fn client_tile(field: &Minefield<ServerTile>, p: Position, viewer: PlayerId) -> (t: ClientTile)
    requires
        field.wf(),
        field.tile(p).is_some(),
    ensures
        t == client_tile_spec(field.view(), p, viewer),
{
    match field.get(p).unwrap() {
        ServerTile::Empty | ServerTile::Mine => ClientTile::Unknown,
        ServerTile::Owned { player } => {
            let n = if viewer == player { crate::area_attack::count_neighbor_mines(field, p) } else { 0 };
            ClientTile::Owned { player, num_neighbors: n }
        },
        ServerTile::HardMine => ClientTile::Mine,
        ServerTile::Destroyed => ClientTile::Destroyed,
    }
}

/// What a player is shown of a tile never tells a hidden mine from an empty tile: the two
/// look the same to every player.
pub proof fn lemma_hidden_mines(m: Board, p: Position, viewer: PlayerId)
    ensures
        client_tile_spec(m.insert(p, ServerTile::Mine), p, viewer) == client_tile_spec(m.insert(p, ServerTile::Empty), p, viewer),
        client_tile_spec(m.insert(p, ServerTile::Mine), p, viewer) == ClientTile::Unknown,
{
}

/// Only the owner of a claimed tile learns how many mines surround it; everyone else is shown
/// zero.
pub proof fn lemma_numbers_private(m: Board, p: Position, owner: PlayerId, viewer: PlayerId)
    requires
        m.contains_key(p),
        m[p] == (ServerTile::Owned { player: owner }),
        viewer != owner,
    ensures
        client_tile_spec(m, p, viewer) == (ClientTile::Owned { player: owner, num_neighbors: 0 }),
{
}

/// The positions of `s` in order, each only where it first occurs.
pub open spec fn first_occurrences(s: Seq<Position>) -> Seq<Position>
    decreases s.len(),
{
    if s.len() == 0 {
        seq![]
    } else {
        let rest = first_occurrences(s.drop_last());
        if s.drop_last().contains(s.last()) { rest } else { rest.push(s.last()) }
    }
}

/// The messages telling each peer the new state of the tile at `p`.
pub open spec fn tile_update_for_peers(m: Board, p: Position, peers: Seq<PlayerId>) -> Seq<(PlayerId, AreaAttackUpdate)> {
    Seq::new(peers.len(), |k: int| (peers[k], AreaAttackUpdate::TileChanged { position: p, to: client_tile_spec(m, p, peers[k]) }))
}

/// The messages telling the peers the new states of the tiles among `ps`, tile by tile.
pub open spec fn tile_updates(m: Board, ps: Seq<Position>, peers: Seq<PlayerId>) -> Seq<(PlayerId, AreaAttackUpdate)>
    decreases ps.len(),
{
    if ps.len() == 0 {
        seq![]
    } else {
        tile_updates(m, ps.drop_last(), peers) + if m.contains_key(ps.last()) {
            tile_update_for_peers(m, ps.last(), peers)
        } else {
            seq![]
        }
    }
}

/// Every message that tells the peers of changed tiles shows its recipient the state of one
/// tile of the board as that recipient is to see it: an empty tile and a hidden mine alike as
/// unknown, a revealed mine as a mine and a destroyed tile as destroyed.
pub proof fn lemma_tile_messages_hide_mines(m: Board, ps: Seq<Position>, peers: Seq<PlayerId>)
    ensures
        forall|i: int| 0 <= i < tile_updates(m, ps, peers).len() ==> ({
            let msg = #[trigger] tile_updates(m, ps, peers)[i];
            msg.1 matches AreaAttackUpdate::TileChanged { position, to } && m.contains_key(position) && {
                &&& to == client_tile_spec(m, position, msg.0)
                &&& (m[position] == ServerTile::Empty || m[position] == ServerTile::Mine) ==> to == ClientTile::Unknown
                &&& m[position] == ServerTile::HardMine ==> to == ClientTile::Mine
                &&& m[position] == ServerTile::Destroyed ==> to == ClientTile::Destroyed
            }
        }),
    decreases ps.len(),
{
    if ps.len() > 0 {
        lemma_tile_messages_hide_mines(m, ps.drop_last(), peers);
        let pre = tile_updates(m, ps.drop_last(), peers);
        let all = tile_updates(m, ps, peers);
        assert forall|i: int| 0 <= i < all.len() implies ({
            let msg = #[trigger] all[i];
            msg.1 matches AreaAttackUpdate::TileChanged { position, to } && m.contains_key(position) && {
                &&& to == client_tile_spec(m, position, msg.0)
                &&& (m[position] == ServerTile::Empty || m[position] == ServerTile::Mine) ==> to == ClientTile::Unknown
                &&& m[position] == ServerTile::HardMine ==> to == ClientTile::Mine
                &&& m[position] == ServerTile::Destroyed ==> to == ClientTile::Destroyed
            }
        }) by {
            if i < pre.len() {
                assert(all[i] == pre[i]);
            } else {
                assert(all[i] == tile_update_for_peers(m, ps.last(), peers)[i - pre.len()]);
            }
        }
    }
}

proof fn lemma_first_occurrences(s: Seq<Position>)
    ensures
        forall|x: Position| #[trigger] first_occurrences(s).contains(x) <==> s.contains(x),
    decreases s.len(),
{
    if s.len() > 0 {
        let r = first_occurrences(s.drop_last());
        lemma_first_occurrences(s.drop_last());
        assert forall|x: Position| #[trigger] first_occurrences(s).contains(x) <==> s.contains(x) by {
            if s.contains(x) && x != s.last() {
                let t = choose|t: int| 0 <= t < s.len() && s[t] == x;
                assert(s.drop_last()[t] == x);
            }
            if s.drop_last().contains(x) {
                let t = choose|t: int| 0 <= t < s.drop_last().len() && s.drop_last()[t] == x;
                assert(s[t] == x);
            }
            if x == s.last() {
                assert(s[s.len() - 1] == x);
            }
            if first_occurrences(s).contains(x) && !r.contains(x) {
                let t = choose|t: int| 0 <= t < first_occurrences(s).len() && first_occurrences(s)[t] == x;
                if t < r.len() {
                    assert(r[t] == x);
                }
            }
            if r.contains(x) {
                let t = choose|t: int| 0 <= t < r.len() && r[t] == x;
                assert(first_occurrences(s)[t] == x);
            }
            if !s.drop_last().contains(s.last()) && x == s.last() {
                assert(first_occurrences(s)[first_occurrences(s).len() - 1] == x);
            }
        }
    }
}

/// The messages that tell every peer the new state of each changed tile; a tile listed more
/// than once is told once, in the place it first appears.
pub fn send_tiles(field: &Minefield<ServerTile>, changed: &Vec<Position>, peers: &Vec<PlayerId>) -> (r: Vec<(PlayerId, AreaAttackUpdate)>)
    requires
        field.wf(),
    ensures
        r@ == tile_updates(field.view(), first_occurrences(changed@), peers@),
{
    let mut r: Vec<(PlayerId, AreaAttackUpdate)> = Vec::new();
    let mut seen: Vec<Position> = Vec::new();
    let mut i: usize = 0;
    while i < changed.len()
        invariant
            field.wf(),
            i <= changed.len(),
            seen@ == first_occurrences(changed@.take(i as int)),
            r@ == tile_updates(field.view(), seen@, peers@),
        decreases changed.len() - i,
    {
        let p = changed[i];
        proof {
            assert(changed@.take(i + 1).drop_last() =~= changed@.take(i as int));
            assert(changed@.take(i + 1).last() == p);
            lemma_first_occurrences(changed@.take(i as int));
        }
        if !crate::shape::contains_position(&seen, p) {
            let ghost before = r@;
            let ghost seen0 = seen@;
            seen.push(p);
            if field.get(p).is_some() {
                let mut k: usize = 0;
                while k < peers.len()
                    invariant
                        field.wf(),
                        field.tile(p).is_some(),
                        k <= peers.len(),
                        r@ == before + tile_update_for_peers(field.view(), p, peers@).take(k as int),
                    decreases peers.len() - k,
                {
                    let t = client_tile(field, p, peers[k]);
                    r.push((peers[k], AreaAttackUpdate::TileChanged { position: p, to: t }));
                    proof {
                        assert(tile_update_for_peers(field.view(), p, peers@).take(k + 1)
                            =~= tile_update_for_peers(field.view(), p, peers@).take(k as int).push(
                                (peers@[k as int], AreaAttackUpdate::TileChanged { position: p, to: t })));
                    }
                    k = k + 1;
                }
                proof {
                    assert(tile_update_for_peers(field.view(), p, peers@).take(k as int) =~= tile_update_for_peers(field.view(), p, peers@));
                    assert(seen@.drop_last() =~= seen0);
                }
            } else {
                proof {
                    assert(seen@.drop_last() =~= seen0);
                    assert(r@ =~= before + seq![]);
                }
            }
        }
        i = i + 1;
    }
    proof {
        assert(changed@.take(i as int) =~= changed@);
    }
    r
}

/// How long a player stays frozen, in nanoseconds.
pub const FREEZE_DURATION_NS: u64 = 5_000_000_000;

/// The player as it is after frozen players whose freeze has lasted longer than
/// [`FREEZE_DURATION_NS`] at time `now` are thawed.
pub open spec fn thawed(st: PlayerStatus, now: u64) -> PlayerStatus {
    match st.frozen {
        Some(start) => if now - start > FREEZE_DURATION_NS { PlayerStatus { frozen: None, ..st } } else { st },
        None => st,
    }
}

/// Thaws the players whose freeze has run out by time `now`.
pub fn unfreeze_players(players: &mut Vec<PlayerStatus>, now: u64)
    requires
        forall|i: int| 0 <= i < old(players).len() ==> match #[trigger] old(players)[i].frozen {
            Some(start) => start <= now,
            None => true,
        },
    ensures
        final(players).len() == old(players).len(),
        forall|i: int| 0 <= i < final(players).len() ==> #[trigger] final(players)[i] == thawed(old(players)[i], now),
{
    let mut i: usize = 0;
    while i < players.len()
        invariant
            i <= players.len(),
            players.len() == old(players).len(),
            forall|j: int| 0 <= j < players.len() ==> match #[trigger] old(players)[j].frozen {
                Some(start) => start <= now,
                None => true,
            },
            forall|j: int| 0 <= j < i ==> #[trigger] players[j] == thawed(old(players)[j], now),
            forall|j: int| i <= j < players.len() ==> #[trigger] players[j] == old(players)[j],
        decreases players.len() - i,
    {
        let st = players[i];
        proof { assert(st == old(players)[i as int]); }
        match st.frozen {
            Some(start) => {
                if now - start > FREEZE_DURATION_NS {
                    players.set(i, PlayerStatus { id: st.id, frozen: None, killed: st.killed });
                }
            },
            None => {},
        }
        i = i + 1;
    }
}

/// Once the game has begun, a request to reveal a tile in the first, the attack or the lock
/// stage becomes a claim on behalf of the player who sent it (in the lock stage a claim on a
/// mine kills the player); nothing else does.
pub fn update_tile_playing(stage: AreaAttack, player: PlayerId, request: AreaAttackRequest) -> (r: Option<RevealTile>)
    ensures
        r == match request {
            AreaAttackRequest::Reveal(position) => if stage is Stage1 || stage is Attack || stage is Lock {
                Some(RevealTile { position, player })
            } else {
                None
            },
            _ => None,
        },
{
    match request {
        AreaAttackRequest::Reveal(position) => {
            if matches!(stage, AreaAttack::Stage1 | AreaAttack::Attack | AreaAttack::Lock) {
                Some(RevealTile { position, player })
            } else {
                None
            }
        },
        _ => None,
    }
}

/// The players a new position of `player` is forwarded to: every peer but the player itself.
pub open spec fn others(peers: Seq<PlayerId>, player: PlayerId) -> Seq<PlayerId>
    decreases peers.len(),
{
    if peers.len() == 0 {
        seq![]
    } else {
        let rest = others(peers.drop_last(), player);
        if peers.last() == player { rest } else { rest.push(peers.last()) }
    }
}

/// The messages that forward a new cursor position of `player` to the other peers.
pub fn broadcast_positions(peers: &Vec<PlayerId>, player: PlayerId, position: Position) -> (r: Vec<(PlayerId, AreaAttackUpdate)>)
    ensures
        r@ == others(peers@, player).map_values(|id: PlayerId| (id, AreaAttackUpdate::Reposition { id: player, position })),
{
    let mut r: Vec<(PlayerId, AreaAttackUpdate)> = Vec::new();
    let mut i: usize = 0;
    while i < peers.len()
        invariant
            i <= peers.len(),
            r@ == others(peers@.take(i as int), player).map_values(|id: PlayerId| (id, AreaAttackUpdate::Reposition { id: player, position })),
        decreases peers.len() - i,
    {
        proof {
            assert(peers@.take(i + 1).drop_last() =~= peers@.take(i as int));
        }
        if peers[i] != player {
            r.push((peers[i], AreaAttackUpdate::Reposition { id: player, position }));
        }
        proof {
            assert(r@ =~= others(peers@.take(i + 1), player).map_values(|id: PlayerId| (id, AreaAttackUpdate::Reposition { id: player, position })));
        }
        i = i + 1;
    }
    proof {
        assert(peers@.take(i as int) =~= peers@);
    }
    r
}

// ---------------------------------------------------------------------------
// selecting the starting tiles
// ---------------------------------------------------------------------------

/// No two entries belong to the same player.
pub open spec fn owners_unique(s: Seq<(PlayerId, Position)>) -> bool {
    forall|i: int, j: int| 0 <= i < j < s.len() ==> #[trigger] s[i].0 != #[trigger] s[j].0
}

/// The entries as a map from players to positions.
pub open spec fn selection_map(s: Seq<(PlayerId, Position)>) -> Map<PlayerId, Position>
    decreases s.len(),
{
    if s.len() == 0 {
        Map::empty()
    } else {
        selection_map(s.drop_last()).insert(s.last().0, s.last().1)
    }
}

proof fn lemma_selection_map(s: Seq<(PlayerId, Position)>)
    requires
        owners_unique(s),
    ensures
        forall|k: PlayerId| #[trigger] selection_map(s).contains_key(k) <==> exists|i: int| 0 <= i < s.len() && s[i].0 == k,
        forall|i: int| 0 <= i < s.len() ==> selection_map(s)[#[trigger] s[i].0] == s[i].1,
    decreases s.len(),
{
    if s.len() > 0 {
        let d = s.drop_last();
        assert(owners_unique(d)) by {
            assert forall|i: int, j: int| 0 <= i < j < d.len() implies #[trigger] d[i].0 != #[trigger] d[j].0 by {
                assert(s[i].0 != s[j].0);
            }
        }
        lemma_selection_map(d);
        assert forall|k: PlayerId| #[trigger] selection_map(s).contains_key(k) <==> exists|i: int| 0 <= i < s.len() && s[i].0 == k by {
            if selection_map(d).contains_key(k) {
                let i = choose|i: int| 0 <= i < d.len() && d[i].0 == k;
                assert(s[i].0 == k);
            }
            if exists|i: int| 0 <= i < s.len() && s[i].0 == k {
                let i = choose|i: int| 0 <= i < s.len() && s[i].0 == k;
                if i < s.len() - 1 {
                    assert(d[i].0 == k);
                }
            }
        }
        assert forall|i: int| 0 <= i < s.len() implies selection_map(s)[#[trigger] s[i].0] == s[i].1 by {
            if i < s.len() - 1 {
                assert(s[i].0 != s[s.len() - 1].0);
                assert(d[i] == s[i]);
            }
        }
    }
}

proof fn lemma_selection_update(s: Seq<(PlayerId, Position)>, i: int, v: Position)
    requires
        owners_unique(s),
        0 <= i < s.len(),
    ensures
        owners_unique(s.update(i, (s[i].0, v))),
        selection_map(s.update(i, (s[i].0, v))) == selection_map(s).insert(s[i].0, v),
    decreases s.len(),
{
    let u = s.update(i, (s[i].0, v));
    assert(owners_unique(u)) by {
        assert forall|a: int, b: int| 0 <= a < b < u.len() implies #[trigger] u[a].0 != #[trigger] u[b].0 by {
            assert(s[a].0 != s[b].0);
        }
    }
    let d = s.drop_last();
    if i == s.len() - 1 {
        assert(u.drop_last() =~= d);
        assert(selection_map(u) =~= selection_map(s).insert(s[i].0, v));
    } else {
        assert(owners_unique(d)) by {
            assert forall|a: int, b: int| 0 <= a < b < d.len() implies #[trigger] d[a].0 != #[trigger] d[b].0 by {
                assert(s[a].0 != s[b].0);
            }
        }
        assert(u.drop_last() =~= d.update(i, (d[i].0, v)));
        lemma_selection_update(d, i, v);
        assert(s.last().0 != s[i].0);
        assert(selection_map(u) =~= selection_map(s).insert(s[i].0, v));
    }
}

/// The tiles the players have selected to begin on, at most one for each player.
pub struct InitialSelections {
    entries: Vec<(PlayerId, Position)>,
}

impl InitialSelections {
    /// The selections in the order they were first made.
    pub closed spec fn entries(&self) -> Seq<(PlayerId, Position)> {
        self.entries@
    }

    pub open spec fn view(&self) -> Map<PlayerId, Position> {
        selection_map(self.entries())
    }

    pub open spec fn wf(&self) -> bool {
        owners_unique(self.entries())
    }

    /// No selections yet.
    pub fn new() -> (r: InitialSelections)
        ensures
            r.wf(),
            r.entries() == Seq::<(PlayerId, Position)>::empty(),
    {
        InitialSelections { entries: Vec::new() }
    }

    /// The selections in the order they were first made.
    pub fn pairs(&self) -> (r: Vec<(PlayerId, Position)>)
        ensures
            r@ == self.entries(),
    {
        let mut r: Vec<(PlayerId, Position)> = Vec::new();
        let mut i: usize = 0;
        while i < self.entries.len()
            invariant
                i <= self.entries.len(),
                r@ == self.entries@.take(i as int),
            decreases self.entries.len() - i,
        {
            r.push(self.entries[i]);
            proof { assert(self.entries@.take(i + 1) =~= self.entries@.take(i as int).push(self.entries@[i as int])); }
            i = i + 1;
        }
        proof { assert(self.entries@.take(i as int) =~= self.entries@); }
        r
    }

    /// The tile selected by `player`, if any.
    pub fn get(&self, player: PlayerId) -> (r: Option<Position>)
        requires
            self.wf(),
        ensures
            r == (if self.view().contains_key(player) { Some(self.view()[player]) } else { None }),
    {
        proof { lemma_selection_map(self.entries@); }
        let mut i: usize = 0;
        while i < self.entries.len()
            invariant
                owners_unique(self.entries@),
                i <= self.entries.len(),
                forall|j: int| 0 <= j < i ==> #[trigger] self.entries@[j].0 != player,
            decreases self.entries.len() - i,
        {
            if self.entries[i].0 == player {
                proof {
                    lemma_selection_map(self.entries@);
                    assert(self.entries@[i as int].0 == player);
                    assert(selection_map(self.entries@)[self.entries@[i as int].0] == self.entries@[i as int].1);
                    assert(selection_map(self.entries@).contains_key(player));
                }
                return Some(self.entries[i].1);
            }
            i = i + 1;
        }
        None
    }

    /// Selects `position` for `player`, in place of its earlier selection if it had one.
    pub fn insert(&mut self, player: PlayerId, position: Position)
        requires
            old(self).wf(),
        ensures
            final(self).wf(),
            final(self).view() == old(self).view().insert(player, position),
    {
        proof { lemma_selection_map(self.entries@); }
        let mut i: usize = 0;
        while i < self.entries.len()
            invariant
                owners_unique(self.entries@),
                self.entries@ == old(self).entries@,
                i <= self.entries.len(),
                forall|j: int| 0 <= j < i ==> #[trigger] self.entries@[j].0 != player,
            decreases self.entries.len() - i,
        {
            if self.entries[i].0 == player {
                proof { lemma_selection_update(self.entries@, i as int, position); }
                self.entries.set(i, (player, position));
                return;
            }
            i = i + 1;
        }
        let ghost before = self.entries@;
        self.entries.push((player, position));
        proof {
            assert(self.entries@.drop_last() =~= before);
            assert forall|a: int, b: int| 0 <= a < b < self.entries@.len() implies #[trigger] self.entries@[a].0 != #[trigger] self.entries@[b].0 by {
                if b == before.len() {
                    assert(before[a].0 != player);
                } else {
                    assert(before[a].0 != before[b].0);
                }
            }
        }
    }
}

/// Two positions closer to each other than ten tiles.
pub open spec fn near(a: Position, b: Position) -> bool {
    crate::position::sq(a.x - b.x) + crate::position::sq(a.y - b.y) < 100
}

/// Whether `a` and `b` are closer to each other than ten tiles.
pub fn within_ten(a: Position, b: Position) -> (r: bool)
    ensures
        r == near(a, b),
{
    let dx: i128 = a.x as i128 - b.x as i128;
    let dy: i128 = a.y as i128 - b.y as i128;
    if dx <= -10 || dx >= 10 || dy <= -10 || dy >= 10 {
        proof {
            assert(dx * dx >= 0 && dy * dy >= 0) by (nonlinear_arith);
            assert(dx <= -10 || dx >= 10 ==> dx * dx >= 100) by (nonlinear_arith);
            assert(dy <= -10 || dy >= 10 ==> dy * dy >= 100) by (nonlinear_arith);
        }
        false
    } else {
        proof {
            assert(0 <= dx * dx <= 100 && 0 <= dy * dy <= 100) by (nonlinear_arith)
                requires -10 < dx < 10, -10 < dy < 10;
        }
        dx * dx + dy * dy < 100
    }
}

/// Another player's selection lies within ten tiles of `requested`.
pub open spec fn blocked(s: Seq<(PlayerId, Position)>, player: PlayerId, requested: Position) -> bool {
    exists|i: int| 0 <= i < s.len() && #[trigger] s[i].0 != player && near(s[i].1, requested)
}

/// A request to reveal `requested` while players select their starting tiles: it becomes the
/// player's selection unless another player's selection lies within ten tiles of it. The
/// returned messages, for every peer, hide the player's earlier selection and show the new one.
pub fn update_selecting_tile(
    stage: AreaAttack,
    selections: &mut InitialSelections,
    player: PlayerId,
    requested: Position,
) -> (r: Vec<AreaAttackUpdate>)
    requires
        old(selections).wf(),
    ensures
        final(selections).wf(),
        if stage is Selecting && !blocked(old(selections).entries(), player, requested) {
            &&& final(selections).view() == old(selections).view().insert(player, requested)
            &&& r@ == (if old(selections).view().contains_key(player) {
                    seq![AreaAttackUpdate::TileChanged { position: old(selections).view()[player], to: ClientTile::Unknown }]
                } else {
                    seq![]
                }) + seq![AreaAttackUpdate::TileChanged { position: requested, to: ClientTile::Owned { player, num_neighbors: 0 } }]
        } else {
            &&& final(selections).entries() == old(selections).entries()
            &&& r@ == Seq::<AreaAttackUpdate>::empty()
        },
{
    let mut r: Vec<AreaAttackUpdate> = Vec::new();
    if stage != AreaAttack::Selecting {
        return r;
    }
    let mut i: usize = 0;
    while i < selections.entries.len()
        invariant
            i <= selections.entries.len(),
            selections.wf(),
            selections.entries() == old(selections).entries(),
            r@ == Seq::<AreaAttackUpdate>::empty(),
            forall|j: int| 0 <= j < i ==> !(#[trigger] selections.entries@[j].0 != player && near(selections.entries@[j].1, requested)),
        decreases selections.entries.len() - i,
    {
        let (owner, pos) = selections.entries[i];
        if owner != player && within_ten(pos, requested) {
            proof {
                assert(selections.entries@[i as int].0 != player && near(selections.entries@[i as int].1, requested));
                assert(blocked(old(selections).entries(), player, requested));
            }
            return r;
        }
        i = i + 1;
    }
    match selections.get(player) {
        Some(previous) => {
            r.push(AreaAttackUpdate::TileChanged { position: previous, to: ClientTile::Unknown });
        },
        None => {},
    }
    r.push(AreaAttackUpdate::TileChanged { position: requested, to: ClientTile::Owned { player, num_neighbors: 0 } });
    selections.insert(player, requested);
    r
}

/// No two players' selections lie within ten tiles of each other.
pub open spec fn spread(m: Map<PlayerId, Position>) -> bool {
    forall|a: PlayerId, b: PlayerId| m.contains_key(a) && m.contains_key(b) && a != b ==> !near(#[trigger] m[a], #[trigger] m[b])
}

/// The starting tiles of different players always lie at least ten tiles apart: a selection
/// that is not blocked keeps them so.
pub proof fn lemma_selections_apart(before: Seq<(PlayerId, Position)>, player: PlayerId, requested: Position)
    requires
        owners_unique(before),
        spread(selection_map(before)),
        !blocked(before, player, requested),
    ensures
        spread(selection_map(before).insert(player, requested)),
{
    lemma_selection_map(before);
    let m = selection_map(before);
    let m2 = m.insert(player, requested);
    assert forall|a: PlayerId, b: PlayerId| m2.contains_key(a) && m2.contains_key(b) && a != b
        implies !near(#[trigger] m2[a], #[trigger] m2[b]) by {
        if a == player {
            let i = choose|i: int| 0 <= i < before.len() && before[i].0 == b;
            assert(m[before[i].0] == before[i].1);
            lemma_near_symmetric(before[i].1, requested);
        } else if b == player {
            let i = choose|i: int| 0 <= i < before.len() && before[i].0 == a;
            assert(m[before[i].0] == before[i].1);
        }
    }
}

proof fn lemma_near_symmetric(a: Position, b: Position)
    ensures
        near(a, b) == near(b, a),
{
    let dx = a.x - b.x;
    let dy = a.y - b.y;
    assert(dx * dx == (-dx) * (-dx)) by (nonlinear_arith);
    assert(dy * dy == (-dy) * (-dy)) by (nonlinear_arith);
}

/// The tiles that are kept free of mines when the game begins: each selected tile and its
/// neighbours.
pub open spec fn group_cover(s: Seq<(PlayerId, Position)>) -> Set<Position> {
    Set::new(|q: Position| exists|i: int| 0 <= i < s.len() && (q == s[i].1 || crate::position::adjacent(s[i].1, q)))
}

/// A claim on each selected tile for the player who selected it.
pub open spec fn selection_requests(s: Seq<(PlayerId, Position)>) -> Seq<RevealTile> {
    Seq::new(s.len(), |i: int| RevealTile { position: s[i].1, player: s[i].0 })
}

/// Every player in `peers`, in order, told that the game has entered `stage`.
pub open spec fn stage_notices(peers: Seq<PlayerId>, stage: AreaAttack) -> Seq<(PlayerId, AreaAttackUpdate)> {
    Seq::new(peers.len(), |i: int| (peers[i], AreaAttackUpdate::Transition(stage)))
}

/// The messages that tell each player in `peers` that the game has entered `stage`.
pub fn announce_stage(peers: &Vec<PlayerId>, stage: AreaAttack) -> (v: Vec<(PlayerId, AreaAttackUpdate)>)
    ensures
        v@ == stage_notices(peers@, stage),
{
    let mut v: Vec<(PlayerId, AreaAttackUpdate)> = Vec::new();
    let mut i: usize = 0;
    while i < peers.len()
        invariant
            i <= peers.len(),
            v@ == stage_notices(peers@, stage).take(i as int),
        decreases peers.len() - i,
    {
        v.push((peers[i], AreaAttackUpdate::Transition(stage)));
        proof {
            assert(stage_notices(peers@, stage).take(i + 1)
                =~= stage_notices(peers@, stage).take(i as int).push((peers@[i as int], AreaAttackUpdate::Transition(stage))));
        }
        i = i + 1;
    }
    proof { assert(stage_notices(peers@, stage).take(i as int) =~= stage_notices(peers@, stage)); }
    v
}

/// The host's request to begin the game, while players select their tiles: the game enters
/// the first stage and closes to joining players, its clock starts, mines are laid away from
/// the selected tiles and their neighbours, and a claim on each selected tile is returned
/// together with the notices that tell every player of the first stage. From anyone else, or
/// at another time, the request changes nothing.
pub fn initial_transition(
    state: &mut AreaAttack,
    is_host: bool,
    field: &mut Minefield<ServerTile>,
    selections: &InitialSelections,
    access: &mut crate::lobby::Access,
    timer: &mut StageTimer,
    peers: &Vec<PlayerId>,
) -> (r: Option<(Vec<RevealTile>, Vec<(PlayerId, AreaAttackUpdate)>)>)
    requires
        old(field).wf(),
        old(field).tile_count() * 8 <= usize::MAX,
    ensures
        final(field).wf(),
        final(field).width() == old(field).width(),
        final(field).height() == old(field).height(),
        if is_host && *old(state) == AreaAttack::Selecting {
            &&& *final(state) == AreaAttack::Stage1
            &&& r matches Some((v, notices)) && v@ == selection_requests(selections.entries())
                && notices@ == stage_notices(peers@, AreaAttack::Stage1)
            &&& exists|mines: Seq<Position>| #[trigger] crate::minefield::mines_laid(*old(field), *final(field), mines,
                    group_cover(selections.entries()), ServerTile::Mine)
            &&& *final(access) == crate::lobby::Access::Ingame
            &&& !final(timer).paused()
            &&& final(timer).previous() == old(timer).previous()
            &&& final(timer).elapsed() == old(timer).elapsed()
            &&& final(timer).finished() == old(timer).finished()
            &&& final(timer).finished_now() == old(timer).finished_now()
            &&& final(timer).length() == old(timer).length()
        } else {
            &&& *final(state) == *old(state)
            &&& *final(field) == *old(field)
            &&& *final(access) == *old(access)
            &&& *final(timer) == *old(timer)
            &&& r is None
        },
{
    if !is_host || *state != AreaAttack::Selecting {
        return None;
    }
    *state = AreaAttack::Stage1;
    let s = &selections.entries;
    let mut ignore: Vec<Position> = Vec::new();
    let mut i: usize = 0;
    while i < s.len()
        invariant
            i <= s.len(),
            forall|q: Position| #[trigger] ignore@.contains(q) <==>
                exists|j: int| 0 <= j < i && (q == s@[j].1 || crate::position::adjacent(s@[j].1, q)),
        decreases s.len() - i,
    {
        let center = s[i].1;
        let group = crate::position::group_vec_to_vec(&center.local_group());
        proof { crate::position::lemma_neighbors_adjacent(center); }
        let ghost before = ignore@;
        proof {
            assert(group@ == crate::position::spec_neighbors(center).push(center));
        }
        let mut k: usize = 0;
        while k < group.len()
            invariant
                k <= group.len(),
                ignore@ == before + group@.take(k as int),
            decreases group.len() - k,
        {
            ignore.push(group[k]);
            proof { assert(group@.take(k + 1) =~= group@.take(k as int).push(group@[k as int])); }
            k = k + 1;
        }
        proof {
            assert(group@.take(k as int) =~= group@);
            assert(s@[i as int].1 == center);
            assert forall|q: Position| #[trigger] group@.contains(q) <==> (q == center || crate::position::adjacent(center, q)) by {
                if group@.contains(q) && q != center {
                    let t = choose|t: int| 0 <= t < group@.len() && group@[t] == q;
                    assert(crate::position::spec_neighbors(center)[t] == q);
                    assert(crate::position::spec_neighbors(center).contains(q));
                }
                if q == center {
                    assert(group@[group@.len() - 1] == q);
                } else if crate::position::adjacent(center, q) {
                    assert(crate::position::spec_neighbors(center).contains(q));
                    let t = choose|t: int| 0 <= t < crate::position::spec_neighbors(center).len()
                        && crate::position::spec_neighbors(center)[t] == q;
                    assert(group@[t] == q);
                }
            }
            assert forall|q: Position| #[trigger] ignore@.contains(q) <==>
                exists|j: int| 0 <= j < i + 1 && (q == s@[j].1 || crate::position::adjacent(s@[j].1, q)) by {
                if ignore@.contains(q) {
                    let t = choose|t: int| 0 <= t < ignore@.len() && ignore@[t] == q;
                    if t < before.len() {
                        assert(before[t] == q);
                        assert(before.contains(q));
                    } else {
                        assert(group@[t - before.len()] == q);
                        assert(group@.contains(q));
                        assert(q == s@[i as int].1 || crate::position::adjacent(s@[i as int].1, q));
                    }
                }
                if exists|j: int| 0 <= j < i + 1 && (q == s@[j].1 || crate::position::adjacent(s@[j].1, q)) {
                    let j = choose|j: int| 0 <= j < i + 1 && (q == s@[j].1 || crate::position::adjacent(s@[j].1, q));
                    if j < i {
                        assert(before.contains(q));
                        let t = choose|t: int| 0 <= t < before.len() && before[t] == q;
                        assert(ignore@[t] == q);
                    } else {
                        assert(j == i);
                        assert(q == center || crate::position::adjacent(center, q));
                        assert(group@.contains(q));
                        let t = choose|t: int| 0 <= t < group@.len() && group@[t] == q;
                        assert(ignore@[before.len() + t] == q);
                    }
                }
            }
        }
        i = i + 1;
    }
    let ghost f0 = *field;
    crate::minefield::choose_multiple(field, &ignore, ServerTile::Mine);
    proof {
        assert(ignore@.to_set() =~= group_cover(s@));
        let mines = choose|m: Seq<Position>| #[trigger] crate::minefield::mines_laid(f0, *field, m, ignore@.to_set(), ServerTile::Mine);
        assert(crate::minefield::mines_laid(f0, *field, mines, group_cover(selections.entries()), ServerTile::Mine));
    }
    let mut requests: Vec<RevealTile> = Vec::new();
    let mut j: usize = 0;
    while j < s.len()
        invariant
            j <= s.len(),
            requests@ == selection_requests(s@).take(j as int),
        decreases s.len() - j,
    {
        requests.push(RevealTile { position: s[j].1, player: s[j].0 });
        proof { assert(selection_requests(s@).take(j + 1) =~= selection_requests(s@).take(j as int).push(RevealTile { position: s@[j as int].1, player: s@[j as int].0 })); }
        j = j + 1;
    }
    proof { assert(selection_requests(s@).take(j as int) =~= selection_requests(s@)); }
    timer.unpause();
    let notices = announce_stage(peers, AreaAttack::Stage1);
    *access = crate::lobby::Access::Ingame;
    Some((requests, notices))
}

// ---------------------------------------------------------------------------
// joining players
// ---------------------------------------------------------------------------

/// What the server knows of a player already in the game.
#[derive(Clone, Debug)]
pub struct PeerInfo {
    pub id: PlayerId,
    pub username: String,
    pub color: PlayerColor,
    pub position: Position,
}

/// What becomes of a player who joins: whether the game is full, the colour and position it
/// is given if it is let in, and the messages to send, each with its recipient.
#[derive(Debug)]
pub struct JoinOutcome {
    pub full: bool,
    pub admitted: Option<(PlayerColor, Position)>,
    pub messages: Vec<(PlayerId, AreaAttackUpdate)>,
}

/// The peers other than `player`, in order.
pub open spec fn other_peers(ps: Seq<PeerInfo>, player: PlayerId) -> Seq<PeerInfo>
    decreases ps.len(),
{
    if ps.len() == 0 {
        seq![]
    } else {
        let rest = other_peers(ps.drop_last(), player);
        if ps.last().id == player { rest } else { rest.push(ps.last()) }
    }
}

/// Some peer other than `player` has colour `c`.
pub open spec fn color_taken(ps: Seq<PeerInfo>, player: PlayerId, c: PlayerColor) -> bool {
    exists|i: int| 0 <= i < other_peers(ps, player).len() && #[trigger] other_peers(ps, player)[i].color == c
}

/// The first colour, in the order yellow, green, blue, purple, that no other peer has.
pub open spec fn first_free_color(ps: Seq<PeerInfo>, player: PlayerId) -> PlayerColor {
    if !color_taken(ps, player, PlayerColor::Yellow) {
        PlayerColor::Yellow
    } else if !color_taken(ps, player, PlayerColor::Green) {
        PlayerColor::Green
    } else if !color_taken(ps, player, PlayerColor::Blue) {
        PlayerColor::Blue
    } else {
        PlayerColor::Purple
    }
}

/// `m` tells `to` the properties of player `id`.
pub open spec fn shows_properties(
    m: (PlayerId, AreaAttackUpdate),
    to: PlayerId,
    id: PlayerId,
    name: Seq<char>,
    color: PlayerColor,
    position: Position,
) -> bool {
    &&& m.0 == to
    &&& m.1 matches AreaAttackUpdate::PlayerProperties { id: i, username, color: c, position: q }
    &&& i == id && username@ == name && c == color && q == position
}

/// The first tile of the board in row order.
pub open spec fn is_first_tile(field: Minefield<ServerTile>, p: Position) -> bool {
    &&& field.tile(p).is_some()
    &&& forall|q: Position| #[trigger] field.tile(q).is_some() ==> p.y < q.y || (p.y == q.y && p.x <= q.x)
}

proof fn lemma_other_peers(ps: Seq<PeerInfo>, player: PlayerId)
    ensures
        other_peers(ps, player).len() <= ps.len(),
        forall|i: int| 0 <= i < other_peers(ps, player).len() ==> #[trigger] other_peers(ps, player)[i].id != player,
    decreases ps.len(),
{
    if ps.len() > 0 {
        lemma_other_peers(ps.drop_last(), player);
    }
}

/// How many peers other than `player` there are.
fn count_others(peers: &Vec<PeerInfo>, player: PlayerId) -> (n: usize)
    ensures
        n == other_peers(peers@, player).len(),
{
    let mut n: usize = 0;
    let mut i: usize = 0;
    while i < peers.len()
        invariant
            i <= peers.len(),
            n == other_peers(peers@.take(i as int), player).len(),
            n <= i,
        decreases peers.len() - i,
    {
        proof {
            assert(peers@.take(i + 1).drop_last() =~= peers@.take(i as int));
            assert(peers@.take(i + 1).last() == peers@[i as int]);
        }
        if peers[i].id != player {
            n = n + 1;
        }
        i = i + 1;
    }
    proof { assert(peers@.take(i as int) =~= peers@); }
    n
}

/// With fewer than four other players, some colour is free.
proof fn lemma_free_color(ps: Seq<PeerInfo>, player: PlayerId)
    requires
        other_peers(ps, player).len() < 4,
    ensures
        !color_taken(ps, player, first_free_color(ps, player)),
{
    let o = other_peers(ps, player);
    if color_taken(ps, player, PlayerColor::Yellow) && color_taken(ps, player, PlayerColor::Green)
        && color_taken(ps, player, PlayerColor::Blue) && color_taken(ps, player, PlayerColor::Purple) {
        let a = choose|t: int| 0 <= t < o.len() && #[trigger] o[t].color == PlayerColor::Yellow;
        let b = choose|t: int| 0 <= t < o.len() && #[trigger] o[t].color == PlayerColor::Green;
        let c = choose|t: int| 0 <= t < o.len() && #[trigger] o[t].color == PlayerColor::Blue;
        let d = choose|t: int| 0 <= t < o.len() && #[trigger] o[t].color == PlayerColor::Purple;
        assert(a != b && a != c && a != d && b != c && b != d && c != d);
        assert(false);
    }
}

/// Brings `player` into the game. A game holds the player and at most four others: a player
/// who joins a game with four others already in it is told that the game is full, and nothing
/// else happens. Otherwise the player is given the first colour no other player has and the
/// first tile of the board (the shapes name no centre), and is sent the board's shape and the
/// properties of each other player; each other player is sent the new player's properties;
/// last, the player is told its own colour and position.
pub fn prepare_player(
    player: PlayerId,
    username: &String,
    peers: &Vec<PeerInfo>,
    shape: &FieldShape,
    field: &Minefield<ServerTile>,
) -> (r: JoinOutcome)
    requires
        field.wf(),
        exists|q: Position| #[trigger] field.tile(q).is_some(),
    ensures
        ({
            let o = other_peers(peers@, player);
            let n = o.len() as int;
            &&& r.full == (n >= 4)
            &&& n >= 4 ==> r.admitted is None && r.messages@ == seq![(player, AreaAttackUpdate::Full)]
            &&& n < 4 ==> (r.admitted matches Some((color, position)) && {
                &&& color == first_free_color(peers@, player)
                &&& !color_taken(peers@, player, color)
                &&& is_first_tile(*field, position)
                &&& r.messages@.len() == 2 * n + 2
                &&& r.messages@[0].0 == player
                &&& r.messages@[0].1 matches AreaAttackUpdate::FieldShape(sh) && sh.codes() == shape.codes()
                &&& forall|k: int| 0 <= k < n ==> #[trigger] shows_properties(r.messages@[1 + k], player, o[k].id,
                        o[k].username@, o[k].color, o[k].position)
                &&& forall|k: int| 0 <= k < n ==> #[trigger] shows_properties(r.messages@[1 + n + k], o[k].id, player,
                        username@, color, position)
                &&& r.messages@[2 * n + 1] == (player, AreaAttackUpdate::SelfChange { color, position })
            })
        }),
{
    let ghost o = other_peers(peers@, player);
    if count_others(peers, player) >= 4 {
        let mut full: Vec<(PlayerId, AreaAttackUpdate)> = Vec::new();
        full.push((player, AreaAttackUpdate::Full));
        proof { assert(full@ =~= seq![(player, AreaAttackUpdate::Full)]); }
        return JoinOutcome { full: true, admitted: None, messages: full };
    }
    proof { lemma_free_color(peers@, player); }
    let mut messages: Vec<(PlayerId, AreaAttackUpdate)> = Vec::new();
    messages.push((player, AreaAttackUpdate::FieldShape(shape.duplicate())));
    let mut taken_yellow = false;
    let mut taken_green = false;
    let mut taken_blue = false;
    let mut taken_purple = false;
    let mut count: usize = 0;
    let mut i: usize = 0;
    while i < peers.len()
        invariant
            i <= peers.len(),
            count == other_peers(peers@.take(i as int), player).len(),
            count <= i,
            messages@.len() == 1 + count,
            messages@[0].0 == player,
            messages@[0].1 matches AreaAttackUpdate::FieldShape(sh) && sh.codes() == shape.codes(),
            forall|k: int| 0 <= k < count ==> #[trigger] shows_properties(messages@[1 + k], player,
                other_peers(peers@.take(i as int), player)[k].id, other_peers(peers@.take(i as int), player)[k].username@,
                other_peers(peers@.take(i as int), player)[k].color, other_peers(peers@.take(i as int), player)[k].position),
            taken_yellow == color_taken(peers@.take(i as int), player, PlayerColor::Yellow),
            taken_green == color_taken(peers@.take(i as int), player, PlayerColor::Green),
            taken_blue == color_taken(peers@.take(i as int), player, PlayerColor::Blue),
            taken_purple == color_taken(peers@.take(i as int), player, PlayerColor::Purple),
        decreases peers.len() - i,
    {
        let ghost before = other_peers(peers@.take(i as int), player);
        let ghost msgs0 = messages@;
        proof {
            assert(peers@.take(i + 1).drop_last() =~= peers@.take(i as int));
            assert(peers@.take(i + 1).last() == peers@[i as int]);
        }
        let peer = &peers[i];
        if peer.id != player {
            messages.push((player, AreaAttackUpdate::PlayerProperties {
                id: peer.id,
                username: peer.username.clone(),
                color: peer.color,
                position: peer.position,
            }));
            match peer.color {
                PlayerColor::Yellow => { taken_yellow = true; },
                PlayerColor::Green => { taken_green = true; },
                PlayerColor::Blue => { taken_blue = true; },
                PlayerColor::Purple => { taken_purple = true; },
            }
            count = count + 1;
            proof {
                let after = other_peers(peers@.take(i + 1), player);
                assert(after == before.push(peers@[i as int]));
                assert forall|k: int| 0 <= k < count implies #[trigger] shows_properties(messages@[1 + k], player,
                    after[k].id, after[k].username@, after[k].color, after[k].position) by {
                    if k < count - 1 {
                        assert(messages@[1 + k] == msgs0[1 + k]);
                        assert(after[k] == before[k]);
                    }
                }
                assert forall|c: PlayerColor| #[trigger] color_taken(peers@.take(i + 1), player, c)
                    == (color_taken(peers@.take(i as int), player, c) || peers@[i as int].color == c) by {
                    if color_taken(peers@.take(i as int), player, c) {
                        let t = choose|t: int| 0 <= t < before.len() && #[trigger] before[t].color == c;
                        assert(after[t] == before[t]);
                    }
                    if peers@[i as int].color == c {
                        assert(after[after.len() - 1].color == c);
                    }
                    if color_taken(peers@.take(i + 1), player, c) {
                        let t = choose|t: int| 0 <= t < after.len() && #[trigger] after[t].color == c;
                        if t < before.len() {
                            assert(before[t] == after[t]);
                        }
                    }
                }
                assert(color_taken(peers@.take(i + 1), player, PlayerColor::Yellow) == (color_taken(peers@.take(i as int), player, PlayerColor::Yellow) || peers@[i as int].color == PlayerColor::Yellow));
                assert(color_taken(peers@.take(i + 1), player, PlayerColor::Green) == (color_taken(peers@.take(i as int), player, PlayerColor::Green) || peers@[i as int].color == PlayerColor::Green));
                assert(color_taken(peers@.take(i + 1), player, PlayerColor::Blue) == (color_taken(peers@.take(i as int), player, PlayerColor::Blue) || peers@[i as int].color == PlayerColor::Blue));
                assert(color_taken(peers@.take(i + 1), player, PlayerColor::Purple) == (color_taken(peers@.take(i as int), player, PlayerColor::Purple) || peers@[i as int].color == PlayerColor::Purple));
            }
        } else {
            proof {
                let after = other_peers(peers@.take(i + 1), player);
                assert(after == before);
                assert forall|c: PlayerColor| #[trigger] color_taken(peers@.take(i + 1), player, c)
                    == color_taken(peers@.take(i as int), player, c) by {}
            }
        }
        i = i + 1;
    }
    proof {
        assert(peers@.take(i as int) =~= peers@);
        lemma_other_peers(peers@, player);
    }
    let color = if !taken_yellow {
        PlayerColor::Yellow
    } else if !taken_green {
        PlayerColor::Green
    } else if !taken_blue {
        PlayerColor::Blue
    } else {
        PlayerColor::Purple
    };
    let first = field.first_position();
    let position = match first {
        Some(p) => p,
        None => {
            proof {
                let q = choose|q: Position| #[trigger] field.tile(q).is_some();
                assert(field.tile(q).is_some());
                assert(!field.tile(q).is_none());
                assert(false);
            }
            Position::zero()
        },
    };
    proof { assert(is_first_tile(*field, position)); }
    let ghost mid = messages@;
    let mut j: usize = 0;
    let mut k: usize = 0;
    while j < peers.len()
        invariant
            j <= peers.len(),
            k == other_peers(peers@.take(j as int), player).len(),
            count == o.len(),
            o == other_peers(peers@, player),
            messages@.len() == 1 + count + k,
            messages@.take(1 + count as int) == mid,
            forall|t: int| 0 <= t < k ==> #[trigger] shows_properties(messages@[1 + count + t], o[t].id, player,
                username@, color, position),
            forall|t: int| 0 <= t < k ==> o[t] == #[trigger] other_peers(peers@.take(j as int), player)[t],
            k <= count,
        decreases peers.len() - j,
    {
        proof {
            assert(peers@.take(j + 1).drop_last() =~= peers@.take(j as int));
            assert(peers@.take(j + 1).last() == peers@[j as int]);
            lemma_other_prefix(peers@, player, j + 1);
        }
        let ghost msgs0 = messages@;
        let peer_id = peers[j].id;
        if peer_id != player {
            messages.push((peer_id, AreaAttackUpdate::PlayerProperties {
                id: player,
                username: username.clone(),
                color,
                position,
            }));
            proof {
                let after = other_peers(peers@.take(j + 1), player);
                assert(after[k as int] == peers@[j as int]);
                assert(o[k as int] == after[k as int]);
                assert(messages@.take(1 + count as int) =~= msgs0.take(1 + count as int));
                assert forall|t: int| 0 <= t < k + 1 implies #[trigger] shows_properties(messages@[1 + count + t], o[t].id, player,
                    username@, color, position) by {
                    if t < k {
                        assert(messages@[1 + count + t] == msgs0[1 + count + t]);
                    }
                }
                assert forall|t: int| 0 <= t < k + 1 implies o[t] == #[trigger] other_peers(peers@.take(j + 1), player)[t] by {
                    if t < k {
                        assert(after[t] == other_peers(peers@.take(j as int), player)[t]);
                    }
                }
            }
            k = k + 1;
        }
        j = j + 1;
    }
    proof {
        assert(peers@.take(j as int) =~= peers@);
    }
    messages.push((player, AreaAttackUpdate::SelfChange { color, position }));
    proof {
        assert forall|t: int| 0 <= t < count implies #[trigger] shows_properties(messages@[1 + t], player, o[t].id,
            o[t].username@, o[t].color, o[t].position) by {
            assert(messages@[1 + t] == mid[1 + t]);
        }
        assert(messages@[0] == mid[0]);
    }
    JoinOutcome { full: false, admitted: Some((color, position)), messages }
}

/// Where a prefix of the peers ends, the other peers found so far are a prefix of all of them.
proof fn lemma_other_prefix(ps: Seq<PeerInfo>, player: PlayerId, j: int)
    requires
        0 <= j <= ps.len(),
    ensures
        other_peers(ps.take(j), player).len() <= other_peers(ps, player).len(),
        forall|t: int| 0 <= t < other_peers(ps.take(j), player).len() ==>
            #[trigger] other_peers(ps.take(j), player)[t] == other_peers(ps, player)[t],
    decreases ps.len() - j,
{
    if j < ps.len() {
        lemma_other_prefix(ps, player, j + 1);
        assert(ps.take(j + 1).drop_last() =~= ps.take(j));
        assert(ps.take(j + 1).last() == ps[j]);
        let x = other_peers(ps.take(j), player);
        assert(other_peers(ps.take(j + 1), player) == if ps[j].id == player { x } else { x.push(ps[j]) });
        assert forall|t: int| 0 <= t < x.len() implies #[trigger] x[t] == other_peers(ps, player)[t] by {
            assert(other_peers(ps.take(j + 1), player)[t] == x[t]);
        }
    } else {
        assert(ps.take(j) =~= ps);
    }
}

// ---------------------------------------------------------------------------
// stages
// ---------------------------------------------------------------------------

#[verifier::external_type_specification]
#[verifier::external_body]
pub struct ExTimer(bevy_time::Timer);

/// What a one-shot bevy_time timer holds, in nanoseconds: its length, the time it has run,
/// whether it is paused, whether it has finished, and whether it finished in its last tick.
#[derive(Clone, Copy)]
pub struct TimerState {
    pub length_ns: u64,
    pub elapsed_ns: u64,
    pub paused: bool,
    pub finished: bool,
    pub just_finished: bool,
}

/// A one-shot bevy_time timer together with a model of its state. Only the wrappers below,
/// each of which makes one call on the timer, change either.
pub struct Clock {
    timer: bevy_time::Timer,
    state: Ghost<TimerState>,
}

impl Clock {
    pub closed spec fn state(&self) -> TimerState {
        self.state@
    }
}

/// The state of a one-shot timer after a tick of `delta_ns` nanoseconds: a paused or finished
/// timer keeps its time and did not finish in this tick; a running one advances, and finishes
/// (stopping at its length) once it reaches its length.
pub open spec fn timer_after_tick(t: TimerState, delta_ns: int) -> TimerState {
    if t.paused || t.finished {
        TimerState { just_finished: false, ..t }
    } else if t.elapsed_ns + delta_ns >= t.length_ns {
        TimerState { elapsed_ns: t.length_ns, finished: true, just_finished: true, ..t }
    } else {
        TimerState { elapsed_ns: (t.elapsed_ns + delta_ns) as u64, finished: false, just_finished: false, ..t }
    }
}

/// A one-shot timer of `length_ns` nanoseconds (`bevy_time::Timer::new` with
/// `TimerMode::Once`): it starts at zero, running and unfinished.
#[verifier::external_body]
fn timer_new(length_ns: u64) -> (c: Clock)
    ensures
        c.state() == (TimerState { length_ns, elapsed_ns: 0, paused: false, finished: false, just_finished: false }),
{
    Clock {
        timer: bevy_time::Timer::new(std::time::Duration::from_nanos(length_ns), bevy_time::TimerMode::Once),
        state: Ghost(TimerState { length_ns, elapsed_ns: 0, paused: false, finished: false, just_finished: false }),
    }
}

/// Pauses the timer (`bevy_time::Timer::pause`, which sets the stopwatch's paused flag and
/// nothing else).
#[verifier::external_body]
fn timer_pause(c: &mut Clock)
    ensures
        final(c).state() == (TimerState { paused: true, ..old(c).state() }),
{
    c.timer.pause()
}

/// Resumes the timer (`bevy_time::Timer::unpause`, which clears the stopwatch's paused flag
/// and nothing else).
#[verifier::external_body]
fn timer_unpause(c: &mut Clock)
    ensures
        final(c).state() == (TimerState { paused: false, ..old(c).state() }),
{
    c.timer.unpause()
}

/// Advances the timer by `delta_ns` nanoseconds (`bevy_time::Timer::tick` in `Once` mode): see
/// [`timer_after_tick`].
#[verifier::external_body]
fn timer_tick(c: &mut Clock, delta_ns: u64)
    ensures
        final(c).state() == timer_after_tick(old(c).state(), delta_ns as int),
{
    c.timer.tick(std::time::Duration::from_nanos(delta_ns));
}

/// The time the timer has run, in nanoseconds (`bevy_time::Timer::elapsed`).
#[verifier::external_body]
fn timer_elapsed_ns(c: &Clock) -> (r: u64)
    ensures
        r == c.state().elapsed_ns,
{
    c.timer.elapsed().as_nanos() as u64
}

/// Whether the timer finished during its last tick (`bevy_time::Timer::just_finished`).
#[verifier::external_body]
fn timer_just_finished(c: &Clock) -> (r: bool)
    ensures
        r == c.state().just_finished,
{
    c.timer.just_finished()
}

/// When the attack stage begins, in nanoseconds after the first stage began.
pub const ATTACK_AT_NS: u64 = 180_000_000_000;
/// When the lock stage begins.
pub const LOCK_AT_NS: u64 = 360_000_000_000;
/// How long a game runs.
pub const GAME_LENGTH_NS: u64 = 420_000_000_000;

/// The clock of a game's stages: a timer of the whole game's length, together with the time
/// it showed before its last tick.
pub struct StageTimer {
    previous_ns: u64,
    clock: Clock,
}

impl StageTimer {
    /// The time the clock showed before its last tick.
    pub closed spec fn previous(&self) -> u64 {
        self.previous_ns
    }

    /// The time the clock shows.
    pub closed spec fn elapsed(&self) -> u64 {
        self.clock.state().elapsed_ns
    }

    /// Whether the clock finished in its last tick.
    pub closed spec fn finished_now(&self) -> bool {
        self.clock.state().just_finished
    }

    /// Whether the clock has run its full length.
    pub closed spec fn finished(&self) -> bool {
        self.clock.state().finished
    }

    /// Whether the clock is paused.
    pub closed spec fn paused(&self) -> bool {
        self.clock.state().paused
    }

    /// The length of the clock.
    pub closed spec fn length(&self) -> u64 {
        self.clock.state().length_ns
    }

    /// Advances the clock by `delta_ns` nanoseconds, remembering the time it showed before.
    pub fn tick(&mut self, delta_ns: u64)
        ensures
            ticked(*old(self), *final(self), delta_ns as int),
    {
        let before = timer_elapsed_ns(&self.clock);
        timer_tick(&mut self.clock, delta_ns);
        self.previous_ns = before;
    }

    /// Whether the last tick passed the moment `duration_ns`.
    pub fn has_just_elapsed(&self, duration_ns: u64) -> (r: bool)
        ensures
            r == (self.previous() < duration_ns && duration_ns < self.elapsed()),
    {
        self.previous_ns < duration_ns && duration_ns < timer_elapsed_ns(&self.clock)
    }

    /// Whether the clock finished in the last tick.
    pub fn just_finished(&self) -> (r: bool)
        ensures
            r == self.finished_now(),
    {
        timer_just_finished(&self.clock)
    }

    /// Stops the clock; its readings stay as they are.
    pub fn pause(&mut self)
        ensures
            final(self).paused(),
            final(self).previous() == old(self).previous(),
            final(self).elapsed() == old(self).elapsed(),
            final(self).finished() == old(self).finished(),
            final(self).finished_now() == old(self).finished_now(),
            final(self).length() == old(self).length(),
    {
        timer_pause(&mut self.clock)
    }

    /// Resumes the clock; its readings stay as they are.
    pub fn unpause(&mut self)
        ensures
            !final(self).paused(),
            final(self).previous() == old(self).previous(),
            final(self).elapsed() == old(self).elapsed(),
            final(self).finished() == old(self).finished(),
            final(self).finished_now() == old(self).finished_now(),
            final(self).length() == old(self).length(),
    {
        timer_unpause(&mut self.clock)
    }
}

/// `after` is the clock `before` advanced by `delta_ns`: the earlier reading becomes the time
/// `before` showed; a paused or finished clock keeps its time and did not finish in this tick;
/// a running one advances by `delta_ns`, stopping at its length, and finishes in this tick
/// exactly when it reaches its length. Its length and whether it is paused stay as they were.
pub open spec fn ticked(before: StageTimer, after: StageTimer, delta_ns: int) -> bool {
    &&& after.previous() == before.elapsed()
    &&& after.length() == before.length()
    &&& after.paused() == before.paused()
    &&& (before.paused() || before.finished()) ==> {
        &&& after.elapsed() == before.elapsed()
        &&& after.finished() == before.finished()
        &&& !after.finished_now()
    }
    &&& !(before.paused() || before.finished()) ==> {
        &&& after.elapsed() == if before.elapsed() + delta_ns >= before.length() { before.length() as int } else { before.elapsed() + delta_ns }
        &&& after.finished() == (before.elapsed() + delta_ns >= before.length())
        &&& after.finished_now() == (before.elapsed() + delta_ns >= before.length())
    }
}

impl Default for StageTimer {
    /// A paused clock of the length of a game, at zero.
    fn default() -> (r: StageTimer)
        ensures
            r.previous() == 0,
            r.elapsed() == 0,
            r.length() == GAME_LENGTH_NS,
            !r.finished(),
            !r.finished_now(),
            r.paused(),
    {
        let mut clock = timer_new(GAME_LENGTH_NS);
        timer_pause(&mut clock);
        StageTimer { previous_ns: 0, clock }
    }
}

/// The stage a game enters after a tick of its clock, if it changes: the game is over when
/// the clock finishes, the lock stage begins when it passes six minutes and the attack stage
/// when it passes three.
pub open spec fn stage_after(previous: u64, elapsed: u64, finished: bool) -> Option<AreaAttack> {
    if finished {
        Some(AreaAttack::Finishing)
    } else if previous < LOCK_AT_NS && LOCK_AT_NS < elapsed {
        Some(AreaAttack::Lock)
    } else if previous < ATTACK_AT_NS && ATTACK_AT_NS < elapsed {
        Some(AreaAttack::Attack)
    } else {
        None
    }
}

/// Advances a game's clock by `delta_ns` and moves the game into the stage it has reached, if
/// that changes; the new stage is returned, to be announced to the players.
pub fn stage_transitions(stage: &mut AreaAttack, timer: &mut StageTimer, delta_ns: u64) -> (r: Option<AreaAttack>)
    ensures
        ticked(*old(timer), *final(timer), delta_ns as int),
        r == stage_after(final(timer).previous(), final(timer).elapsed(), final(timer).finished_now()),
        *final(stage) == match r {
            Some(s) => s,
            None => *old(stage),
        },
{
    timer.tick(delta_ns);
    let next = if timer.just_finished() {
        Some(AreaAttack::Finishing)
    } else if timer.has_just_elapsed(LOCK_AT_NS) {
        Some(AreaAttack::Lock)
    } else if timer.has_just_elapsed(ATTACK_AT_NS) {
        Some(AreaAttack::Attack)
    } else {
        None
    };
    match next {
        Some(s) => { *stage = s; },
        None => {},
    }
    next
}

// ---------------------------------------------------------------------------
// new games
// ---------------------------------------------------------------------------

/// What a new game of Area Attack holds: its board, all tiles empty, the shape it was made
/// from, the players' selections, its stage, and its clock.
pub struct AreaAttackBundle {
    pub field: Minefield<ServerTile>,
    pub template: FieldShape,
    pub selections: InitialSelections,
    pub state: AreaAttack,
    pub stage_timer: StageTimer,
}

impl AreaAttackBundle {
    /// A new game on the shape `template`, in the selecting stage, with no selections and its
    /// clock paused at zero. None where the shape cannot be laid out on this machine.
    pub fn new(template: &FieldShape) -> (r: Option<AreaAttackBundle>)
        ensures
            r.is_some() <==> (crate::shape::shape_size(template.codes()) <= isize::MAX
                && crate::minefield::positions_fit(crate::shape::decoded(template.codes()))),
            r matches Some(b) ==> {
                &&& b.field.wf()
                &&& forall|p: Position| #[trigger] b.field.tile(p)
                    == (if crate::shape::decoded(template.codes()).contains(p) { Some(ServerTile::Empty) } else { None })
                &&& b.template.codes() == template.codes()
                &&& b.selections.wf()
                &&& b.selections.entries() == Seq::<(PlayerId, Position)>::empty()
                &&& b.state == AreaAttack::Selecting
                &&& b.stage_timer.elapsed() == 0
                &&& b.stage_timer.previous() == 0
                &&& !b.stage_timer.finished_now()
                &&& b.stage_timer.paused()
                &&& b.stage_timer.length() == GAME_LENGTH_NS
                &&& !b.stage_timer.finished()
            },
    {
        match Minefield::from_shape(template, ServerTile::Empty) {
            Some(field) => Some(AreaAttackBundle {
                field,
                template: template.duplicate(),
                selections: InitialSelections::new(),
                state: AreaAttack::Selecting,
                stage_timer: StageTimer::default(),
            }),
            None => None,
        }
    }
}

/// Sets up a game on a shape drawn at random among the loaded ones. None exactly where the
/// drawn shape cannot be laid out on this machine, so a game is owed whenever every loaded
/// shape fits.
pub fn create_game(shapes: &Vec<FieldShape>) -> (r: Option<AreaAttackBundle>)
    requires
        shapes.len() > 0,
    ensures
        exists|k: int| 0 <= k < shapes.len() && {
            &&& (r.is_some() <==> crate::minefield::shape_fits(#[trigger] shapes@[k]))
            &&& (r matches Some(b) ==> b.template.codes() == shapes@[k].codes())
        },
        (forall|k: int| 0 <= k < shapes.len() ==> crate::minefield::shape_fits(#[trigger] shapes@[k])) ==> r.is_some(),
        r matches Some(b) ==> {
            &&& b.state == AreaAttack::Selecting
            &&& b.field.wf()
            &&& b.selections.wf()
            &&& b.selections.entries() == Seq::<(PlayerId, Position)>::empty()
            &&& forall|p: Position| #[trigger] b.field.tile(p)
                == (if crate::shape::decoded(b.template.codes()).contains(p) { Some(ServerTile::Empty) } else { None })
            &&& b.stage_timer.previous() == 0
            &&& b.stage_timer.elapsed() == 0
            &&& !b.stage_timer.finished_now()
            &&& b.stage_timer.paused()
            &&& b.stage_timer.length() == GAME_LENGTH_NS
            &&& !b.stage_timer.finished()
        },
{
    let template = crate::shape::take_one(shapes);
    let ghost k = choose|k: int| 0 <= k < shapes@.len() && shapes@[k] == *template;
    let r = AreaAttackBundle::new(template);
    proof {
        assert(shapes@[k] == *template);
        assert(r.is_some() <==> crate::minefield::shape_fits(shapes@[k]));
    }
    r
}

} // verus!
