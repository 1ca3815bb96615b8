//! The client's side of Area Attack: the requests a player's keys produce, flags, how tiles are
//! drawn, and how the messages of the server change what the client shows.

use vstd::prelude::*;
use crate::area_attack::{AreaAttack, AreaAttackRequest, AreaAttackUpdate, ClientTile, PlayerColor, PlayerId};
use crate::minefield::{lemma_neighbor_tiles, Minefield};
use crate::position::Position;
use crate::shape::{decoded, shape_size, FieldShape};
use crate::area_attack::Board;
use crate::area_attack::server::{client_tile_spec, tile_update_for_peers, tile_updates};

verus! {

proof fn lemma_push_contains<A>(s: Seq<A>, x: A, y: A)
    ensures
        s.push(x).contains(y) <==> (s.contains(y) || x == y),
{
    if s.push(x).contains(y) && x != y {
        let t = choose|t: int| 0 <= t < s.push(x).len() && s.push(x)[t] == y;
        assert(s[t] == y);
    }
    if s.contains(y) {
        let t = choose|t: int| 0 <= t < s.len() && s[t] == y;
        assert(s.push(x)[t] == y);
    }
    if x == y {
        assert(s.push(x)[s.len() as int] == y);
    }
}

/// Flags and revealed mines: the tiles a player counts against a number.
pub open spec fn is_marked(t: ClientTile) -> bool {
    t is Flag || t is Mine
}

/// How many of the positions hold a flag or a revealed mine.
pub open spec fn count_marked(f: Minefield<ClientTile>, s: Seq<Position>) -> int
    decreases s.len(),
{
    if s.len() == 0 {
        0
    } else {
        count_marked(f, s.drop_last()) + if is_marked(f.tile(s.last()).unwrap()) { 1int } else { 0 }
    }
}

/// Requests to reveal each of the positions that holds no flag, in order.
pub open spec fn chord_requests(f: Minefield<ClientTile>, s: Seq<Position>) -> Seq<AreaAttackRequest>
    decreases s.len(),
{
    if s.len() == 0 {
        seq![]
    } else {
        let rest = chord_requests(f, s.drop_last());
        if f.tile(s.last()).unwrap() is Flag { rest } else { rest.push(AreaAttackRequest::Reveal(s.last())) }
    }
}

/// The requests a press of the check key on `position` sends: an unknown tile is asked for;
/// on one of the player's own numbered tiles (one not owned by a puppet, that is, another
/// player) whose number equals the flags and mines around it, every neighbour without a flag
/// is asked for; nothing else is asked.
pub open spec fn check_requests(f: Minefield<ClientTile>, position: Position, puppets: Seq<PlayerId>) -> Seq<AreaAttackRequest> {
    match f.tile(position).unwrap() {
        ClientTile::Unknown => seq![AreaAttackRequest::Reveal(position)],
        ClientTile::Owned { player, num_neighbors } => {
            if !puppets.contains(player) && count_marked(f, f.neighbors_of(position)) == num_neighbors {
                chord_requests(f, f.neighbors_of(position))
            } else {
                seq![]
            }
        },
        _ => seq![],
    }
}

/// Counting marks counts the positions that hold a flag or a revealed mine.
proof fn lemma_count_marked_is_filter(f: Minefield<ClientTile>, s: Seq<Position>)
    ensures
        count_marked(f, s) == s.filter(|q: Position| f.tile(q).unwrap() is Flag || f.tile(q).unwrap() is Mine).len(),
    decreases s.len(),
{
    reveal(Seq::filter);
    if s.len() > 0 {
        lemma_count_marked_is_filter(f, s.drop_last());
    }
}

/// The chord asks for the positions without a flag, in order.
proof fn lemma_chord_requests_is_filter(f: Minefield<ClientTile>, s: Seq<Position>)
    ensures
        chord_requests(f, s) == s.filter(|q: Position| !(f.tile(q).unwrap() is Flag))
            .map_values(|q: Position| AreaAttackRequest::Reveal(q)),
    decreases s.len(),
{
    reveal(Seq::filter);
    let p = |q: Position| !(f.tile(q).unwrap() is Flag);
    let g = |q: Position| AreaAttackRequest::Reveal(q);
    if s.len() > 0 {
        lemma_chord_requests_is_filter(f, s.drop_last());
        assert(s.drop_last().filter(p).push(s.last()).map_values(g)
            =~= s.drop_last().filter(p).map_values(g).push(AreaAttackRequest::Reveal(s.last())));
    } else {
        assert(s.filter(p).map_values(g) =~= Seq::<AreaAttackRequest>::empty());
    }
}

/// Checking one of the player's own numbered tiles chords exactly when the number equals the
/// count of neighbouring tiles that hold a flag or a revealed mine (a revealed mine counts like
/// a flag); the chord asks, in order, for every neighbouring tile without a flag. Otherwise
/// nothing is asked.
pub proof fn lemma_check_chords_on_marks(f: Minefield<ClientTile>, position: Position, puppets: Seq<PlayerId>, player: PlayerId, num: u8)
    requires
        f.tile(position) == Some(ClientTile::Owned { player, num_neighbors: num }),
        !puppets.contains(player),
    ensures
        ({
            let ns = f.neighbors_of(position);
            let marks = ns.filter(|q: Position| f.tile(q).unwrap() is Flag || f.tile(q).unwrap() is Mine).len();
            check_requests(f, position, puppets) == if marks == num as int {
                ns.filter(|q: Position| !(f.tile(q).unwrap() is Flag)).map_values(|q: Position| AreaAttackRequest::Reveal(q))
            } else {
                Seq::<AreaAttackRequest>::empty()
            }
        }),
{
    lemma_count_marked_is_filter(f, f.neighbors_of(position));
    lemma_chord_requests_is_filter(f, f.neighbors_of(position));
}

/// Whether flags can be placed in this stage.
pub open spec fn flags_allowed(state: AreaAttack) -> bool {
    !(state is Selecting || state is Finishing || state is Inactive)
}

/// A flag placed on an unknown tile, or taken off a flagged one.
pub open spec fn toggled(t: ClientTile) -> ClientTile {
    match t {
        ClientTile::Unknown => ClientTile::Flag,
        ClientTile::Flag => ClientTile::Unknown,
        other => other,
    }
}

/// Handles the keys pressed while the cursor is on `position`. The check key produces the
/// requests of [`check_requests`]; otherwise the flag key, in a stage that allows flags,
/// places or takes off a flag there.
pub fn request_reveal(
    field: &mut Minefield<ClientTile>,
    position: Position,
    check: bool,
    flag: bool,
    state: AreaAttack,
    puppets: &Vec<PlayerId>,
) -> (r: Vec<AreaAttackRequest>)
    requires
        old(field).wf(),
        check ==> old(field).tile(position).is_some(),
    ensures
        final(field).wf(),
        final(field).width() == old(field).width(),
        final(field).height() == old(field).height(),
        check ==> r@ == check_requests(*old(field), position, puppets@) && *final(field) == *old(field),
        check ==> match old(field).tile(position) {
            Some(ClientTile::Owned { player, num_neighbors }) => !puppets@.contains(player) ==> r@ == if old(field).neighbors_of(position)
                .filter(|q: Position| old(field).tile(q).unwrap() is Flag || old(field).tile(q).unwrap() is Mine).len() == num_neighbors as int {
                old(field).neighbors_of(position).filter(|q: Position| !(old(field).tile(q).unwrap() is Flag))
                    .map_values(|q: Position| AreaAttackRequest::Reveal(q))
            } else {
                Seq::<AreaAttackRequest>::empty()
            },
            _ => true,
        },
        !check ==> r@ == Seq::<AreaAttackRequest>::empty(),
        !check ==> forall|q: Position| #[trigger] final(field).tile(q) == if flag && flags_allowed(state) && q == position {
            match old(field).tile(q) {
                Some(t) => Some(toggled(t)),
                None => None,
            }
        } else {
            old(field).tile(q)
        },
{
    proof {
        if check {
            if let Some(ClientTile::Owned { player, num_neighbors }) = old(field).tile(position) {
                if !puppets@.contains(player) {
                    lemma_check_chords_on_marks(*old(field), position, puppets@, player, num_neighbors);
                }
            }
        }
    }
    let mut r: Vec<AreaAttackRequest> = Vec::new();
    if check {
        match field.get(position).unwrap() {
            ClientTile::Unknown => {
                r.push(AreaAttackRequest::Reveal(position));
                proof { assert(r@ =~= seq![AreaAttackRequest::Reveal(position)]); }
            },
            ClientTile::Owned { player, num_neighbors } => {
                let mut is_puppet = false;
                let mut i: usize = 0;
                while i < puppets.len()
                    invariant
                        i <= puppets.len(),
                        is_puppet == puppets@.take(i as int).contains(player),
                    decreases puppets.len() - i,
                {
                    proof {
                        assert(puppets@.take(i + 1) =~= puppets@.take(i as int).push(puppets@[i as int]));
                        lemma_push_contains(puppets@.take(i as int), puppets@[i as int], player);
                    }
                    if puppets[i] == player {
                        is_puppet = true;
                    }
                    i = i + 1;
                }
                proof { assert(puppets@.take(i as int) =~= puppets@); }
                if !is_puppet {
                    let ns = field.neighbor_positions(position);
                    let cs = field.neighbor_cells(position);
                    proof { lemma_neighbor_tiles(field.cells(), field.width(), field.height(), position); }
                    let mut marked: u8 = 0;
                    let mut k: usize = 0;
                    while k < cs.len()
                        invariant
                            field.wf(),
                            k <= cs.len(),
                            cs@.len() == ns@.len(),
                            ns@ == field.neighbors_of(position),
                            ns@.len() <= 8,
                            marked <= k,
                            forall|t: int| 0 <= t < cs@.len() ==> Some(#[trigger] cs@[t]) == field.tile(ns@[t]),
                            marked == count_marked(*field, ns@.take(k as int)),
                        decreases cs.len() - k,
                    {
                        proof {
                            assert(ns@.take(k + 1).drop_last() =~= ns@.take(k as int));
                            assert(Some(cs@[k as int]) == field.tile(ns@[k as int]));
                        }
                        if matches!(cs[k], ClientTile::Flag | ClientTile::Mine) {
                            marked = marked + 1;
                        }
                        k = k + 1;
                    }
                    proof { assert(ns@.take(k as int) =~= ns@); }
                    if marked == num_neighbors {
                        let mut k: usize = 0;
                        while k < cs.len()
                            invariant
                                field.wf(),
                                k <= cs.len(),
                                cs@.len() == ns@.len(),
                                ns@ == field.neighbors_of(position),
                                forall|t: int| 0 <= t < cs@.len() ==> Some(#[trigger] cs@[t]) == field.tile(ns@[t]),
                                r@ == chord_requests(*field, ns@.take(k as int)),
                            decreases cs.len() - k,
                        {
                            proof {
                                assert(ns@.take(k + 1).drop_last() =~= ns@.take(k as int));
                                assert(Some(cs@[k as int]) == field.tile(ns@[k as int]));
                            }
                            if !matches!(cs[k], ClientTile::Flag) {
                                r.push(AreaAttackRequest::Reveal(ns[k]));
                            }
                            k = k + 1;
                        }
                        proof { assert(ns@.take(k as int) =~= ns@); }
                    }
                }
            },
            _ => {},
        }
    } else if flag && !matches!(state, AreaAttack::Selecting | AreaAttack::Finishing | AreaAttack::Inactive) {
        match field.get(position) {
            Some(ClientTile::Unknown) => { field.set(position, ClientTile::Flag); },
            Some(ClientTile::Flag) => { field.set(position, ClientTile::Unknown); },
            _ => {},
        }
    }
    r
}

/// How a tile is tinted when drawn.
#[derive(PartialEq, Eq, Clone, Copy, Debug, Structural)]
pub enum Tint {
    /// The sprite's own colours.
    Plain,
    Black,
    /// The colour of the player's own cursor.
    Own,
    /// The colour of the cursor of this other player.
    Puppet(PlayerId),
}

/// The sprite a tile is drawn with (its index in the tile sheet) and its tint: a claimed tile
/// shows its number in the colour of its owner, a flag is drawn in the player's colour, and a
/// destroyed tile is an unknown one tinted black.
pub open spec fn sprite_of(t: ClientTile, puppets: Seq<PlayerId>) -> (usize, Tint) {
    match t {
        ClientTile::Unknown => (9, Tint::Plain),
        ClientTile::Owned { player, num_neighbors } =>
            (num_neighbors as usize, if puppets.contains(player) { Tint::Puppet(player) } else { Tint::Own }),
        ClientTile::Mine => (11, Tint::Plain),
        ClientTile::Flag => (10, Tint::Own),
        ClientTile::Destroyed => (9, Tint::Black),
    }
}

/// The sprite and tint a tile is drawn with; `puppets` are the other players shown.
pub fn draw_tiles(t: ClientTile, puppets: &Vec<PlayerId>) -> (r: (usize, Tint))
    ensures
        r == sprite_of(t, puppets@),
{
    match t {
        ClientTile::Unknown => (9, Tint::Plain),
        ClientTile::Owned { player, num_neighbors } => {
            let mut i: usize = 0;
            while i < puppets.len()
                invariant
                    i <= puppets.len(),
                    t == (ClientTile::Owned { player, num_neighbors }),
                    !puppets@.take(i as int).contains(player),
                decreases puppets.len() - i,
            {
                proof {
                    assert(puppets@.take(i + 1) =~= puppets@.take(i as int).push(puppets@[i as int]));
                    lemma_push_contains(puppets@.take(i as int), puppets@[i as int], player);
                }
                if puppets[i] == player {
                    proof {
                        assert(puppets@[i as int] == player);
                        assert(puppets@.contains(player));
                    }
                    return (num_neighbors as usize, Tint::Puppet(player));
                }
                i = i + 1;
            }
            proof { assert(puppets@.take(i as int) =~= puppets@); }
            (num_neighbors as usize, Tint::Own)
        },
        ClientTile::Mine => (11, Tint::Plain),
        ClientTile::Flag => (10, Tint::Own),
        ClientTile::Destroyed => (9, Tint::Black),
    }
}

/// What a message of the server asks of the client's stage and freeze timer.
#[derive(PartialEq, Eq, Clone, Copy, Debug, Structural)]
pub enum StageChange {
    /// Move to this stage.
    Enter(AreaAttack),
    /// The player was frozen: start the freeze timer over.
    ResetFreeze,
    Nothing,
}

/// The change a message brings to the client's stage: a transition names the next stage, and
/// a freeze restarts the freeze timer.
pub fn state_transitions(update: &AreaAttackUpdate) -> (r: StageChange)
    ensures
        r == match *update {
            AreaAttackUpdate::Transition(to) => StageChange::Enter(to),
            AreaAttackUpdate::Freeze => StageChange::ResetFreeze,
            _ => StageChange::Nothing,
        },
{
    match update {
        AreaAttackUpdate::Transition(to) => StageChange::Enter(*to),
        AreaAttackUpdate::Freeze => StageChange::ResetFreeze,
        _ => StageChange::Nothing,
    }
}

/// The client's board after the tile changes among `updates`, in order.
pub open spec fn after_changes(m: Map<Position, ClientTile>, updates: Seq<AreaAttackUpdate>) -> Map<Position, ClientTile>
    decreases updates.len(),
{
    if updates.len() == 0 {
        m
    } else {
        let before = after_changes(m, updates.drop_last());
        match updates.last() {
            AreaAttackUpdate::TileChanged { position, to } => before.insert(position, to),
            _ => before,
        }
    }
}

/// The moves of other players' cursors among `updates`, in order.
pub open spec fn repositions(updates: Seq<AreaAttackUpdate>) -> Seq<(PlayerId, Position)>
    decreases updates.len(),
{
    if updates.len() == 0 {
        seq![]
    } else {
        let rest = repositions(updates.drop_last());
        match updates.last() {
            AreaAttackUpdate::Reposition { id, position } => rest.push((id, position)),
            _ => rest,
        }
    }
}

/// Every tile change among `updates` is about a tile of the board.
pub open spec fn changes_on_tiles(m: Map<Position, ClientTile>, updates: Seq<AreaAttackUpdate>) -> bool {
    forall|i: int| 0 <= i < updates.len() ==> (#[trigger] updates[i] matches AreaAttackUpdate::TileChanged { position, .. } ==> m.contains_key(position))
}

/// Applies the tile changes among the server's messages to the board and returns the moves of
/// other players' cursors, for the caller to show.
pub fn puppet_control(field: &mut Minefield<ClientTile>, updates: &Vec<AreaAttackUpdate>) -> (r: Vec<(PlayerId, Position)>)
    requires
        old(field).wf(),
        changes_on_tiles(old(field).view(), updates@),
    ensures
        final(field).wf(),
        final(field).width() == old(field).width(),
        final(field).height() == old(field).height(),
        final(field).view() == after_changes(old(field).view(), updates@),
        r@ == repositions(updates@),
{
    let mut r: Vec<(PlayerId, Position)> = Vec::new();
    let mut i: usize = 0;
    while i < updates.len()
        invariant
            field.wf(),
            field.width() == old(field).width(),
            field.height() == old(field).height(),
            i <= updates.len(),
            field.view() == after_changes(old(field).view(), updates@.take(i as int)),
            field.view().dom() == old(field).view().dom(),
            changes_on_tiles(old(field).view(), updates@),
            r@ == repositions(updates@.take(i as int)),
        decreases updates.len() - i,
    {
        proof {
            assert(updates@.take(i + 1).drop_last() =~= updates@.take(i as int));
            assert(updates@.take(i + 1).last() == updates@[i as int]);
        }
        match &updates[i] {
            AreaAttackUpdate::TileChanged { position, to } => {
                proof {
                    assert(old(field).view().contains_key(*position));
                    assert(field.view().contains_key(*position));
                }
                let ghost f0 = *field;
                field.set(*position, *to);
                proof {
                    assert(field.view() =~= f0.view().insert(*position, *to)) by {
                        assert forall|q: Position| field.view().contains_key(q) <==> f0.view().insert(*position, *to).contains_key(q) by {
                            assert(field.tile(q) == if q == *position { Some(*to) } else { f0.tile(q) });
                        }
                        assert forall|q: Position| field.view().contains_key(q) implies field.view()[q] == f0.view().insert(*position, *to)[q] by {
                            assert(field.tile(q) == if q == *position { Some(*to) } else { f0.tile(q) });
                        }
                    }
                }
            },
            AreaAttackUpdate::Reposition { id, position } => {
                r.push((*id, *position));
            },
            _ => {},
        }
        i = i + 1;
    }
    proof { assert(updates@.take(i as int) =~= updates@); }
    r
}

/// The client's board for a shape the server sent: every tile unknown. None where the shape
/// cannot be laid out on this machine.
pub fn reset_field(shape: &FieldShape) -> (r: Option<Minefield<ClientTile>>)
    ensures
        r.is_some() <==> (shape_size(shape.codes()) <= isize::MAX && crate::minefield::positions_fit(decoded(shape.codes()))),
        r matches Some(f) ==> f.wf() && forall|p: Position| #[trigger] f.tile(p)
            == (if decoded(shape.codes()).contains(p) { Some(ClientTile::Unknown) } else { None }),
{
    Minefield::from_shape(shape, ClientTile::Unknown)
}

/// The other players the client shows, each with the colour and position of its cursor.
pub struct PuppetTable {
    entries: Vec<(PlayerId, PlayerColor, Position)>,
}

/// No two entries are about the same player.
pub open spec fn puppets_unique(s: Seq<(PlayerId, PlayerColor, Position)>) -> bool {
    forall|i: int, j: int| 0 <= i < j < s.len() ==> #[trigger] s[i].0 != #[trigger] s[j].0
}

impl PuppetTable {
    pub closed spec fn entries(&self) -> Seq<(PlayerId, PlayerColor, Position)> {
        self.entries@
    }

    pub open spec fn wf(&self) -> bool {
        puppets_unique(self.entries())
    }

    /// Whether the player is shown.
    pub open spec fn has(&self, id: PlayerId) -> bool {
        exists|i: int| 0 <= i < self.entries().len() && #[trigger] self.entries()[i].0 == id
    }

    pub fn new() -> (r: PuppetTable)
        ensures
            r.wf(),
            r.entries() == Seq::<(PlayerId, PlayerColor, Position)>::empty(),
    {
        PuppetTable { entries: Vec::new() }
    }

    /// The players shown.
    pub fn ids(&self) -> (r: Vec<PlayerId>)
        ensures
            r@ == self.entries().map_values(|e: (PlayerId, PlayerColor, Position)| e.0),
    {
        let mut r: Vec<PlayerId> = Vec::new();
        let mut i: usize = 0;
        while i < self.entries.len()
            invariant
                i <= self.entries.len(),
                r@ == self.entries@.take(i as int).map_values(|e: (PlayerId, PlayerColor, Position)| e.0),
            decreases self.entries.len() - i,
        {
            r.push(self.entries[i].0);
            proof {
                assert(self.entries@.take(i + 1).map_values(|e: (PlayerId, PlayerColor, Position)| e.0)
                    =~= self.entries@.take(i as int).map_values(|e: (PlayerId, PlayerColor, Position)| e.0).push(self.entries@[i as int].0));
            }
            i = i + 1;
        }
        proof { assert(self.entries@.take(i as int) =~= self.entries@); }
        r
    }

    /// New properties of a player: a player already shown gets its cursor's new colour and
    /// position; another is added at the end. Returns whether the player is new, in which case
    /// its cursor and name are to be created.
    pub fn player_update(&mut self, id: PlayerId, color: PlayerColor, position: Position) -> (new: bool)
        requires
            old(self).wf(),
        ensures
            final(self).wf(),
            new == !old(self).has(id),
            new ==> final(self).entries() == old(self).entries().push((id, color, position)),
            !new ==> exists|i: int| 0 <= i < old(self).entries().len() && old(self).entries()[i].0 == id
                && final(self).entries() == #[trigger] old(self).entries().update(i, (id, color, position)),
    {
        let mut i: usize = 0;
        while i < self.entries.len()
            invariant
                self.entries@ == old(self).entries@,
                puppets_unique(self.entries@),
                i <= self.entries.len(),
                forall|j: int| 0 <= j < i ==> #[trigger] self.entries@[j].0 != id,
            decreases self.entries.len() - i,
        {
            if self.entries[i].0 == id {
                let ghost before = self.entries@;
                self.entries.set(i, (id, color, position));
                proof {
                    assert(before[i as int].0 == id);
                    assert(old(self).has(id)) by { assert(old(self).entries()[i as int].0 == id); }
                    assert forall|a: int, b: int| 0 <= a < b < self.entries@.len() implies #[trigger] self.entries@[a].0 != #[trigger] self.entries@[b].0 by {
                        assert(before[a].0 != before[b].0);
                    }
                    assert(self.entries@ == old(self).entries().update(i as int, (id, color, position)));
                }
                return false;
            }
            i = i + 1;
        }
        let ghost before = self.entries@;
        self.entries.push((id, color, position));
        proof {
            assert forall|a: int, b: int| 0 <= a < b < self.entries@.len() implies #[trigger] self.entries@[a].0 != #[trigger] self.entries@[b].0 by {
                if b == before.len() {
                    assert(before[a].0 != id);
                } else {
                    assert(before[a].0 != before[b].0);
                }
            }
            assert(!old(self).has(id)) by {
                if old(self).has(id) {
                    let k = choose|k: int| 0 <= k < old(self).entries().len() && #[trigger] old(self).entries()[k].0 == id;
                    assert(before[k].0 != id);
                }
            }
        }
        true
    }
}

/// The last change of the player's own colour and position among `updates`, if any.
pub open spec fn last_self_change(updates: Seq<AreaAttackUpdate>) -> Option<(PlayerColor, Position)>
    decreases updates.len(),
{
    if updates.len() == 0 {
        None
    } else {
        match updates.last() {
            AreaAttackUpdate::SelfChange { color, position } => Some((color, position)),
            _ => last_self_change(updates.drop_last()),
        }
    }
}

/// What becomes of a change of the player's own properties.
#[derive(PartialEq, Eq, Clone, Copy, Debug, Structural)]
pub enum SelfUpdate {
    /// Place the player's cursor, in this colour, at this position, and centre the view there.
    Place(PlayerColor, Position),
    /// Keep the change until the board exists.
    Keep(PlayerColor, Position),
    Nothing,
}

/// Handles the change of the player's own colour and position: one kept from before is taken
/// first, else the last among the new messages. It takes effect once the board exists, and is
/// kept until then.
pub fn self_update(saved: Option<(PlayerColor, Position)>, updates: &Vec<AreaAttackUpdate>, board_ready: bool) -> (r: SelfUpdate)
    ensures
        ({
            let change = match saved {
                Some(s) => Some(s),
                None => last_self_change(updates@),
            };
            r == match change {
                Some((color, position)) => if board_ready {
                    SelfUpdate::Place(color, position)
                } else {
                    SelfUpdate::Keep(color, position)
                },
                None => SelfUpdate::Nothing,
            }
        }),
{
    let mut change = saved;
    if change.is_none() {
        let mut i: usize = updates.len();
        proof { assert(updates@.take(i as int) =~= updates@); }
        while i > 0
            invariant_except_break
                i <= updates.len(),
                change.is_none(),
                last_self_change(updates@) == last_self_change(updates@.take(i as int)),
            ensures
                change == last_self_change(updates@),
            decreases i,
        {
            proof {
                assert(updates@.take(i as int).drop_last() =~= updates@.take(i - 1));
                assert(updates@.take(i as int).last() == updates@[i - 1]);
            }
            match &updates[i - 1] {
                AreaAttackUpdate::SelfChange { color, position } => {
                    change = Some((*color, *position));
                    break;
                },
                _ => {},
            }
            i = i - 1;
        }
    }
    match change {
        Some((color, position)) => {
            if board_ready {
                SelfUpdate::Place(color, position)
            } else {
                SelfUpdate::Keep(color, position)
            }
        },
        None => SelfUpdate::Nothing,
    }
}

// ---------------------------------------------------------------------------
// the client follows the server
// ---------------------------------------------------------------------------

/// The messages among `msgs` addressed to `v`, in order.
pub open spec fn messages_for(msgs: Seq<(PlayerId, AreaAttackUpdate)>, v: PlayerId) -> Seq<AreaAttackUpdate>
    decreases msgs.len(),
{
    if msgs.len() == 0 {
        seq![]
    } else {
        let rest = messages_for(msgs.drop_last(), v);
        if msgs.last().0 == v { rest.push(msgs.last().1) } else { rest }
    }
}

proof fn lemma_messages_for_append(a: Seq<(PlayerId, AreaAttackUpdate)>, b: Seq<(PlayerId, AreaAttackUpdate)>, v: PlayerId)
    ensures
        messages_for(a + b, v) == messages_for(a, v) + messages_for(b, v),
    decreases b.len(),
{
    if b.len() == 0 {
        assert(a + b =~= a);
        assert(messages_for(a, v) + messages_for(b, v) =~= messages_for(a, v));
    } else {
        lemma_messages_for_append(a, b.drop_last(), v);
        assert((a + b).drop_last() =~= a + b.drop_last());
        assert((a + b).last() == b.last());
        assert(messages_for(a + b, v) =~= messages_for(a, v) + messages_for(b, v));
    }
}

proof fn lemma_after_changes_append(m: Map<Position, ClientTile>, a: Seq<AreaAttackUpdate>, b: Seq<AreaAttackUpdate>)
    ensures
        after_changes(m, a + b) == after_changes(after_changes(m, a), b),
    decreases b.len(),
{
    if b.len() == 0 {
        assert(a + b =~= a);
    } else {
        lemma_after_changes_append(m, a, b.drop_last());
        assert((a + b).drop_last() =~= a + b.drop_last());
        assert((a + b).last() == b.last());
    }
}

/// The messages of one tile, for `v`, set that tile to what `v` is shown of it (if `v` is a
/// peer at all) and leave the other tiles alone.
proof fn lemma_tile_block(m: Board, q: Position, peers: Seq<PlayerId>, v: PlayerId, c: Map<Position, ClientTile>)
    ensures
        forall|p: Position| p != q ==> #[trigger] after_changes(c, messages_for(tile_update_for_peers(m, q, peers), v)).contains_key(p)
            == c.contains_key(p),
        forall|p: Position| p != q && c.contains_key(p) ==> #[trigger] after_changes(c, messages_for(tile_update_for_peers(m, q, peers), v))[p] == c[p],
        peers.contains(v) ==> after_changes(c, messages_for(tile_update_for_peers(m, q, peers), v)).contains_key(q)
            && after_changes(c, messages_for(tile_update_for_peers(m, q, peers), v))[q] == client_tile_spec(m, q, v),
    decreases peers.len(),
{
    let blk = tile_update_for_peers(m, q, peers);
    if peers.len() > 0 {
        let pd = peers.drop_last();
        lemma_tile_block(m, q, pd, v, c);
        assert(blk.drop_last() =~= tile_update_for_peers(m, q, pd));
        let before = after_changes(c, messages_for(tile_update_for_peers(m, q, pd), v));
        assert(blk.last() == (peers.last(), AreaAttackUpdate::TileChanged { position: q, to: client_tile_spec(m, q, peers.last()) }));
        let sv = messages_for(blk, v);
        if peers.last() == v {
            assert(sv == messages_for(blk.drop_last(), v).push(blk.last().1));
            assert(sv.drop_last() =~= messages_for(tile_update_for_peers(m, q, pd), v));
            assert(sv.last() == (AreaAttackUpdate::TileChanged { position: q, to: client_tile_spec(m, q, v) }));
            assert(after_changes(c, sv) == before.insert(q, client_tile_spec(m, q, v)));
        } else {
            assert(sv == messages_for(blk.drop_last(), v));
            assert(sv =~= messages_for(tile_update_for_peers(m, q, pd), v));
            if peers.contains(v) {
                let k = choose|k: int| 0 <= k < peers.len() && peers[k] == v;
                assert(pd[k] == v);
            }
        }
    } else {
        assert(messages_for(blk, v) =~= Seq::<AreaAttackUpdate>::empty());
        if peers.contains(v) {
            let k = choose|k: int| 0 <= k < peers.len() && peers[k] == v;
        }
    }
}

/// What the client of `v` shows after applying the server's messages about the changed tiles.
pub open spec fn shown_after(c: Map<Position, ClientTile>, m: Board, changed: Seq<Position>, peers: Seq<PlayerId>, v: PlayerId) -> Map<Position, ClientTile> {
    after_changes(c, messages_for(tile_updates(m, changed, peers), v))
}

/// A client that applies, in order, the tile messages the server sends it ends up showing
/// every changed tile as the server shows it to that player: whatever the board showed before,
/// after the messages of [`crate::area_attack::server::send_tiles`] for the changed tiles pass
/// through [`puppet_control`], each of those tiles of the server's board reads, on the client
/// of a peer `v`, exactly [`client_tile_spec`] of the server's board for `v`.
pub proof fn lemma_client_follows_server(m: Board, changed: Seq<Position>, peers: Seq<PlayerId>, v: PlayerId, c: Map<Position, ClientTile>)
    requires
        peers.contains(v),
    ensures
        forall|p: Position| changed.contains(p) && m.contains_key(p) ==>
            shown_after(c, m, changed, peers, v).contains_key(p)
            && #[trigger] shown_after(c, m, changed, peers, v)[p] == client_tile_spec(m, p, v),
    decreases changed.len(),
{
    if changed.len() > 0 {
        let d = changed.drop_last();
        let q = changed.last();
        lemma_client_follows_server(m, d, peers, v, c);
        let head = tile_updates(m, d, peers);
        let blk = if m.contains_key(q) { tile_update_for_peers(m, q, peers) } else { seq![] };
        assert(tile_updates(m, changed, peers) == head + blk);
        lemma_messages_for_append(head, blk, v);
        lemma_after_changes_append(c, messages_for(head, v), messages_for(blk, v));
        let mid = after_changes(c, messages_for(head, v));
        assert(mid == shown_after(c, m, d, peers, v));
        assert(shown_after(c, m, changed, peers, v) == after_changes(mid, messages_for(blk, v)));
        lemma_tile_block(m, q, peers, v, mid);
        assert forall|p: Position| changed.contains(p) && m.contains_key(p) implies
            shown_after(c, m, changed, peers, v).contains_key(p)
            && #[trigger] shown_after(c, m, changed, peers, v)[p] == client_tile_spec(m, p, v) by {
            let full = tile_update_for_peers(m, q, peers);
            if m.contains_key(q) {
                assert(blk == full);
                assert(after_changes(mid, messages_for(full, v)) == shown_after(c, m, changed, peers, v));
            } else {
                assert(messages_for(blk, v) =~= Seq::<AreaAttackUpdate>::empty());
                assert(after_changes(mid, messages_for(blk, v)) == mid);
            }
            if p != q {
                let k = choose|k: int| 0 <= k < changed.len() && changed[k] == p;
                assert(d[k] == p);
                assert(d.contains(p));
                assert(mid.contains_key(p) && mid[p] == client_tile_spec(m, p, v));
                if m.contains_key(q) {
                    assert(after_changes(mid, messages_for(full, v)).contains_key(p) == mid.contains_key(p));
                    assert(after_changes(mid, messages_for(full, v))[p] == mid[p]);
                }
            } else {
                assert(after_changes(mid, messages_for(full, v))[q] == client_tile_spec(m, q, v));
            }
        }
    }
}

} // verus!
