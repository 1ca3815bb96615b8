//! The lobby of a Quicksweeper server: the games that are open, the messages players send
//! outside and inside a game and what the server does with them, the messages it keeps trying
//! to send, and the membership changes it holds back while a game is being set up.

use vstd::prelude::*;
use std::collections::VecDeque;

verus! {

/// The kind of a game, by the identifier of its game mode.
#[derive(PartialEq, Eq, Clone, Copy, Debug, Hash, Structural)]
pub struct GameMarker(pub u128);

/// The identifier of Area Attack, `040784a0-e905-44a9-b698-14a71a29b3fd`.
pub const AREA_ATTACK_MARKER: u128 = 0x040784a0_e905_44a9_b698_14a71a29b3fd;

/// Whether a game lets players join.
#[derive(PartialEq, Eq, Clone, Copy, Debug, Structural)]
pub enum Access {
    /// Each game starts so; it is up to the game to open itself to players.
    Initializing,
    Open,
    Full,
    Ingame,
}

/// How a player introduces itself to the server.
#[derive(Clone, Debug)]
pub struct Greeting {
    pub username: String,
}

/// A game in the list the server sends.
#[derive(PartialEq, Eq, Clone, Copy, Debug, Structural)]
pub struct ActiveGame {
    pub marker: GameMarker,
    pub id: u64,
}

/// Messages from a player to the server.
#[derive(Clone, Debug)]
pub enum ClientMessage {
    /// A player introducing itself by name.
    Greet { username: String },
    Create { game: GameMarker, args: Vec<u8> },
    Join { game: u64 },
    Ingame { data: Vec<u8> },
    ForceLeave,
    Games,
    GameTypes,
}

/// Messages from the server to a player.
#[derive(Clone, Debug)]
pub enum ServerMessage {
    ActiveGames(Vec<ActiveGame>),
    AvailableGames(Vec<GameMarker>),
    Malformed,
}

/// The game modes the server offers.
pub open spec fn registered(marker: GameMarker) -> bool {
    marker.0 == AREA_ATTACK_MARKER
}

/// The game modes the server offers, in order.
pub fn registered_games() -> (r: Vec<GameMarker>)
    ensures
        r@ == seq![GameMarker(AREA_ATTACK_MARKER)],
        forall|m: GameMarker| r@.contains(m) <==> registered(m),
{
    let r = vec![GameMarker(AREA_ATTACK_MARKER)];
    proof {
        assert(r@ =~= seq![GameMarker(AREA_ATTACK_MARKER)]);
        assert forall|m: GameMarker| r@.contains(m) <==> registered(m) by {
            if registered(m) {
                assert(r@[0] == m);
            }
        }
    }
    r
}

// ---------------------------------------------------------------------------
// the games of a server
// ---------------------------------------------------------------------------

/// The open games, each with its identifier and kind, and the identifier the next game will
/// get. Identifiers are handed out in increasing order and never twice.
pub struct GameStore {
    games: Vec<ActiveGame>,
    next_id: u64,
}

impl GameStore {
    pub closed spec fn games(&self) -> Seq<ActiveGame> {
        self.games@
    }

    pub closed spec fn next_id(&self) -> u64 {
        self.next_id
    }

    /// Every game has an identifier below the next one, and no two games share one.
    pub open spec fn wf(&self) -> bool {
        &&& forall|i: int| 0 <= i < self.games().len() ==> #[trigger] self.games()[i].id < self.next_id()
        &&& forall|i: int, j: int| 0 <= i < j < self.games().len() ==> #[trigger] self.games()[i].id != #[trigger] self.games()[j].id
    }

    /// Whether a game has this identifier.
    pub open spec fn has(&self, id: u64) -> bool {
        exists|i: int| 0 <= i < self.games().len() && #[trigger] self.games()[i].id == id
    }

    /// No games yet.
    pub fn new() -> (r: GameStore)
        ensures
            r.wf(),
            r.games() == Seq::<ActiveGame>::empty(),
            r.next_id() == 0,
    {
        GameStore { games: Vec::new(), next_id: 0 }
    }

    /// The open games.
    pub fn list(&self) -> (r: Vec<ActiveGame>)
        ensures
            r@ == self.games(),
    {
        let mut r: Vec<ActiveGame> = Vec::new();
        let mut i: usize = 0;
        while i < self.games.len()
            invariant
                i <= self.games.len(),
                r@ == self.games@.take(i as int),
            decreases self.games.len() - i,
        {
            r.push(self.games[i]);
            proof { assert(self.games@.take(i + 1) =~= self.games@.take(i as int).push(self.games@[i as int])); }
            i = i + 1;
        }
        proof { assert(self.games@.take(i as int) =~= self.games@); }
        r
    }

    /// Opens a game of kind `marker` if the server offers it, and returns its identifier.
    pub fn create_new(&mut self, marker: GameMarker) -> (r: Option<u64>)
        requires
            old(self).wf(),
            old(self).next_id() < u64::MAX,
        ensures
            final(self).wf(),
            registered(marker) ==> r == Some(old(self).next_id())
                && final(self).games() == old(self).games().push(ActiveGame { marker, id: old(self).next_id() })
                && final(self).next_id() == old(self).next_id() + 1,
            !registered(marker) ==> r.is_none() && final(self).games() == old(self).games()
                && final(self).next_id() == old(self).next_id(),
    {
        if marker.0 != AREA_ATTACK_MARKER {
            return None;
        }
        let id = self.next_id;
        self.games.push(ActiveGame { marker, id });
        self.next_id = id + 1;
        proof {
            assert forall|i: int| 0 <= i < self.games().len() implies #[trigger] self.games()[i].id < self.next_id() by {
                if i < self.games().len() - 1 {
                    assert(old(self).games()[i].id < old(self).next_id());
                }
            }
            assert forall|i: int, j: int| 0 <= i < j < self.games@.len() implies #[trigger] self.games@[i].id != #[trigger] self.games@[j].id by {
                if j == self.games@.len() - 1 {
                    assert(old(self).games()[i].id < id);
                } else {
                    assert(old(self).games()[i].id != old(self).games()[j].id);
                }
            }
        }
        Some(id)
    }

    /// Whether a game has identifier `id`; a player asking to join it is then connected to it.
    pub fn contains(&self, id: u64) -> (r: bool)
        ensures
            r == self.has(id),
    {
        let mut i: usize = 0;
        while i < self.games.len()
            invariant
                i <= self.games.len(),
                forall|j: int| 0 <= j < i ==> #[trigger] self.games@[j].id != id,
            decreases self.games.len() - i,
        {
            if self.games[i].id == id {
                proof { assert(self.games()[i as int].id == id); }
                return true;
            }
            i = i + 1;
        }
        false
    }

    /// Forgets the game with identifier `id`, as when a player could not be connected to it.
    pub fn remove(&mut self, id: u64)
        requires
            old(self).wf(),
        ensures
            final(self).wf(),
            final(self).next_id() == old(self).next_id(),
            final(self).games() == without_game(old(self).games(), id),
            final(self).games() == old(self).games().filter(|a: ActiveGame| a.id != id),
    {
        proof { lemma_remove_keeps_others(old(self).games(), id); }
        let ghost g0 = self.games@;
        let mut kept: Vec<ActiveGame> = Vec::new();
        let mut i: usize = 0;
        while i < self.games.len()
            invariant
                self.games@ == g0,
                i <= self.games.len(),
                kept@ == without_game(g0.take(i as int), id),
            decreases self.games.len() - i,
        {
            proof {
                assert(g0.take(i + 1).drop_last() =~= g0.take(i as int));
            }
            if self.games[i].id != id {
                kept.push(self.games[i]);
            }
            i = i + 1;
        }
        proof {
            assert(g0.take(i as int) =~= g0);
            assert(g0 == old(self).games());
            assert forall|a: int, b: int| 0 <= a < b < g0.len() implies #[trigger] g0[a].id != #[trigger] g0[b].id by {
                assert(old(self).games()[a].id != old(self).games()[b].id);
            }
            lemma_without_game(g0, id);
            let f = without_game(g0, id);
            assert forall|a: int| 0 <= a < f.len() implies #[trigger] f[a].id < self.next_id by {
                let k = choose|k: int| 0 <= k < g0.len() && g0[k] == f[a];
                assert(old(self).games()[k].id < old(self).next_id());
            }
        }
        self.games = kept;
    }
}

/// The games of `g` but the one with identifier `id`, in order.
pub open spec fn without_game(g: Seq<ActiveGame>, id: u64) -> Seq<ActiveGame>
    decreases g.len(),
{
    if g.len() == 0 {
        seq![]
    } else {
        let rest = without_game(g.drop_last(), id);
        if g.last().id != id { rest.push(g.last()) } else { rest }
    }
}

/// Removing a game forgets that game only: the games left are exactly the games of the list
/// whose identifier differs from the one removed, in the order they were listed.
pub proof fn lemma_remove_keeps_others(g: Seq<ActiveGame>, id: u64)
    ensures
        without_game(g, id) == g.filter(|a: ActiveGame| a.id != id),
        forall|k: int| 0 <= k < g.len() && g[k].id != id ==> without_game(g, id).contains(#[trigger] g[k]),
    decreases g.len(),
{
    reveal(Seq::filter);
    if g.len() > 0 {
        lemma_remove_keeps_others(g.drop_last(), id);
    }
    let f = g.filter(|a: ActiveGame| a.id != id);
    assert forall|k: int| 0 <= k < g.len() && g[k].id != id implies f.contains(#[trigger] g[k]) by {
        g.lemma_filter_contains(|a: ActiveGame| a.id != id, k);
    }
}

/// Dropping a game keeps the others' identifiers distinct, and every game kept was there.
proof fn lemma_without_game(g: Seq<ActiveGame>, id: u64)
    requires
        forall|i: int, j: int| 0 <= i < j < g.len() ==> #[trigger] g[i].id != #[trigger] g[j].id,
    ensures
        forall|i: int, j: int| 0 <= i < j < without_game(g, id).len() ==>
            #[trigger] without_game(g, id)[i].id != #[trigger] without_game(g, id)[j].id,
        forall|a: int| 0 <= a < without_game(g, id).len() ==>
            exists|k: int| 0 <= k < g.len() && #[trigger] g[k] == #[trigger] without_game(g, id)[a],
    decreases g.len(),
{
    if g.len() > 0 {
        let d = g.drop_last();
        lemma_without_game(d, id);
        let fd = without_game(d, id);
        let f = without_game(g, id);
        assert forall|a: int| 0 <= a < f.len() implies exists|k: int| 0 <= k < g.len() && #[trigger] g[k] == #[trigger] f[a] by {
            if a < fd.len() {
                let k = choose|k: int| 0 <= k < d.len() && d[k] == fd[a];
                assert(g[k] == f[a]);
            } else {
                assert(g[g.len() - 1] == f[a]);
            }
        }
        if g.last().id != id {
            assert forall|i: int, j: int| 0 <= i < j < f.len() implies #[trigger] f[i].id != #[trigger] f[j].id by {
                if j == f.len() - 1 {
                    let k = choose|k: int| 0 <= k < d.len() && d[k] == fd[i];
                    assert(g[k].id != g[g.len() - 1].id);
                } else {
                    assert(f[i] == fd[i] && f[j] == fd[j]);
                }
            }
        }
    }
}

// ---------------------------------------------------------------------------
// messages outside and inside games
// ---------------------------------------------------------------------------

/// What the server does with a message from a player.
#[derive(Clone, Debug)]
pub enum PlayerAction {
    /// Open a game of this kind with the player as its host.
    CreateGame { game: GameMarker, args: Vec<u8> },
    /// Send the player the game modes on offer.
    SendAvailableGames,
    /// Send the player the list of open games.
    SendActiveGames,
    /// Pass the data on to the player's game.
    ForwardToGame(Vec<u8>),
    /// Try to connect the player to this game.
    JoinGame(u64),
    /// Tell the player its message made no sense.
    SendMalformed,
    /// Do nothing.
    Ignore,
}

/// What the server does with a message (or an unreadable one, `None`) from a player, who is
/// in a game or not: data meant for a game is forwarded if the player is in one and refused
/// otherwise; a greeting, which belongs to the connection's start, is refused; leaving and
/// unreadable messages are ignored.
pub fn handle_client_message(message: Option<ClientMessage>, in_game: bool) -> (r: PlayerAction)
    ensures
        match message {
            Some(ClientMessage::Create { game, args }) => r matches PlayerAction::CreateGame { game: g, args: a } && g == game && a@ == args@,
            Some(ClientMessage::ForceLeave) => r matches PlayerAction::Ignore,
            Some(ClientMessage::GameTypes) => r matches PlayerAction::SendAvailableGames,
            Some(ClientMessage::Games) => r matches PlayerAction::SendActiveGames,
            Some(ClientMessage::Ingame { data }) => if in_game {
                r matches PlayerAction::ForwardToGame(d) && d@ == data@
            } else {
                r matches PlayerAction::SendMalformed
            },
            Some(ClientMessage::Join { game }) => r matches PlayerAction::JoinGame(g) && g == game,
            Some(ClientMessage::Greet { .. }) => r matches PlayerAction::SendMalformed,
            None => r matches PlayerAction::Ignore,
        },
{
    match message {
        Some(ClientMessage::Create { game, args }) => PlayerAction::CreateGame { game, args },
        Some(ClientMessage::ForceLeave) => PlayerAction::Ignore,
        Some(ClientMessage::GameTypes) => PlayerAction::SendAvailableGames,
        Some(ClientMessage::Games) => PlayerAction::SendActiveGames,
        Some(ClientMessage::Ingame { data }) => {
            if in_game {
                PlayerAction::ForwardToGame(data)
            } else {
                PlayerAction::SendMalformed
            }
        },
        Some(ClientMessage::Join { game }) => PlayerAction::JoinGame(game),
        Some(ClientMessage::Greet { .. }) => PlayerAction::SendMalformed,
        None => PlayerAction::Ignore,
    }
}

/// Where a player stands after asking to join a game, given the game it was let into, if any,
/// and the game it was in before: in the game it joined; or, where the join was refused, still
/// where it was, and answered that its message was malformed.
pub fn join_result(joined: Option<u64>, current: Option<u64>) -> (r: (Option<u64>, Option<ServerMessage>))
    ensures
        joined is Some ==> r.0 == joined && r.1 is None,
        joined is None ==> r.0 == current && r.1 matches Some(ServerMessage::Malformed),
{
    match joined {
        Some(g) => (Some(g), None),
        None => (current, Some(ServerMessage::Malformed)),
    }
}

/// What the server does with a message from a player outside any game (`None`: nothing
/// arrived; `Some(None)`: an unreadable message).
#[derive(Clone, Debug)]
pub enum LobbyAction {
    SendActiveGames,
    SendAvailableGames,
    /// Open a game of this kind, still initializing, with the player in it.
    CreateGame(GameMarker),
    /// Put the player into this game.
    JoinGame(u64),
    SendMalformed,
    Nothing,
}

/// The server's answer to a message from a player outside any game: a join names a game that
/// must exist; data for a game and requests to leave make no sense outside one.
pub fn server_messages(message: Option<Option<ClientMessage>>, games: &GameStore) -> (r: LobbyAction)
    ensures
        match message {
            Some(Some(ClientMessage::Games)) => r matches LobbyAction::SendActiveGames,
            Some(Some(ClientMessage::GameTypes)) => r matches LobbyAction::SendAvailableGames,
            Some(Some(ClientMessage::Create { game, .. })) => r matches LobbyAction::CreateGame(g) && g == game,
            Some(Some(ClientMessage::Join { game })) => if games.has(game) {
                r matches LobbyAction::JoinGame(g) && g == game
            } else {
                r matches LobbyAction::SendMalformed
            },
            Some(_) => r matches LobbyAction::SendMalformed,
            None => r matches LobbyAction::Nothing,
        },
{
    match message {
        Some(Some(ClientMessage::Games)) => LobbyAction::SendActiveGames,
        Some(Some(ClientMessage::GameTypes)) => LobbyAction::SendAvailableGames,
        Some(Some(ClientMessage::Create { game, .. })) => LobbyAction::CreateGame(game),
        Some(Some(ClientMessage::Join { game })) => {
            if games.contains(game) {
                LobbyAction::JoinGame(game)
            } else {
                LobbyAction::SendMalformed
            }
        },
        Some(_) => LobbyAction::SendMalformed,
        None => LobbyAction::Nothing,
    }
}

/// What the server does with a message from a player in a game.
#[derive(Clone, Debug)]
pub enum GameAction {
    /// Hand the data to the game.
    Forward(Vec<u8>),
    /// Take the player out of the game.
    Leave,
    SendMalformed,
    Nothing,
}

/// The server's answer to a message from a player inside a game: data goes to the game, a
/// request to leave takes the player out, anything else is refused.
pub fn game_messages(message: Option<Option<ClientMessage>>) -> (r: GameAction)
    ensures
        match message {
            Some(Some(ClientMessage::Ingame { data })) => r matches GameAction::Forward(d) && d@ == data@,
            Some(Some(ClientMessage::ForceLeave)) => r matches GameAction::Leave,
            Some(_) => r matches GameAction::SendMalformed,
            None => r matches GameAction::Nothing,
        },
{
    match message {
        Some(Some(ClientMessage::Ingame { data })) => GameAction::Forward(data),
        Some(Some(ClientMessage::ForceLeave)) => GameAction::Leave,
        Some(_) => GameAction::SendMalformed,
        None => GameAction::Nothing,
    }
}

// ---------------------------------------------------------------------------
// messages that must get through
// ---------------------------------------------------------------------------

/// How many failed attempts are allowed before a failure is reported.
pub const MAX_TRIALS: u8 = 10;

/// Encoded messages a connection keeps trying to send, in order, and how many times in a row
/// sending the first has failed.
pub struct RepeatQueue {
    buffer: VecDeque<Vec<u8>>,
    trials: u8,
}

/// What came of one attempt to send the first waiting message.
#[derive(PartialEq, Eq, Clone, Copy, Debug, Structural)]
pub enum Repetition {
    /// Nothing was waiting.
    Idle,
    /// The message went out and left the queue.
    Sent,
    /// It failed and will be tried again.
    Retry,
    /// It failed once more than allowed: the failure is to be reported, and the count starts
    /// over; the message stays.
    Report,
}

/// A call on a repeat queue: queueing a message (`(true, m, _)`), or an attempt to send the
/// first waiting message that went out or not (`(false, _, sent)`).
pub type QueueCall = (bool, Seq<u8>, bool);

/// The waiting messages after one call.
pub open spec fn queue_call(ms: Seq<Seq<u8>>, c: QueueCall) -> Seq<Seq<u8>> {
    if c.0 { ms.push(c.1) } else if ms.len() > 0 && c.2 { ms.drop_first() } else { ms }
}

/// The messages waiting after a run of calls, and those that went out, in order.
pub open spec fn queue_run(ms: Seq<Seq<u8>>, calls: Seq<QueueCall>) -> (Seq<Seq<u8>>, Seq<Seq<u8>>)
    decreases calls.len(),
{
    if calls.len() == 0 {
        (ms, seq![])
    } else {
        let (w, out) = queue_run(ms, calls.drop_last());
        let c = calls.last();
        if !c.0 && w.len() > 0 && c.2 { (queue_call(w, c), out.push(w[0])) } else { (queue_call(w, c), out) }
    }
}

/// The messages queued by a run of calls, in order.
pub open spec fn queued_by(calls: Seq<QueueCall>) -> Seq<Seq<u8>>
    decreases calls.len(),
{
    if calls.len() == 0 {
        seq![]
    } else if calls.last().0 {
        queued_by(calls.drop_last()).push(calls.last().1)
    } else {
        queued_by(calls.drop_last())
    }
}

/// Messages go out in the order they were queued, none lost and none twice: along any run of
/// calls, the messages that went out followed by those still waiting are the messages that
/// were waiting at the start followed by those queued.
pub proof fn lemma_queue_in_order(ms: Seq<Seq<u8>>, calls: Seq<QueueCall>)
    ensures
        queue_run(ms, calls).1 + queue_run(ms, calls).0 == ms + queued_by(calls),
    decreases calls.len(),
{
    if calls.len() > 0 {
        lemma_queue_in_order(ms, calls.drop_last());
        let (w, out) = queue_run(ms, calls.drop_last());
        let c = calls.last();
        if c.0 {
            assert(out + w.push(c.1) =~= (out + w).push(c.1));
        } else if w.len() > 0 && c.2 {
            assert(out.push(w[0]) + w.drop_first() =~= out + w);
        }
    } else {
        assert(seq![] + ms =~= ms + seq![]);
    }
}

impl RepeatQueue {
    pub closed spec fn messages(&self) -> Seq<Seq<u8>> {
        self.buffer@.map_values(|m: Vec<u8>| m@)
    }

    pub closed spec fn trials(&self) -> u8 {
        self.trials
    }

    /// Nothing waiting.
    pub fn new() -> (r: RepeatQueue)
        ensures
            r.messages() == Seq::<Seq<u8>>::empty(),
            r.trials() == 0,
    {
        let r = RepeatQueue { buffer: VecDeque::new(), trials: 0 };
        proof { assert(r.messages() =~= Seq::<Seq<u8>>::empty()); }
        r
    }

    /// Queues an encoded message.
    pub fn repeat_send_unchecked(&mut self, msg: Vec<u8>)
        ensures
            final(self).messages() == old(self).messages().push(msg@),
            final(self).trials() == old(self).trials(),
            final(self).messages() == queue_call(old(self).messages(), (true, msg@, false)),
    {
        self.buffer.push_back(msg);
        proof { assert(self.messages() =~= old(self).messages().push(msg@)); }
    }

    /// The message to try next, if any.
    pub fn front(&self) -> (r: Option<Vec<u8>>)
        ensures
            self.messages().len() == 0 ==> r.is_none(),
            self.messages().len() > 0 ==> (r matches Some(m) && m@ == self.messages()[0]),
    {
        if self.buffer.len() == 0 {
            None
        } else {
            Some(self.buffer[0].clone())
        }
    }

    /// Records the outcome of an attempt to send the first waiting message: a success drops it
    /// and clears the count of failures; a failure is counted, and the failure after
    /// [`MAX_TRIALS`] failed attempts is to be reported, the count starting over.
    pub fn repetition(&mut self, sent: bool) -> (r: Repetition)
        requires
            old(self).trials() <= MAX_TRIALS + 1,
        ensures
            final(self).trials() <= MAX_TRIALS + 1,
            final(self).messages() == queue_call(old(self).messages(), (false, Seq::<u8>::empty(), sent)),
            old(self).messages().len() == 0 ==> r == Repetition::Idle && *final(self) == *old(self),
            old(self).messages().len() > 0 && sent ==> r == Repetition::Sent
                && final(self).messages() == old(self).messages().drop_first() && final(self).trials() == 0,
            old(self).messages().len() > 0 && !sent && old(self).trials() > MAX_TRIALS ==> r == Repetition::Report
                && final(self).messages() == old(self).messages() && final(self).trials() == 0,
            old(self).messages().len() > 0 && !sent && old(self).trials() <= MAX_TRIALS ==> r == Repetition::Retry
                && final(self).messages() == old(self).messages() && final(self).trials() == old(self).trials() + 1,
    {
        if self.buffer.len() == 0 {
            return Repetition::Idle;
        }
        if sent {
            let _ = self.buffer.pop_front();
            self.trials = 0;
            proof { assert(self.messages() =~= old(self).messages().drop_first()); }
            Repetition::Sent
        } else if self.trials > MAX_TRIALS {
            self.trials = 0;
            Repetition::Report
        } else {
            self.trials = self.trials + 1;
            Repetition::Retry
        }
    }
}

// ---------------------------------------------------------------------------
// membership changes of games being set up
// ---------------------------------------------------------------------------

/// The events of `s` whose game, given alongside, exists and is not initializing: these are
/// passed on.
pub open spec fn passed_on<E>(s: Seq<(E, Option<Access>)>) -> Seq<E>
    decreases s.len(),
{
    if s.len() == 0 {
        seq![]
    } else {
        let rest = passed_on(s.drop_last());
        if s.last().1 is Some && s.last().1 != Some(Access::Initializing) { rest.push(s.last().0) } else { rest }
    }
}

/// The events of `s` whose game is initializing: these are held back.
pub open spec fn held_back<E>(s: Seq<(E, Option<Access>)>) -> Seq<E>
    decreases s.len(),
{
    if s.len() == 0 {
        seq![]
    } else {
        let rest = held_back(s.drop_last());
        if s.last().1 == Some(Access::Initializing) { rest.push(s.last().0) } else { rest }
    }
}

/// The stored events whose game is no longer initializing (each given with the current access
/// of its game, if the game still exists).
pub open spec fn released<E>(s: Seq<(E, Option<Access>)>) -> Seq<E>
    decreases s.len(),
{
    if s.len() == 0 {
        seq![]
    } else {
        let rest = released(s.drop_last());
        if s.last().1 != Some(Access::Initializing) { rest.push(s.last().0) } else { rest }
    }
}

/// Which events are passed on, held back and released, said directly: a new event is passed
/// on exactly when its game exists and is not initializing (whether it is open, full or under
/// way), and held back exactly when its game is initializing; a stored event is released
/// exactly when its game is not initializing. Each list keeps the order of the events.
pub proof fn lemma_event_routing<E>(s: Seq<(E, Option<Access>)>)
    ensures
        passed_on(s) == s.filter(|x: (E, Option<Access>)| x.1 is Some && x.1 != Some(Access::Initializing))
            .map_values(|x: (E, Option<Access>)| x.0),
        held_back(s) == s.filter(|x: (E, Option<Access>)| x.1 == Some(Access::Initializing))
            .map_values(|x: (E, Option<Access>)| x.0),
        released(s) == s.filter(|x: (E, Option<Access>)| x.1 != Some(Access::Initializing))
            .map_values(|x: (E, Option<Access>)| x.0),
    decreases s.len(),
{
    reveal(Seq::filter);
    if s.len() > 0 {
        let d = s.drop_last();
        let x = s.last();
        lemma_event_routing(d);
        let p1 = |x: (E, Option<Access>)| x.1 is Some && x.1 != Some(Access::Initializing);
        let p2 = |x: (E, Option<Access>)| x.1 == Some(Access::Initializing);
        let p3 = |x: (E, Option<Access>)| x.1 != Some(Access::Initializing);
        let g = |x: (E, Option<Access>)| x.0;
        assert(d.filter(p1).push(x).map_values(g) =~= d.filter(p1).map_values(g).push(x.0));
        assert(d.filter(p2).push(x).map_values(g) =~= d.filter(p2).map_values(g).push(x.0));
        assert(d.filter(p3).push(x).map_values(g) =~= d.filter(p3).map_values(g).push(x.0));
    } else {
        assert(s.filter(|x: (E, Option<Access>)| x.1 is Some && x.1 != Some(Access::Initializing))
            .map_values(|x: (E, Option<Access>)| x.0) =~= Seq::<E>::empty());
        assert(s.filter(|x: (E, Option<Access>)| x.1 == Some(Access::Initializing))
            .map_values(|x: (E, Option<Access>)| x.0) =~= Seq::<E>::empty());
        assert(s.filter(|x: (E, Option<Access>)| x.1 != Some(Access::Initializing))
            .map_values(|x: (E, Option<Access>)| x.0) =~= Seq::<E>::empty());
    }
}

/// Nothing held back is lost, and it comes out in order once its game is ready: every stored
/// event is either passed on or held again, and when no stored event's game is initializing
/// any longer, all of them are passed on, in the order they were held, and none is held.
pub proof fn lemma_held_events_released<E>(stored: Seq<(E, Option<Access>)>)
    ensures
        released(stored).len() + held_back(stored).len() == stored.len(),
        (forall|i: int| 0 <= i < stored.len() ==> #[trigger] stored[i].1 != Some(Access::Initializing)) ==> {
            &&& released(stored) == stored.map_values(|x: (E, Option<Access>)| x.0)
            &&& held_back(stored) == Seq::<E>::empty()
        },
    decreases stored.len(),
{
    if stored.len() > 0 {
        let init = stored.drop_last();
        lemma_held_events_released(init);
        if forall|i: int| 0 <= i < stored.len() ==> #[trigger] stored[i].1 != Some(Access::Initializing) {
            assert forall|i: int| 0 <= i < init.len() implies #[trigger] init[i].1 != Some(Access::Initializing) by {
                assert(init[i] == stored[i]);
            }
            assert(stored[stored.len() - 1].1 != Some(Access::Initializing));
            assert(stored.map_values(|x: (E, Option<Access>)| x.0)
                =~= init.map_values(|x: (E, Option<Access>)| x.0).push(stored.last().0));
        }
    } else {
        assert(stored.map_values(|x: (E, Option<Access>)| x.0) =~= Seq::<E>::empty());
    }
}

/// Holds back the membership changes of games that are still initializing, so that a game
/// sees its players arrive only once it is ready. `stored` are the events held so far and
/// `incoming` the new ones, each with the current access of its game (none if the game does
/// not exist). Returns the events to pass on, in order: first the stored events whose game is
/// no longer initializing, then the new events of existing games that are not initializing;
/// the new events of initializing games join the store, and those of no game are dropped.
pub fn delay_hierarchy_events<E>(
    stored: Vec<(E, Option<Access>)>,
    incoming: Vec<(E, Option<Access>)>,
) -> (r: (Vec<E>, Vec<E>))
    ensures
        r.0@ == released(stored@) + passed_on(incoming@),
        r.1@ == held_back(stored@) + held_back(incoming@),
        r.0@ == stored@.filter(|x: (E, Option<Access>)| x.1 != Some(Access::Initializing)).map_values(|x: (E, Option<Access>)| x.0)
            + incoming@.filter(|x: (E, Option<Access>)| x.1 is Some && x.1 != Some(Access::Initializing))
                .map_values(|x: (E, Option<Access>)| x.0),
        r.1@ == stored@.filter(|x: (E, Option<Access>)| x.1 == Some(Access::Initializing)).map_values(|x: (E, Option<Access>)| x.0)
            + incoming@.filter(|x: (E, Option<Access>)| x.1 == Some(Access::Initializing)).map_values(|x: (E, Option<Access>)| x.0),
{
    proof {
        lemma_event_routing(stored@);
        lemma_event_routing(incoming@);
    }
    let ghost st = stored@;
    let ghost inc = incoming@;
    let mut send: Vec<E> = Vec::new();
    let mut keep: Vec<E> = Vec::new();
    let mut stored = stored;
    let n = stored.len();
    let mut i: usize = 0;
    proof { assert(st.skip(0) =~= st); }
    while i < n
        invariant
            n == st.len(),
            i <= n,
            stored@ == st.skip(i as int),
            send@ == released(st.take(i as int)),
            keep@ == held_back(st.take(i as int)),
        decreases n - i,
    {
        let (e, a) = stored.remove(0);
        proof {
            assert(st.take(i + 1).drop_last() =~= st.take(i as int));
            assert(st.take(i + 1).last() == st[i as int]);
            assert(st.skip(i + 1) =~= st.skip(i as int).drop_first());
        }
        match a {
            Some(Access::Initializing) => { keep.push(e); },
            _ => { send.push(e); },
        }
        i = i + 1;
    }
    proof { assert(st.take(n as int) =~= st); }
    let ghost s1 = send@;
    let ghost k1 = keep@;
    let mut incoming = incoming;
    let m = incoming.len();
    let mut j: usize = 0;
    proof {
        assert(inc.skip(0) =~= inc);
        assert(s1 + passed_on(inc.take(0)) =~= s1);
        assert(k1 + held_back(inc.take(0)) =~= k1);
    }
    while j < m
        invariant
            m == inc.len(),
            j <= m,
            incoming@ == inc.skip(j as int),
            send@ == s1 + passed_on(inc.take(j as int)),
            keep@ == k1 + held_back(inc.take(j as int)),
        decreases m - j,
    {
        let (e, a) = incoming.remove(0);
        proof {
            assert(inc.take(j + 1).drop_last() =~= inc.take(j as int));
            assert(inc.take(j + 1).last() == inc[j as int]);
            assert(inc.skip(j + 1) =~= inc.skip(j as int).drop_first());
        }
        match a {
            Some(Access::Initializing) => {
                keep.push(e);
                proof { assert(keep@ =~= k1 + held_back(inc.take(j + 1))); }
            },
            Some(_) => {
                send.push(e);
                proof { assert(send@ =~= s1 + passed_on(inc.take(j + 1))); }
            },
            None => {},
        }
        j = j + 1;
    }
    proof { assert(inc.take(m as int) =~= inc); }
    (send, keep)
}

// ---------------------------------------------------------------------------
// the menus of the client
// ---------------------------------------------------------------------------

/// What the player chose in the list of games.
#[derive(PartialEq, Eq, Clone, Copy, Debug, Structural)]
pub enum MenuAction {
    /// Back to the main menu.
    Back,
    /// Ask the server for the games again.
    Reload,
    /// Ask the server to open a game of this kind.
    Create(GameMarker),
    /// Join this game, of this kind, and enter it.
    Join(u64, GameMarker),
    Nothing,
}

/// The choice made in the list of games, from what was clicked: going back comes first, then
/// reloading, then creating a game of the selected kind (if one is selected), then joining.
pub fn game_select_menu(
    go_back: bool,
    reload: bool,
    create: bool,
    selected: Option<GameMarker>,
    join: Option<(u64, GameMarker)>,
) -> (r: MenuAction)
    ensures
        r == (if go_back {
            MenuAction::Back
        } else if reload {
            MenuAction::Reload
        } else if create && selected.is_some() {
            MenuAction::Create(selected.unwrap())
        } else if join.is_some() {
            MenuAction::Join(join.unwrap().0, join.unwrap().1)
        } else {
            MenuAction::Nothing
        }),
{
    if go_back {
        MenuAction::Back
    } else if reload {
        MenuAction::Reload
    } else if create && selected.is_some() {
        MenuAction::Create(selected.unwrap())
    } else {
        match join {
            Some((id, marker)) => MenuAction::Join(id, marker),
            None => MenuAction::Nothing,
        }
    }
}

/// Where the connection to a server stands in the server menu.
#[derive(PartialEq, Eq, Clone, Copy, Debug, Structural)]
pub enum Connecting {
    /// No attempt under way.
    Idle,
    /// The handshake finished.
    Established,
    /// The handshake needs more time.
    Interrupted,
    /// The handshake failed.
    Failed,
}

/// What the server menu does next.
#[derive(PartialEq, Eq, Clone, Copy, Debug, Structural)]
pub enum ServerSelectAction {
    /// Greet the server, ask for its games and go to the list of games.
    Greet,
    /// Carry on with the handshake.
    ContinueHandshake,
    /// Show that the handshake failed.
    HandshakeFailed,
    /// Connect to the address typed in.
    Connect,
    /// Clear the error shown.
    ClearError,
    Nothing,
}

/// The server menu's next step: an attempt under way is seen through first; otherwise leaving
/// the fields with Enter connects, and coming back to them clears the error.
pub fn server_select_menu(connecting: Connecting, submitted: bool, focus_gained: bool) -> (r: ServerSelectAction)
    ensures
        r == match connecting {
            Connecting::Established => ServerSelectAction::Greet,
            Connecting::Interrupted => ServerSelectAction::ContinueHandshake,
            Connecting::Failed => ServerSelectAction::HandshakeFailed,
            Connecting::Idle => if submitted {
                ServerSelectAction::Connect
            } else if focus_gained {
                ServerSelectAction::ClearError
            } else {
                ServerSelectAction::Nothing
            },
        },
{
    match connecting {
        Connecting::Established => ServerSelectAction::Greet,
        Connecting::Interrupted => ServerSelectAction::ContinueHandshake,
        Connecting::Failed => ServerSelectAction::HandshakeFailed,
        Connecting::Idle => {
            if submitted {
                ServerSelectAction::Connect
            } else if focus_gained {
                ServerSelectAction::ClearError
            } else {
                ServerSelectAction::Nothing
            }
        },
    }
}

} // verus!
