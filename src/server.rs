//! The command router: the session registry, the room directory, and the
//! messages each command sends out.

use vstd::prelude::*;
use vstd::set_lib::{lemma_int_range, lemma_len_subset, set_int_range};
use crate::board::{Cell, Color, Move as ReversiMove};
use crate::error::ReversiError;
use crate::game::{Game as ReversiGame, GameView, Winner, play_spec, winner_spec};
use crate::room::{
    Room, RoomEntry, RoomMap, has_room, join_ids, join_rooms, joinable, leave_rooms, replace_game,
    room_named, fresh_room, lemma_replace_game, room_wf,
};

verus! {

/// A line of text for one session.
pub struct Message(pub String);

/// A new connection, with the sink its messages go to.
pub struct Connect<S> {
    pub addr: S,
}

/// A connection that went away.
pub struct Disconnect {
    pub id: usize,
}

/// A request for the list of rooms.
pub struct ListRooms {
    pub uid: usize,
}

/// A request to take the second seat of a room.
pub struct Join {
    pub name: String,
    pub uid: usize,
    pub uname: String,
}

/// A request to create a room.
pub struct MakeRoom {
    pub name: String,
    pub uid: usize,
    pub uname: String,
    pub color: Option<Color>,
}

/// A move sent by a client, for the room it is in.
pub struct ClientReversiMoveMessage {
    pub id: usize,
    pub reversi_move: ReversiMove,
    pub room: String,
}

/// How a cell is written in a snapshot.
pub open spec fn cell_label(c: Cell) -> Seq<char> {
    match c {
        Cell::Piece(Color::Black) => "black"@,
        Cell::Piece(Color::White) => "white"@,
        Cell::Available => "available"@,
        Cell::Empty => "empty"@,
    }
}

impl Cell {
    /// The cell's label: "black", "white", "available" or "empty".
    pub fn label(&self) -> (r: String)
        ensures
            r@ == cell_label(*self),
    {
        match self {
            Cell::Piece(Color::Black) => "black".to_owned(),
            Cell::Piece(Color::White) => "white".to_owned(),
            Cell::Available => "available".to_owned(),
            Cell::Empty => "empty".to_owned(),
        }
    }
}

/// A snapshot of a game for the clients: the 64 cell labels and the color to move.
pub struct Game {
    pub board: Vec<String>,
    pub turn: Color,
}

/// Whether snapshot `s` shows game `g`.
pub open spec fn shows(s: Game, g: GameView) -> bool {
    &&& s.board@.len() == g.board.len()
    &&& forall|i: int| 0 <= i < s.board@.len() ==> (#[trigger] s.board@[i])@ == cell_label(g.board[i])
    &&& s.turn == g.turn
}

impl Game {
    /// The snapshot of `game`.
    pub fn from_game(game: &ReversiGame) -> (r: Game)
        ensures
            shows(r, game@),
    {
        let mut board: Vec<String> = Vec::new();
        let mut i: usize = 0;
        while i < 64
            invariant
                i <= 64,
                game.board@.len() == 64,
                board@.len() == i,
                forall|j: int| 0 <= j < i ==> (#[trigger] board@[j])@ == cell_label(game.board@[j]),
            decreases 64 - i,
        {
            board.push(game.board.0[i].label());
            i += 1;
        }
        Game { board, turn: game.turn }
    }

    /// A copy of this snapshot.
    pub fn snapshot(&self) -> (r: Game)
        ensures
            r.board@.len() == self.board@.len(),
            forall|i: int| 0 <= i < r.board@.len() ==> (#[trigger] r.board@[i])@ == self.board@[i]@,
            r.turn == self.turn,
    {
        let mut board: Vec<String> = Vec::new();
        let mut i: usize = 0;
        while i < self.board.len()
            invariant
                i <= self.board@.len(),
                board@.len() == i,
                forall|j: int| 0 <= j < i ==> (#[trigger] board@[j])@ == self.board@[j]@,
            decreases self.board@.len() - i,
        {
            board.push(self.board[i].clone());
            i += 1;
        }
        Game { board, turn: self.turn }
    }
}

/// What a message is about.
#[derive(Clone, Copy, PartialEq, Eq, Debug, Structural)]
pub enum ReversiMessageKind {
    Game,
    GameStart,
    GameOver,
    Turn,
    Move,
    ReversiError,
}

/// What a message carries.
pub enum ReversiMessageBody {
    GameOver((Game, Winner)),
    Turn(Color),
    Move(ReversiMove),
    GameStart(Color),
    Game(Game),
}

/// A message to a client.
pub struct ReversiMessage {
    pub kind: ReversiMessageKind,
    pub body: Option<ReversiMessageBody>,
}

/// Whether `m` announces the start of a game in which the recipient plays `c`.
pub open spec fn is_game_start(m: ReversiMessage, c: Color) -> bool {
    m.kind == ReversiMessageKind::GameStart && m.body == Some(ReversiMessageBody::GameStart(c))
}

/// Whether `m` carries the state of game `g`, which goes on.
pub open spec fn is_game_update(m: ReversiMessage, g: GameView) -> bool {
    &&& m.kind == ReversiMessageKind::Game
    &&& m.body matches Some(ReversiMessageBody::Game(s))
    &&& shows(s, g)
}

/// Whether `m` announces the end of game `g`, with its final state and its winner.
pub open spec fn is_game_over(m: ReversiMessage, g: GameView) -> bool {
    &&& m.kind == ReversiMessageKind::GameOver
    &&& m.body matches Some(ReversiMessageBody::GameOver((s, w)))
    &&& shows(s, g)
    &&& w == winner_spec(g)
}

/// Whether `a` and `b` say the same thing.
pub open spec fn same_message(a: ReversiMessage, b: ReversiMessage) -> bool {
    &&& a.kind == b.kind
    &&& match (a.body, b.body) {
        (None, None) => true,
        (Some(ReversiMessageBody::GameOver((s, w))), Some(ReversiMessageBody::GameOver((t, v)))) => {
            &&& s.board@.len() == t.board@.len()
            &&& forall|i: int| 0 <= i < s.board@.len() ==> (#[trigger] s.board@[i])@ == t.board@[i]@
            &&& s.turn == t.turn
            &&& w == v
        },
        (Some(ReversiMessageBody::Game(s)), Some(ReversiMessageBody::Game(t))) => {
            &&& s.board@.len() == t.board@.len()
            &&& forall|i: int| 0 <= i < s.board@.len() ==> (#[trigger] s.board@[i])@ == t.board@[i]@
            &&& s.turn == t.turn
        },
        (Some(ReversiMessageBody::Turn(c)), Some(ReversiMessageBody::Turn(d))) => c == d,
        (Some(ReversiMessageBody::GameStart(c)), Some(ReversiMessageBody::GameStart(d))) => c == d,
        (Some(ReversiMessageBody::Move(m)), Some(ReversiMessageBody::Move(n))) => m == n,
        _ => false,
    }
}

impl ReversiMessage {
    /// A copy of this message.
    pub fn duplicate(&self) -> (r: ReversiMessage)
        ensures
            same_message(r, *self),
    {
        let body = match &self.body {
            None => None,
            Some(ReversiMessageBody::GameOver((s, w))) => Some(
                ReversiMessageBody::GameOver((s.snapshot(), *w)),
            ),
            Some(ReversiMessageBody::Game(s)) => Some(ReversiMessageBody::Game(s.snapshot())),
            Some(ReversiMessageBody::Turn(c)) => Some(ReversiMessageBody::Turn(*c)),
            Some(ReversiMessageBody::GameStart(c)) => Some(ReversiMessageBody::GameStart(*c)),
            Some(ReversiMessageBody::Move(m)) => Some(ReversiMessageBody::Move(*m)),
        };
        ReversiMessage { kind: self.kind, body }
    }
}

/// A message and the session it is for.
pub struct Outbound {
    pub to: usize,
    pub message: ReversiMessage,
}

/// Relies on rand::random: a number drawn from the thread's generator. Nothing
/// is known of it; the registry checks it before use.
#[verifier::external_body]
fn random_id() -> (r: usize) {
    rand::random::<usize>()
}

/// Some number in 0..=ids.len() is not in `ids`.
proof fn lemma_free_id(ids: Seq<usize>)
    requires
        ids.len() <= usize::MAX,
    ensures
        exists|k: usize| k <= ids.len() && !#[trigger] ids.contains(k),
{
    let n = ids.len() as int;
    if forall|k: usize| k <= n ==> #[trigger] ids.contains(k) {
        let as_int = ids.map_values(|x: usize| x as int);
        assert forall|k: int| #[trigger] set_int_range(0, n + 1).contains(k) implies as_int.to_set().contains(
            k,
        ) by {
            assert(ids.contains(k as usize));
            let j = choose|j: int| 0 <= j < ids.len() && ids[j] == k as usize;
            assert(as_int[j] == ids[j] as int);
            assert(as_int[j] == k);
        }
        lemma_int_range(0, n + 1);
        as_int.lemma_cardinality_of_set();
        lemma_len_subset(set_int_range(0, n + 1), as_int.to_set());
        assert(false);
    }
}

proof fn lemma_filter_keeps_all(s: Seq<usize>, keep: spec_fn(usize) -> bool)
    requires
        forall|id: usize| #[trigger] keep(id),
    ensures
        s.filter(keep) == s,
    decreases s.len(),
{
    reveal_with_fuel(Seq::filter, 1);
    if s.len() > 0 {
        lemma_filter_keeps_all(s.drop_last(), keep);
        assert(s.drop_last().push(s.last()) =~= s);
    } else {
        assert(s.filter(keep) =~= s);
    }
}

proof fn lemma_filter_no_duplicates(s: Seq<usize>, keep: spec_fn(usize) -> bool)
    requires
        s.no_duplicates(),
    ensures
        s.filter(keep).no_duplicates(),
    decreases s.len(),
{
    reveal_with_fuel(Seq::filter, 1);
    if s.len() > 0 {
        let p = s.drop_last();
        assert(p.no_duplicates());
        lemma_filter_no_duplicates(p, keep);
        let f = p.filter(keep);
        if keep(s.last()) {
            assert(!f.contains(s.last())) by {
                if f.contains(s.last()) {
                    p.lemma_filter_contains_rev(keep, s.last());
                    let k = choose|k: int| 0 <= k < p.len() && p[k] == s.last();
                    assert(s[k] == s[s.len() - 1]);
                }
            }
            assert forall|a: int, b: int|
                0 <= a < b < f.len() + 1 implies f.push(s.last())[a] != f.push(s.last())[b] by {
                if b == f.len() {
                    assert(f.contains(f[a]));
                }
            }
        }
    }
}

/// The id a new session gets: `candidate` when it was never handed out, else
/// the smallest id that never was.
pub open spec fn fresh_id_spec(ids: Seq<usize>, candidate: usize) -> usize {
    if !ids.contains(candidate) {
        candidate
    } else {
        (choose|k: usize| !ids.contains(k) && forall|j: usize| j < k ==> ids.contains(j))
    }
}

/// The game server: the connected sessions, each with its sink, every id
/// handed out so far, and the rooms.
pub struct GameServer<S> {
    sessions: Vec<(usize, S)>,
    issued: Vec<usize>,
    rooms: RoomMap,
}

impl<S> GameServer<S> {
    /// The ids of the connected sessions, in order of connection.
    pub closed spec fn session_ids(&self) -> Seq<usize> {
        self.sessions@.map_values(|e: (usize, S)| e.0)
    }

    /// The sessions with their sinks.
    pub closed spec fn sinks(&self) -> Seq<(usize, S)> {
        self.sessions@
    }

    /// Every id handed out so far, connected or not.
    pub closed spec fn issued_ids(&self) -> Seq<usize> {
        self.issued@
    }

    /// The room directory.
    pub closed spec fn rooms_view(&self) -> Seq<RoomEntry> {
        self.rooms@
    }

    /// No two sessions share an id, and the directory is well formed.
    pub closed spec fn wf(&self) -> bool {
        &&& self.session_ids().no_duplicates()
        &&& forall|k: int|
            0 <= k < self.session_ids().len() ==> self.issued_ids().contains(
                #[trigger] self.session_ids()[k],
            )
        &&& self.rooms.wf()
    }

    /// A server with no sessions and no rooms.
    pub fn new() -> (r: GameServer<S>)
        ensures
            r.wf(),
            r.session_ids() == Seq::<usize>::empty(),
            r.sinks() == Seq::<(usize, S)>::empty(),
            r.issued_ids() == Seq::<usize>::empty(),
            r.rooms_view() == Seq::<RoomEntry>::empty(),
    {
        let r = GameServer { sessions: Vec::new(), issued: Vec::new(), rooms: RoomMap::new() };
        assert(r.session_ids() =~= Seq::<usize>::empty());
        r
    }

    fn is_registered(&self, id: usize) -> (r: Option<usize>)
        ensures
            r is None <==> !self.session_ids().contains(id),
            r matches Some(i) ==> i < self.session_ids().len() && self.session_ids()[i as int] == id,
    {
        let mut i: usize = 0;
        while i < self.sessions.len()
            invariant
                i <= self.sessions@.len(),
                self.session_ids().len() == self.sessions@.len(),
                forall|j: int| 0 <= j < i ==> self.session_ids()[j] != id,
            decreases self.sessions@.len() - i,
        {
            if self.sessions[i].0 == id {
                assert(self.session_ids()[i as int] == id);
                return Some(i);
            }
            i += 1;
        }
        None
    }

    fn was_issued(&self, id: usize) -> (r: bool)
        ensures
            r == self.issued_ids().contains(id),
    {
        let mut i: usize = 0;
        while i < self.issued.len()
            invariant
                i <= self.issued@.len(),
                forall|j: int| 0 <= j < i ==> self.issued@[j] != id,
            decreases self.issued@.len() - i,
        {
            if self.issued[i] == id {
                return true;
            }
            i += 1;
        }
        false
    }

    /// The id a new session gets, as `fresh_id_spec` says: never one that was
    /// handed out before.
    pub fn fresh_id(&self, candidate: usize) -> (r: usize)
        ensures
            r == fresh_id_spec(self.issued_ids(), candidate),
            !self.issued_ids().contains(r),
    {
        if !self.was_issued(candidate) {
            return candidate;
        }
        let ghost ids = self.issued_ids();
        let n = self.issued.len();
        proof {
            assert(n == ids.len());
            lemma_free_id(ids);
        }
        let mut k: usize = 0;
        while k < n
            invariant
                k <= n,
                n == ids.len(),
                ids == self.issued_ids(),
                ids.contains(candidate),
                forall|j: usize| j < k ==> ids.contains(j),
                exists|f: usize| k <= f <= n && !#[trigger] ids.contains(f),
            decreases n - k,
        {
            if !self.was_issued(k) {
                proof {
                    assert(!ids.contains(k) && forall|j: usize| j < k ==> ids.contains(j));
                    let w = choose|w: usize| !ids.contains(w) && forall|j: usize| j < w ==> ids.contains(j);
                    if w < k {
                        assert(ids.contains(w));
                    }
                    if w > k {
                        assert(ids.contains(k));
                    }
                    assert(ids.contains(candidate));
                    assert(fresh_id_spec(ids, candidate) == k);
                }
                return k;
            }
            k += 1;
        }
        proof {
            let f = choose|f: usize| k <= f <= n && !#[trigger] ids.contains(f);
            assert(f == n);
            assert(!ids.contains(n) && forall|j: usize| j < n ==> ids.contains(j));
            let w = choose|w: usize| !ids.contains(w) && forall|j: usize| j < w ==> ids.contains(j);
            if w < n {
                assert(ids.contains(w));
            }
            if w > n {
                assert(ids.contains(n));
            }
        }
        n
    }

    /// Registers a new session with its sink: it gets an id that was never
    /// handed out before, drawn at random when the draw is new.
    pub fn connect(&mut self, msg: Connect<S>) -> (r: usize)
        requires
            old(self).wf(),
        ensures
            final(self).wf(),
            !old(self).issued_ids().contains(r),
            !old(self).session_ids().contains(r),
            final(self).issued_ids() == old(self).issued_ids().push(r),
            final(self).session_ids() == old(self).session_ids().push(r),
            final(self).sinks() == old(self).sinks().push((r, msg.addr)),
            final(self).rooms_view() == old(self).rooms_view(),
    {
        let candidate = random_id();
        let id = self.fresh_id(candidate);
        let ghost prev = self.session_ids();
        let ghost prev_issued = self.issued_ids();
        self.sessions.push((id, msg.addr));
        self.issued.push(id);
        assert(self.session_ids() =~= prev.push(id));
        assert forall|k: int|
            0 <= k < self.session_ids().len() implies self.issued_ids().contains(
            #[trigger] self.session_ids()[k],
        ) by {
            if k < prev.len() {
                assert(prev_issued.contains(prev[k]));
                let j = choose|j: int| 0 <= j < prev_issued.len() && prev_issued[j] == prev[k];
                assert(self.issued_ids()[j] == prev[k]);
            } else {
                assert(self.issued_ids()[prev_issued.len() as int] == id);
            }
        }
        assert(!prev.contains(id)) by {
            if prev.contains(id) {
                let k = choose|k: int| 0 <= k < prev.len() && prev[k] == id;
                assert(prev_issued.contains(prev[k]));
            }
        }
        id
    }

    /// The sink of session `id`; `None` when no such session is connected,
    /// and a message for it is then dropped.
    pub fn sink(&self, id: usize) -> (r: Option<&S>)
        ensures
            r is None <==> !self.session_ids().contains(id),
            r matches Some(s) ==> exists|i: int|
                0 <= i < self.sinks().len() && self.sinks()[i] == (id, *s),
    {
        match self.is_registered(id) {
            Some(i) => {
                assert(self.sinks()[i as int] == (id, self.sessions@[i as int].1));
                Some(&self.sessions[i].1)
            },
            None => None,
        }
    }

    /// A session went away: it is unregistered and leaves every room. Nothing
    /// happens for an id that is not connected.
    pub fn disconnect(&mut self, msg: Disconnect)
        requires
            old(self).wf(),
        ensures
            final(self).wf(),
            final(self).issued_ids() == old(self).issued_ids(),
            !old(self).session_ids().contains(msg.id) ==> final(self).session_ids() == old(
                self,
            ).session_ids() && final(self).sinks() == old(self).sinks() && final(self).rooms_view()
                == old(self).rooms_view(),
            old(self).session_ids().contains(msg.id) ==> !final(self).session_ids().contains(msg.id)
                && final(self).rooms_view() == leave_rooms(old(self).rooms_view(), msg.id)
                && exists|i: int|
                0 <= i < old(self).session_ids().len() && old(self).session_ids()[i] == msg.id
                    && final(self).session_ids() == old(self).session_ids().remove(i)
                    && final(self).sinks() == old(self).sinks().remove(i),
    {
        match self.is_registered(msg.id) {
            Some(i) => {
                let ghost prev = self.session_ids();
                let _ = self.sessions.remove(i);
                assert(self.session_ids() =~= prev.remove(i as int));
                assert forall|j: int| 0 <= j < self.session_ids().len() implies self.session_ids()[j]
                    != msg.id by {
                    if j < i {
                        assert(prev[j] != prev[i as int]);
                    } else {
                        assert(prev[j + 1] != prev[i as int]);
                    }
                }
                assert forall|k: int|
                    0 <= k < self.session_ids().len() implies self.issued_ids().contains(
                    #[trigger] self.session_ids()[k],
                ) by {
                    if k < i {
                        assert(self.session_ids()[k] == prev[k]);
                    } else {
                        assert(self.session_ids()[k] == prev[k + 1]);
                    }
                }
                self.rooms.leave(msg.id);
            },
            None => {},
        }
    }

    /// Creates a room, as `RoomMap::make_room` says.
    pub fn make_room(&mut self, msg: MakeRoom) -> (r: Result<(), ReversiError>)
        requires
            old(self).wf(),
        ensures
            final(self).wf(),
            final(self).session_ids() == old(self).session_ids(),
            final(self).sinks() == old(self).sinks(),
            final(self).issued_ids() == old(self).issued_ids(),
            has_room(old(self).rooms_view(), msg.name@) ==> r == Err::<(), ReversiError>(
                ReversiError::RoomAlreadyExists,
            ) && final(self).rooms_view() == old(self).rooms_view(),
            !has_room(old(self).rooms_view(), msg.name@) ==> r is Ok && final(self).rooms_view()
                == old(self).rooms_view().push((msg.name@, fresh_room(msg.uid, msg.uname@, msg.color))),
    {
        self.rooms.make_room(msg.name, msg.uid, msg.uname, msg.color)
    }

    /// Seats a second player, as `RoomMap::join` says, and tells each player
    /// of the room the color it plays.
    pub fn join(&mut self, msg: Join) -> (r: Result<Vec<Outbound>, ReversiError>)
        requires
            old(self).wf(),
        ensures
            final(self).wf(),
            final(self).session_ids() == old(self).session_ids(),
            final(self).sinks() == old(self).sinks(),
            final(self).issued_ids() == old(self).issued_ids(),
            !has_room(old(self).rooms_view(), msg.name@) ==> (r matches Err(e) && e
                == ReversiError::RoomNotFound && final(self).rooms_view() == old(self).rooms_view()),
            has_room(old(self).rooms_view(), msg.name@) && !joinable(
                room_named(old(self).rooms_view(), msg.name@),
            ) ==> (r matches Err(e) && e == ReversiError::RoomFull && final(self).rooms_view() == old(
                self,
            ).rooms_view()),
            has_room(old(self).rooms_view(), msg.name@) && joinable(
                room_named(old(self).rooms_view(), msg.name@),
            ) ==> (r matches Ok(out) && final(self).rooms_view() == join_rooms(
                old(self).rooms_view(),
                msg.name@,
                msg.uid,
                msg.uname@,
            ) && ({
                let (black, white) = join_ids(room_named(old(self).rooms_view(), msg.name@), msg.uid);
                &&& out@.len() == 2
                &&& out@[0].to == black && is_game_start(out@[0].message, Color::Black)
                &&& out@[1].to == white && is_game_start(out@[1].message, Color::White)
            })),
    {
        match self.rooms.join(msg.name, msg.uid, msg.uname) {
            Ok((black_id, white_id)) => {
                let mut out: Vec<Outbound> = Vec::new();
                out.push(
                    Outbound {
                        to: black_id,
                        message: ReversiMessage {
                            kind: ReversiMessageKind::GameStart,
                            body: Some(ReversiMessageBody::GameStart(Color::Black)),
                        },
                    },
                );
                out.push(
                    Outbound {
                        to: white_id,
                        message: ReversiMessage {
                            kind: ReversiMessageKind::GameStart,
                            body: Some(ReversiMessageBody::GameStart(Color::White)),
                        },
                    },
                );
                Ok(out)
            },
            Err(e) => Err(e),
        }
    }

    /// The message for every session of room `room` but `skip_id`, in the
    /// order the sessions joined; nothing when there is no such room.
    pub fn send_reversi_message_room(
        &self,
        room: &String,
        message: &ReversiMessage,
        skip_id: Option<usize>,
    ) -> (r: Vec<Outbound>)
        requires
            self.wf(),
        ensures
            !has_room(self.rooms_view(), room@) ==> r@.len() == 0,
            has_room(self.rooms_view(), room@) ==> ({
                let targets = room_named(self.rooms_view(), room@).sessions.filter(
                    |id: usize| skip_id != Some(id),
                );
                &&& r@.len() == targets.len()
                &&& forall|j: int|
                    0 <= j < r@.len() ==> (#[trigger] r@[j]).to == targets[j] && same_message(
                        r@[j].message,
                        *message,
                    )
            }),
            forall|i: int, j: int| 0 <= i < j < r@.len() ==> r@[i].to != r@[j].to,
    {
        let mut out: Vec<Outbound> = Vec::new();
        match self.rooms.get(room) {
            None => {},
            Some(found) => {
                let sessions = found.sessions();
                let ghost keep = |id: usize| skip_id != Some(id);
                let mut i: usize = 0;
                while i < sessions.len()
                    invariant
                        i <= sessions@.len(),
                        out@.len() == sessions@.subrange(0, i as int).filter(keep).len(),
                        forall|j: int|
                            0 <= j < out@.len() ==> (#[trigger] out@[j]).to == sessions@.subrange(
                                0,
                                i as int,
                            ).filter(keep)[j] && same_message(out@[j].message, *message),
                        keep == (|id: usize| skip_id != Some(id)),
                    decreases sessions@.len() - i,
                {
                    let id = sessions[i];
                    proof {
                        sessions@.subrange(0, i as int).lemma_filter_push(id, keep);
                        assert(sessions@.subrange(0, i + 1) =~= sessions@.subrange(0, i as int).push(id));
                    }
                    let skip = match skip_id {
                        Some(s) => s == id,
                        None => false,
                    };
                    if !skip {
                        out.push(Outbound { to: id, message: message.duplicate() });
                    }
                    i += 1;
                }
                assert(sessions@.subrange(0, sessions@.len() as int) =~= sessions@);
                proof {
                    let rooms = self.rooms@;
                    let k = choose|k: int| 0 <= k < rooms.len() && #[trigger] rooms[k].0 == room@;
                    assert(room_wf(rooms[k].1));
                    lemma_filter_no_duplicates(sessions@, keep);
                    let t = sessions@.filter(keep);
                    assert forall|a: int, b: int| 0 <= a < b < out@.len() implies out@[a].to
                        != out@[b].to by {
                        assert(out@[a].to == t[a] && out@[b].to == t[b]);
                    }
                }
            },
        }
        out
    }

    /// Plays a move in the client's room, as `RoomMap::play` says. When it is
    /// played, every session of the room gets the new state of the game, or,
    /// when the game is over, its final state and its winner. A refused move
    /// sends nothing.
    pub fn play(&mut self, msg: ClientReversiMoveMessage) -> (r: Result<Vec<Outbound>, ReversiError>)
        requires
            old(self).wf(),
        ensures
            final(self).wf(),
            final(self).session_ids() == old(self).session_ids(),
            final(self).sinks() == old(self).sinks(),
            final(self).issued_ids() == old(self).issued_ids(),
            !has_room(old(self).rooms_view(), msg.room@) ==> (r matches Err(e) && e
                == ReversiError::RoomNotFound && final(self).rooms_view() == old(self).rooms_view()),
            has_room(old(self).rooms_view(), msg.room@) ==> match play_spec(
                room_named(old(self).rooms_view(), msg.room@).game,
                msg.reversi_move,
            ) {
                Err(e) => r matches Err(f) && f == e && final(self).rooms_view() == old(
                    self,
                ).rooms_view(),
                Ok(g) => r matches Ok(out) && final(self).rooms_view() == replace_game(
                    old(self).rooms_view(),
                    msg.room@,
                    g,
                ) && ({
                    let targets = room_named(old(self).rooms_view(), msg.room@).sessions;
                    &&& out@.len() == targets.len()
                    &&& forall|a: int, b: int| 0 <= a < b < out@.len() ==> out@[a].to != out@[b].to
                    &&& forall|j: int|
                        0 <= j < out@.len() ==> (#[trigger] out@[j]).to == targets[j] && if g.is_over {
                            is_game_over(out@[j].message, g)
                        } else {
                            is_game_update(out@[j].message, g)
                        }
                }),
            },
    {
        let ghost before = self.rooms@;
        match self.rooms.play(&msg.room, msg.reversi_move) {
            Err(e) => Err(e),
            Ok(()) => {
                proof {
                    let g = play_spec(room_named(before, msg.room@).game, msg.reversi_move)->Ok_0;
                    lemma_replace_game(before, msg.room@, g);
                }
                let found = self.rooms.get(&msg.room);
                match found {
                    Some(room) => {
                        let game = room.game();
                        let message = if game.is_over {
                            ReversiMessage {
                                kind: ReversiMessageKind::GameOver,
                                body: Some(
                                    ReversiMessageBody::GameOver((Game::from_game(game), game.winner())),
                                ),
                            }
                        } else {
                            ReversiMessage {
                                kind: ReversiMessageKind::Game,
                                body: Some(ReversiMessageBody::Game(Game::from_game(game))),
                            }
                        };
                        let out = self.send_reversi_message_room(&msg.room, &message, None);
                        proof {
                            lemma_filter_keeps_all(room@.sessions, |id: usize| None::<usize> != Some(id));
                        }
                        Ok(out)
                    },
                    None => Ok(Vec::new()),
                }
            },
        }
    }

    /// A copy of every room, with its name.
    pub fn list_rooms(&self, _msg: ListRooms) -> (r: Vec<(String, Room)>)
        requires
            self.wf(),
        ensures
            r@.len() == self.rooms_view().len(),
            forall|j: int|
                0 <= j < r@.len() ==> ((#[trigger] r@[j]).0@, r@[j].1@) == self.rooms_view()[j],
    {
        self.rooms.list_rooms()
    }
}

} // verus!
