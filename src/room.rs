//! The room directory: who plays in which room, and the game each room holds.

use vstd::prelude::*;
use crate::board::Color;
use crate::error::ReversiError;
use crate::board::Move;
use crate::game::{Game, GameView, initial_game, play_spec};

verus! {

/// A player as plain values.
pub struct PlayerView {
    pub id: usize,
    pub name: Seq<char>,
    pub color: Option<Color>,
}

/// A seated player. The color stays unset until the room is full.
#[derive(Debug)]
pub struct Player {
    pub id: usize,
    pub name: String,
    pub color: Option<Color>,
}

impl View for Player {
    type V = PlayerView;

    open spec fn view(&self) -> PlayerView {
        PlayerView { id: self.id, name: self.name@, color: self.color }
    }
}

pub open spec fn seat_view(p: Option<Player>) -> Option<PlayerView> {
    match p {
        Some(q) => Some(q@),
        None => None,
    }
}

impl Player {
    pub fn is_black(&self) -> (r: bool)
        ensures
            r == (self.color == Some(Color::Black)),
    {
        match self.color {
            Some(color) => color.is_black(),
            None => false,
        }
    }

    pub fn is_white(&self) -> (r: bool)
        ensures
            r == (self.color == Some(Color::White)),
    {
        match self.color {
            Some(color) => color.is_white(),
            None => false,
        }
    }

    /// A copy of this player.
    pub fn snapshot(&self) -> (r: Player)
        ensures
            r@ == self@,
    {
        Player { id: self.id, name: self.name.clone(), color: self.color }
    }
}

fn copy_seat(p: &Option<Player>) -> (r: Option<Player>)
    ensures
        seat_view(r) == seat_view(*p),
{
    match p {
        Some(q) => Some(q.snapshot()),
        None => None,
    }
}

/// A room as plain values.
pub struct RoomView {
    pub sessions: Seq<usize>,
    pub game: GameView,
    pub player1: Option<PlayerView>,
    pub player2: Option<PlayerView>,
}

/// `s` with every occurrence of `uid` removed.
pub open spec fn without(s: Seq<usize>, uid: usize) -> Seq<usize>
    decreases s.len(),
{
    if s.len() == 0 {
        s
    } else if s.last() == uid {
        without(s.drop_last(), uid)
    } else {
        without(s.drop_last(), uid).push(s.last())
    }
}

/// The seat, emptied when `uid` holds it.
pub open spec fn unseat(p: Option<PlayerView>, uid: usize) -> Option<PlayerView> {
    match p {
        Some(q) => if q.id == uid {
            None
        } else {
            p
        },
        None => None,
    }
}

/// The room once session `uid` has left it: out of the sessions and out of any seat.
pub open spec fn strip(r: RoomView, uid: usize) -> RoomView {
    RoomView {
        sessions: without(r.sessions, uid),
        game: r.game,
        player1: unseat(r.player1, uid),
        player2: unseat(r.player2, uid),
    }
}

/// The color the first player ends up with when the room fills.
pub open spec fn first_color(r: RoomView) -> Color {
    match r.player1 {
        Some(p) => match p.color {
            Some(c) => c,
            None => Color::Black,
        },
        None => Color::Black,
    }
}

/// The room once `uid` (named `uname`) takes the second seat: the second player
/// gets the color opposite to the first, black and white when the first had
/// none, and the game starts.
pub open spec fn seat(r: RoomView, uid: usize, uname: Seq<char>) -> RoomView {
    let c1 = first_color(r);
    RoomView {
        sessions: if r.sessions.contains(uid) {
            r.sessions
        } else {
            r.sessions.push(uid)
        },
        game: GameView { is_start: true, ..r.game },
        player1: match r.player1 {
            Some(p) => Some(PlayerView { color: Some(c1), ..p }),
            None => None,
        },
        player2: Some(PlayerView { id: uid, name: uname, color: Some(c1.opposite()) }),
    }
}

/// The id of the seated player who holds color `c`, the first seat first.
pub open spec fn holder(r: RoomView, c: Color) -> Option<usize> {
    match (r.player1, r.player2) {
        (Some(p), _) if p.color == Some(c) => Some(p.id),
        (_, Some(p)) if p.color == Some(c) => Some(p.id),
        _ => None,
    }
}

/// A new room: its owner is the only session and holds the first seat.
pub open spec fn fresh_room(uid: usize, uname: Seq<char>, color: Option<Color>) -> RoomView {
    RoomView {
        sessions: seq![uid],
        game: initial_game(),
        player1: Some(PlayerView { id: uid, name: uname, color }),
        player2: None,
    }
}

/// One room of the game.
#[derive(Debug)]
pub struct Room {
    sessions: Vec<usize>,
    game: Game,
    player1: Option<Player>,
    player2: Option<Player>,
}

impl View for Room {
    type V = RoomView;

    closed spec fn view(&self) -> RoomView {
        RoomView {
            sessions: self.sessions@,
            game: self.game@,
            player1: seat_view(self.player1),
            player2: seat_view(self.player2),
        }
    }
}

fn contains_id(v: &Vec<usize>, uid: usize) -> (r: bool)
    ensures
        r == v@.contains(uid),
{
    let mut i: usize = 0;
    while i < v.len()
        invariant
            i <= v@.len(),
            forall|j: int| 0 <= j < i ==> v@[j] != uid,
        decreases v@.len() - i,
    {
        if v[i] == uid {
            return true;
        }
        i += 1;
    }
    false
}

fn remove_id(v: &Vec<usize>, uid: usize) -> (r: Vec<usize>)
    ensures
        r@ == without(v@, uid),
{
    let mut r: Vec<usize> = Vec::new();
    let mut i: usize = 0;
    while i < v.len()
        invariant
            i <= v@.len(),
            r@ == without(v@.subrange(0, i as int), uid),
        decreases v@.len() - i,
    {
        assert(v@.subrange(0, i + 1).drop_last() =~= v@.subrange(0, i as int));
        if v[i] != uid {
            r.push(v[i]);
        }
        i += 1;
    }
    assert(v@.subrange(0, v@.len() as int) =~= v@);
    r
}

fn unseat_id(p: Option<Player>, uid: usize) -> (r: Option<Player>)
    ensures
        seat_view(r) == unseat(seat_view(p), uid),
{
    match p {
        Some(q) => if q.id == uid {
            None
        } else {
            Some(q)
        },
        None => None,
    }
}

impl Room {
    /// An empty room with a fresh game.
    pub fn new() -> (r: Room)
        ensures
            r@ == (RoomView {
                sessions: Seq::empty(),
                game: initial_game(),
                player1: None,
                player2: None,
            }),
    {
        Room { sessions: Vec::new(), game: Game::new(), player1: None, player2: None }
    }

    /// The id of the player holding black, if any.
    pub fn black(&self) -> (r: Option<usize>)
        ensures
            r == holder(self@, Color::Black),
    {
        if let Some(first) = &self.player1 {
            if first.is_black() {
                return Some(first.id);
            }
        }
        if let Some(second) = &self.player2 {
            if second.is_black() {
                return Some(second.id);
            }
        }
        None
    }

    /// The id of the player holding white, if any.
    pub fn white(&self) -> (r: Option<usize>)
        ensures
            r == holder(self@, Color::White),
    {
        if let Some(first) = &self.player1 {
            if first.is_white() {
                return Some(first.id);
            }
        }
        if let Some(second) = &self.player2 {
            if second.is_white() {
                return Some(second.id);
            }
        }
        None
    }

    /// The sessions connected to this room.
    pub fn sessions(&self) -> (r: &Vec<usize>)
        ensures
            r@ == self@.sessions,
    {
        &self.sessions
    }

    /// The game played in this room.
    pub fn game(&self) -> (r: &Game)
        ensures
            r@ == self@.game,
    {
        &self.game
    }

    pub fn player1(&self) -> (r: &Option<Player>)
        ensures
            seat_view(*r) == self@.player1,
    {
        &self.player1
    }

    pub fn player2(&self) -> (r: &Option<Player>)
        ensures
            seat_view(*r) == self@.player2,
    {
        &self.player2
    }

    /// A copy of this room.
    pub fn snapshot(&self) -> (r: Room)
        ensures
            r@ == self@,
    {
        let sessions = self.sessions.clone();
        assert(sessions@ =~= self.sessions@);
        Room {
            sessions,
            game: self.game,
            player1: copy_seat(&self.player1),
            player2: copy_seat(&self.player2),
        }
    }

    /// This room once `uid` (named `uname`) takes the second seat.
    fn seated(self, uid: usize, uname: String) -> (r: Room)
        ensures
            r@ == seat(self@, uid, uname@),
    {
        let c1 = match &self.player1 {
            Some(p) => match p.color {
                Some(c) => c,
                None => Color::Black,
            },
            None => Color::Black,
        };
        let mut sessions = self.sessions;
        if !contains_id(&sessions, uid) {
            sessions.push(uid);
        }
        let mut game = self.game;
        game.is_start = true;
        let player1 = match self.player1 {
            Some(p) => Some(Player { id: p.id, name: p.name, color: Some(c1) }),
            None => None,
        };
        let c2 = match c1 {
            Color::Black => Color::White,
            Color::White => Color::Black,
        };
        Room { sessions, game, player1, player2: Some(Player { id: uid, name: uname, color: Some(c2) }) }
    }

    /// This room once session `uid` has left it.
    fn stripped(self, uid: usize) -> (r: Room)
        ensures
            r@ == strip(self@, uid),
    {
        Room {
            sessions: remove_id(&self.sessions, uid),
            game: self.game,
            player1: unseat_id(self.player1, uid),
            player2: unseat_id(self.player2, uid),
        }
    }
}

/// A directory entry as plain values: the room's name and the room.
pub type RoomEntry = (Seq<char>, RoomView);

/// The directory after session `uid` leaves every room, or, when `target`
/// names a room, after `uid` (named `uname`) takes that room's second seat and
/// leaves every other room. A room other than the target that is left without
/// sessions is removed.
pub open spec fn regroup(
    rooms: Seq<RoomEntry>,
    target: Option<Seq<char>>,
    uid: usize,
    uname: Seq<char>,
) -> Seq<RoomEntry>
    decreases rooms.len(),
{
    if rooms.len() == 0 {
        rooms
    } else {
        let rest = regroup(rooms.drop_last(), target, uid, uname);
        let e = rooms.last();
        if target == Some(e.0) {
            rest.push((e.0, seat(e.1, uid, uname)))
        } else if strip(e.1, uid).sessions.len() > 0 {
            rest.push((e.0, strip(e.1, uid)))
        } else {
            rest
        }
    }
}

/// The directory after session `uid` disconnects.
pub open spec fn leave_rooms(rooms: Seq<RoomEntry>, uid: usize) -> Seq<RoomEntry> {
    regroup(rooms, None, uid, Seq::empty())
}

/// The directory after `uid` (named `uname`) joins room `name`.
pub open spec fn join_rooms(rooms: Seq<RoomEntry>, name: Seq<char>, uid: usize, uname: Seq<char>) -> Seq<
    RoomEntry,
> {
    regroup(rooms, Some(name), uid, uname)
}

pub open spec fn has_room(rooms: Seq<RoomEntry>, name: Seq<char>) -> bool {
    exists|i: int| 0 <= i < rooms.len() && #[trigger] rooms[i].0 == name
}

/// The room called `name`.
pub open spec fn room_named(rooms: Seq<RoomEntry>, name: Seq<char>) -> RoomView
    recommends
        has_room(rooms, name),
{
    rooms[choose|i: int| 0 <= i < rooms.len() && #[trigger] rooms[i].0 == name].1
}

/// Whether a room can take a second player: its second seat is free.
pub open spec fn joinable(r: RoomView) -> bool {
    r.player2 is None
}

/// The ids of the black and the white player once `uid` has joined room `r`.
pub open spec fn join_ids(r: RoomView, uid: usize) -> (usize, usize) {
    let first = r.player1->Some_0;
    if first_color(r) == Color::Black {
        (first.id, uid)
    } else {
        (uid, first.id)
    }
}

pub open spec fn unique_names(rooms: Seq<RoomEntry>) -> bool {
    forall|i: int, j: int| 0 <= i < j < rooms.len() ==> rooms[i].0 != rooms[j].0
}

/// Whether session `s` holds a seat of room `r`.
pub open spec fn seated_in(r: RoomView, s: usize) -> bool {
    ||| (r.player1 matches Some(p) && p.id == s)
    ||| (r.player2 matches Some(p) && p.id == s)
}

/// A room as the directory keeps it: at least one session, no session twice,
/// every session in a seat, and the first seat held while the second is free.
pub open spec fn room_wf(r: RoomView) -> bool {
    &&& r.sessions.len() > 0
    &&& r.sessions.no_duplicates()
    &&& forall|k: int| 0 <= k < r.sessions.len() ==> seated_in(r, #[trigger] r.sessions[k])
    &&& (r.player2 is None ==> r.player1 is Some)
}

/// Every room of the directory is well formed, and no two rooms share a name.
pub open spec fn directory_wf(rooms: Seq<RoomEntry>) -> bool {
    &&& unique_names(rooms)
    &&& forall|i: int| 0 <= i < rooms.len() ==> room_wf((#[trigger] rooms[i]).1)
}

/// Whether the room that `target` names, if any, has its second seat free.
pub open spec fn target_joinable(rooms: Seq<RoomEntry>, target: Option<Seq<char>>) -> bool {
    forall|i: int| 0 <= i < rooms.len() && target == Some(#[trigger] rooms[i].0) ==> joinable(rooms[i].1)
}

proof fn lemma_without_members(s: Seq<usize>, uid: usize)
    ensures
        forall|x: usize| #[trigger] without(s, uid).contains(x) <==> (s.contains(x) && x != uid),
        s.no_duplicates() ==> without(s, uid).no_duplicates(),
    decreases s.len(),
{
    if s.len() > 0 {
        let p = s.drop_last();
        lemma_without_members(p, uid);
        let w = without(p, uid);
        assert forall|x: usize| s.contains(x) <==> (p.contains(x) || x == s.last()) by {
            if s.contains(x) {
                let k = choose|k: int| 0 <= k < s.len() && s[k] == x;
                if k < s.len() - 1 {
                    assert(p[k] == x);
                }
            }
            if p.contains(x) {
                let k = choose|k: int| 0 <= k < p.len() && p[k] == x;
                assert(s[k] == x);
            }
            if x == s.last() {
                assert(s[s.len() - 1] == x);
            }
        }
        if s.last() != uid {
            assert forall|x: usize| w.push(s.last()).contains(x) <==> (w.contains(x) || x == s.last()) by {
                if w.push(s.last()).contains(x) {
                    let k = choose|k: int| 0 <= k < w.len() + 1 && w.push(s.last())[k] == x;
                    if k < w.len() {
                        assert(w[k] == x);
                    }
                }
                if w.contains(x) {
                    let k = choose|k: int| 0 <= k < w.len() && w[k] == x;
                    assert(w.push(s.last())[k] == x);
                }
                if x == s.last() {
                    assert(w.push(s.last())[w.len() as int] == x);
                }
            }
            if s.no_duplicates() {
                assert(p.no_duplicates());
                assert(!p.contains(s.last())) by {
                    if p.contains(s.last()) {
                        let k = choose|k: int| 0 <= k < p.len() && p[k] == s.last();
                        assert(s[k] == s[s.len() - 1]);
                    }
                }
                assert(!w.contains(s.last()));
                assert forall|i: int, j: int|
                    0 <= i < j < w.len() + 1 implies w.push(s.last())[i] != w.push(s.last())[j] by {
                    if j == w.len() {
                        assert(w.contains(w[i]));
                    }
                }
            }
            assert(without(s, uid) == w.push(s.last()));
        } else {
            if s.no_duplicates() {
                assert(p.no_duplicates());
            }
            assert(without(s, uid) == w);
        }
        assert forall|x: usize| #[trigger] without(s, uid).contains(x) <==> (s.contains(x) && x != uid) by {
            assert(s.contains(x) <==> (p.contains(x) || x == s.last()));
            assert(w.contains(x) <==> (p.contains(x) && x != uid));
        }
    }
}

proof fn lemma_strip_wf(r: RoomView, uid: usize)
    requires
        room_wf(r),
        strip(r, uid).sessions.len() > 0,
    ensures
        room_wf(strip(r, uid)),
{
    let t = strip(r, uid);
    lemma_without_members(r.sessions, uid);
    assert forall|k: int| 0 <= k < t.sessions.len() implies seated_in(t, #[trigger] t.sessions[k]) by {
        let x = t.sessions[k];
        assert(t.sessions.contains(x));
        let j = choose|j: int| 0 <= j < r.sessions.len() && r.sessions[j] == x;
        assert(seated_in(r, r.sessions[j]));
    }
    let x = t.sessions[0];
    assert(seated_in(t, t.sessions[0]));
}

proof fn lemma_seat_wf(r: RoomView, uid: usize, uname: Seq<char>)
    requires
        room_wf(r),
        joinable(r),
    ensures
        room_wf(seat(r, uid, uname)),
{
    let t = seat(r, uid, uname);
    if !r.sessions.contains(uid) {
        assert forall|i: int, j: int|
            0 <= i < j < t.sessions.len() implies t.sessions[i] != t.sessions[j] by {
            if j == r.sessions.len() {
                assert(r.sessions[i] == t.sessions[i]);
            }
        }
        assert forall|k: int| 0 <= k < t.sessions.len() implies seated_in(t, #[trigger] t.sessions[k]) by {
            if k < r.sessions.len() {
                assert(seated_in(r, r.sessions[k]));
                assert(t.sessions[k] == r.sessions[k]);
            }
        }
    } else {
        assert forall|k: int| 0 <= k < t.sessions.len() implies seated_in(t, #[trigger] t.sessions[k]) by {
            assert(seated_in(r, r.sessions[k]));
        }
    }
}

pub open spec fn entry_view(e: (String, Room)) -> RoomEntry {
    (e.0@, e.1@)
}

/// The directory with the game of room `name` replaced by `g`.
pub open spec fn replace_game(rooms: Seq<RoomEntry>, name: Seq<char>, g: GameView) -> Seq<RoomEntry> {
    rooms.map_values(
        |e: RoomEntry|
            if e.0 == name {
                (e.0, RoomView { game: g, ..e.1 })
            } else {
                e
            },
    )
}

/// Replacing the game of room `name` changes that room's game and nothing else.
pub proof fn lemma_replace_game(rooms: Seq<RoomEntry>, name: Seq<char>, g: GameView)
    requires
        unique_names(rooms),
        has_room(rooms, name),
    ensures
        has_room(replace_game(rooms, name, g), name),
        room_named(replace_game(rooms, name, g), name) == (RoomView {
            game: g,
            ..room_named(rooms, name)
        }),
{
    let res = replace_game(rooms, name, g);
    let i = choose|i: int| 0 <= i < rooms.len() && #[trigger] rooms[i].0 == name;
    assert(res[i].0 == name);
    let k = choose|k: int| 0 <= k < res.len() && #[trigger] res[k].0 == name;
    assert(rooms[k].0 == name);
    if k < i {
        assert(rooms[k].0 != rooms[i].0);
    }
    if k > i {
        assert(rooms[i].0 != rooms[k].0);
    }
}

/// Regrouping keeps names, in order, and yields a well-formed directory.
proof fn lemma_regroup(rooms: Seq<RoomEntry>, target: Option<Seq<char>>, uid: usize, uname: Seq<char>)
    requires
        directory_wf(rooms),
        target_joinable(rooms, target),
    ensures
        ({
            let res = regroup(rooms, target, uid, uname);
            &&& directory_wf(res)
            &&& forall|j: int|
                0 <= j < res.len() ==> exists|i: int|
                    0 <= i < rooms.len() && #[trigger] rooms[i].0 == (#[trigger] res[j]).0
        }),
    decreases rooms.len(),
{
    if rooms.len() > 0 {
        let prev = rooms.drop_last();
        assert(unique_names(prev));
        assert forall|i: int| 0 <= i < prev.len() implies room_wf((#[trigger] prev[i]).1) by {
            assert(prev[i] == rooms[i]);
        }
        assert forall|i: int| 0 <= i < prev.len() && target == Some(#[trigger] prev[i].0) implies joinable(
            prev[i].1,
        ) by {
            assert(prev[i] == rooms[i]);
        }
        lemma_regroup(prev, target, uid, uname);
        assert(room_wf(rooms[rooms.len() - 1].1));
        let rest = regroup(prev, target, uid, uname);
        let res = regroup(rooms, target, uid, uname);
        let e = rooms.last();
        assert forall|j: int| 0 <= j < rest.len() implies rest[j].0 != e.0 by {
            let i = choose|i: int| 0 <= i < prev.len() && #[trigger] prev[i].0 == rest[j].0;
            assert(rooms[i].0 == prev[i].0);
        }
        assert forall|j: int| 0 <= j < res.len() implies exists|i: int|
            0 <= i < rooms.len() && #[trigger] rooms[i].0 == (#[trigger] res[j]).0 by {
            if j < rest.len() {
                let i = choose|i: int| 0 <= i < prev.len() && #[trigger] prev[i].0 == rest[j].0;
                assert(rooms[i].0 == res[j].0);
            } else {
                assert(rooms[rooms.len() - 1].0 == res[j].0);
            }
        }
        if target == Some(e.0) {
            assert(joinable(rooms[rooms.len() - 1].1));
            lemma_seat_wf(e.1, uid, uname);
        } else if strip(e.1, uid).sessions.len() > 0 {
            lemma_strip_wf(e.1, uid);
        }
    }
}

proof fn lemma_without_idempotent(s: Seq<usize>, uid: usize)
    ensures
        without(without(s, uid), uid) == without(s, uid),
    decreases s.len(),
{
    if s.len() > 0 {
        lemma_without_idempotent(s.drop_last(), uid);
        let w = without(s.drop_last(), uid);
        if s.last() != uid {
            assert(w.push(s.last()).drop_last() =~= w);
        }
    }
}

/// Removing `a` and then `b` from a sequence that holds nothing else leaves it empty.
proof fn lemma_without_both(s: Seq<usize>, a: usize, b: usize)
    requires
        forall|k: int| 0 <= k < s.len() ==> s[k] == a || s[k] == b,
    ensures
        without(without(s, a), b).len() == 0,
    decreases s.len(),
{
    if s.len() > 0 {
        let p = s.drop_last();
        assert forall|k: int| 0 <= k < p.len() implies p[k] == a || p[k] == b by {
            assert(p[k] == s[k]);
        }
        lemma_without_both(p, a, b);
        let w = without(p, a);
        if s.last() != a {
            assert(w.push(s.last()).drop_last() =~= w);
        }
    }
}

/// Each room left after session `uid` leaves is a room of the directory
/// before, with `uid` stripped out, and still has a session.
proof fn lemma_leave_entries(rooms: Seq<RoomEntry>, uid: usize)
    ensures
        ({
            let res = leave_rooms(rooms, uid);
            forall|j: int|
                0 <= j < res.len() ==> (#[trigger] res[j]).1.sessions.len() > 0 && exists|i: int|
                    0 <= i < rooms.len() && #[trigger] rooms[i].0 == res[j].0 && res[j].1 == strip(
                        rooms[i].1,
                        uid,
                    )
        }),
    decreases rooms.len(),
{
    if rooms.len() > 0 {
        let prev = rooms.drop_last();
        lemma_leave_entries(prev, uid);
        let rest = leave_rooms(prev, uid);
        let res = leave_rooms(rooms, uid);
        assert forall|j: int| 0 <= j < res.len() implies (#[trigger] res[j]).1.sessions.len() > 0
            && exists|i: int|
            0 <= i < rooms.len() && #[trigger] rooms[i].0 == res[j].0 && res[j].1 == strip(
                rooms[i].1,
                uid,
            ) by {
            if j < rest.len() {
                assert(res[j] == rest[j]);
                let i = choose|i: int|
                    0 <= i < prev.len() && #[trigger] prev[i].0 == rest[j].0 && rest[j].1 == strip(
                        prev[i].1,
                        uid,
                    );
                assert(rooms[i] == prev[i]);
            } else {
                assert(rooms[rooms.len() - 1] == rooms.last());
            }
        }
    }
}

/// Leaving is idempotent: a session that has left every room can leave again,
/// and nothing changes.
pub proof fn lemma_leave_idempotent(rooms: Seq<RoomEntry>, uid: usize)
    ensures
        leave_rooms(leave_rooms(rooms, uid), uid) == leave_rooms(rooms, uid),
    decreases rooms.len(),
{
    if rooms.len() > 0 {
        let prev = rooms.drop_last();
        lemma_leave_idempotent(prev, uid);
        let rest = leave_rooms(prev, uid);
        let e = rooms.last();
        let r = strip(e.1, uid);
        if r.sessions.len() > 0 {
            let once = rest.push((e.0, r));
            assert(once.drop_last() =~= rest);
            lemma_without_idempotent(e.1.sessions, uid);
            assert(strip(r, uid) == r);
        }
    }
}

/// Once the only sessions of room `name` (`a` and `b`) have both left, the
/// directory holds no room of that name.
pub proof fn lemma_room_gone_after_both_leave(rooms: Seq<RoomEntry>, name: Seq<char>, a: usize, b: usize)
    requires
        forall|i: int|
            0 <= i < rooms.len() && #[trigger] rooms[i].0 == name ==> forall|k: int|
                0 <= k < rooms[i].1.sessions.len() ==> rooms[i].1.sessions[k] == a
                    || rooms[i].1.sessions[k] == b,
    ensures
        !has_room(leave_rooms(leave_rooms(rooms, a), b), name),
{
    let once = leave_rooms(rooms, a);
    let twice = leave_rooms(once, b);
    lemma_leave_entries(rooms, a);
    lemma_leave_entries(once, b);
    if has_room(twice, name) {
        let j = choose|j: int| 0 <= j < twice.len() && #[trigger] twice[j].0 == name;
        let i1 = choose|i: int|
            0 <= i < once.len() && #[trigger] once[i].0 == twice[j].0 && twice[j].1 == strip(
                once[i].1,
                b,
            );
        let i0 = choose|i: int|
            0 <= i < rooms.len() && #[trigger] rooms[i].0 == once[i1].0 && once[i1].1 == strip(
                rooms[i].1,
                a,
            );
        lemma_without_both(rooms[i0].1.sessions, a, b);
    }
}

/// The room directory.
pub struct RoomMap {
    rooms: Vec<(String, Room)>,
}

impl View for RoomMap {
    type V = Seq<RoomEntry>;

    closed spec fn view(&self) -> Seq<RoomEntry> {
        self.rooms@.map_values(|e: (String, Room)| entry_view(e))
    }
}

impl RoomMap {
    pub open spec fn wf(&self) -> bool {
        directory_wf(self@)
    }

    /// An empty directory.
    pub fn new() -> (r: RoomMap)
        ensures
            r@ == Seq::<RoomEntry>::empty(),
            r.wf(),
    {
        let r = RoomMap { rooms: Vec::new() };
        assert(r@ =~= Seq::<RoomEntry>::empty());
        r
    }

    /// How many rooms there are.
    pub fn len(&self) -> (r: usize)
        ensures
            r == self@.len(),
    {
        self.rooms.len()
    }

    /// Where room `name` stands in the directory.
    fn position(&self, name: &String) -> (r: Option<usize>)
        requires
            self.wf(),
        ensures
            r is None <==> !has_room(self@, name@),
            r matches Some(i) ==> i < self@.len() && self@[i as int].0 == name@ && room_named(
                self@,
                name@,
            ) == self@[i as int].1,
    {
        let mut i: usize = 0;
        while i < self.rooms.len()
            invariant
                i <= self@.len(),
                self.wf(),
                self@.len() == self.rooms@.len(),
                forall|j: int| 0 <= j < i ==> self@[j].0 != name@,
            decreases self@.len() - i,
        {
            if self.rooms[i].0 == *name {
                assert(self@[i as int].0 == name@);
                proof {
                    let k = choose|k: int| 0 <= k < self@.len() && #[trigger] self@[k].0 == name@;
                    if k < i {
                        assert(self@[k].0 != self@[i as int].0);
                    }
                    if k > i {
                        assert(self@[i as int].0 != self@[k].0);
                    }
                }
                return Some(i);
            }
            i += 1;
        }
        None
    }

    /// The room called `name`, if there is one.
    pub fn get(&self, name: &String) -> (r: Option<&Room>)
        requires
            self.wf(),
        ensures
            r is None <==> !has_room(self@, name@),
            r matches Some(room) ==> room@ == room_named(self@, name@),
    {
        match self.position(name) {
            Some(i) => Some(&self.rooms[i].1),
            None => None,
        }
    }

    /// Rebuilds the directory as `regroup` says.
    fn regroup_rooms(&mut self, target: Option<&String>, uid: usize, uname: &String)
        requires
            old(self).wf(),
            target_joinable(
                old(self)@,
                match target {
                    Some(t) => Some(t@),
                    None => None,
                },
            ),
        ensures
            final(self)@ == regroup(
                old(self)@,
                match target {
                    Some(t) => Some(t@),
                    None => None,
                },
                uid,
                uname@,
            ),
            final(self).wf(),
    {
        let ghost tv = match target {
            Some(t) => Some(t@),
            None => None::<Seq<char>>,
        };
        let ghost orig = self@;
        proof {
            lemma_regroup(orig, tv, uid, uname@);
        }
        let mut pending: Vec<(String, Room)> = Vec::new();
        std::mem::swap(&mut self.rooms, &mut pending);
        assert(self@ =~= Seq::<RoomEntry>::empty());
        let ghost n = orig.len();
        let ghost mut k: int = 0;
        while pending.len() > 0
            invariant
                0 <= k <= n,
                n == orig.len(),
                pending@.len() == n - k,
                forall|j: int| 0 <= j < n - k ==> entry_view(#[trigger] pending@[j]) == orig[k + j],
                self@ == regroup(orig.subrange(0, k), tv, uid, uname@),
                tv == match target {
                    Some(t) => Some(t@),
                    None => None::<Seq<char>>,
                },
            decreases pending@.len(),
        {
            let ghost prev = self@;
            let (name, room) = pending.remove(0);
            assert(entry_view((name, room)) == orig[k]);
            assert(orig.subrange(0, k + 1).drop_last() =~= orig.subrange(0, k));
            let is_target = match target {
                Some(t) => name == *t,
                None => false,
            };
            if is_target {
                let r = room.seated(uid, uname.clone());
                self.rooms.push((name, r));
                assert(self@ =~= prev.push(entry_view((name, r))));
            } else {
                let r = room.stripped(uid);
                if r.sessions.len() > 0 {
                    self.rooms.push((name, r));
                    assert(self@ =~= prev.push(entry_view((name, r))));
                }
            }
            proof {
                k = k + 1;
            }
        }
        assert(orig.subrange(0, n as int) =~= orig);
    }

    /// Creates room `room_name`, owned by `uid` (named `uname`), who takes the
    /// first seat with the color asked for, if any. Refused when the name is taken.
    pub fn make_room(&mut self, room_name: String, uid: usize, uname: String, color: Option<Color>) -> (r:
        Result<(), ReversiError>)
        requires
            old(self).wf(),
        ensures
            final(self).wf(),
            has_room(old(self)@, room_name@) ==> r == Err::<(), ReversiError>(
                ReversiError::RoomAlreadyExists,
            ) && final(self)@ == old(self)@,
            !has_room(old(self)@, room_name@) ==> r is Ok && final(self)@ == old(self)@.push(
                (room_name@, fresh_room(uid, uname@, color)),
            ),
    {
        if self.position(&room_name).is_some() {
            return Err(ReversiError::RoomAlreadyExists);
        }
        let mut sessions: Vec<usize> = Vec::new();
        sessions.push(uid);
        let room = Room {
            sessions,
            game: Game::new(),
            player1: Some(Player { id: uid, name: uname, color }),
            player2: None,
        };
        assert(room@.sessions =~= seq![uid]);
        let ghost prev = self@;
        self.rooms.push((room_name, room));
        assert(self@ =~= prev.push(entry_view((room_name, room))));
        assert(unique_names(self@)) by {
            assert forall|i: int, j: int| 0 <= i < j < self@.len() implies self@[i].0 != self@[j].0 by {
                if j == prev.len() {
                    assert(prev[i].0 == self@[i].0);
                }
            }
        }
        Ok(())
    }

    /// Seats `uid` (named `uname`) in the second seat of room `room_name` and
    /// starts its game; `uid` leaves every other room at the same time. Refused
    /// when the room does not exist, or when it cannot take a second player.
    /// Returns the ids of the black and the white player.
    pub fn join(&mut self, room_name: String, uid: usize, uname: String) -> (r: Result<
        (usize, usize),
        ReversiError,
    >)
        requires
            old(self).wf(),
        ensures
            final(self).wf(),
            !has_room(old(self)@, room_name@) ==> r == Err::<(usize, usize), ReversiError>(
                ReversiError::RoomNotFound,
            ) && final(self)@ == old(self)@,
            has_room(old(self)@, room_name@) && !joinable(room_named(old(self)@, room_name@)) ==> r
                == Err::<(usize, usize), ReversiError>(ReversiError::RoomFull) && final(self)@ == old(
                self,
            )@,
            has_room(old(self)@, room_name@) && joinable(room_named(old(self)@, room_name@)) ==> r
                == Ok::<(usize, usize), ReversiError>(
                join_ids(room_named(old(self)@, room_name@), uid),
            ) && final(self)@ == join_rooms(old(self)@, room_name@, uid, uname@),
    {
        let i = match self.position(&room_name) {
            Some(i) => i,
            None => {
                return Err(ReversiError::RoomNotFound);
            },
        };
        let room = &self.rooms[i].1;
        if room.player2.is_some() {
            return Err(ReversiError::RoomFull);
        }
        assert(room_wf(self@[i as int].1));
        let first_id = match &room.player1 {
            Some(first) => first.id,
            None => {
                return Err(ReversiError::RoomFull);
            },
        };
        let first_black = match &room.player1 {
            Some(first) => match first.color {
                Some(c) => c.is_black(),
                None => true,
            },
            None => true,
        };
        let ids = if first_black {
            (first_id, uid)
        } else {
            (uid, first_id)
        };
        proof {
            assert forall|j: int|
                0 <= j < self@.len() && Some(room_name@) == Some(#[trigger] self@[j].0) implies joinable(
                self@[j].1,
            ) by {
                if j < i {
                    assert(self@[j].0 != self@[i as int].0);
                }
                if j > i {
                    assert(self@[i as int].0 != self@[j].0);
                }
            }
        }
        self.regroup_rooms(Some(&room_name), uid, &uname);
        Ok(ids)
    }

    /// Session `uid` leaves every room: out of the sessions and out of any
    /// seat. A room left without sessions is removed.
    pub fn leave(&mut self, uid: usize)
        requires
            old(self).wf(),
        ensures
            final(self).wf(),
            final(self)@ == leave_rooms(old(self)@, uid),
    {
        let nobody = String::new();
        self.regroup_rooms(None, uid, &nobody);
    }

    /// Plays `m` in room `room_name`, as `play_spec` says: refused when the room
    /// does not exist, before its game has started, and when the move is not
    /// legal; the directory is then left as it was.
    pub fn play(&mut self, room_name: &String, m: Move) -> (r: Result<(), ReversiError>)
        requires
            old(self).wf(),
        ensures
            final(self).wf(),
            !has_room(old(self)@, room_name@) ==> r == Err::<(), ReversiError>(
                ReversiError::RoomNotFound,
            ) && final(self)@ == old(self)@,
            has_room(old(self)@, room_name@) ==> match play_spec(
                room_named(old(self)@, room_name@).game,
                m,
            ) {
                Ok(g) => r is Ok && final(self)@ == replace_game(old(self)@, room_name@, g),
                Err(e) => r == Err::<(), ReversiError>(e) && final(self)@ == old(self)@,
            },
    {
        let i = match self.position(room_name) {
            Some(i) => i,
            None => {
                return Err(ReversiError::RoomNotFound);
            },
        };
        let ghost prev = self@;
        let (name, mut room) = self.rooms.remove(i);
        let result = if !room.game.is_start {
            Err(ReversiError::GameNotStarted)
        } else {
            match room.game.put_piece(m) {
                Ok(()) => {
                    if !room.game.is_over {
                        room.game.change_turn();
                    }
                    Ok(())
                },
                Err(e) => Err(e),
            }
        };
        self.rooms.insert(i, (name, room));
        proof {
            assert(entry_view((name, room)).0 == prev[i as int].0);
            assert forall|j: int| 0 <= j < prev.len() && j != i implies prev[j].0 != room_name@ by {
                if j < i {
                    assert(prev[j].0 != prev[i as int].0);
                } else {
                    assert(prev[i as int].0 != prev[j].0);
                }
            }
            match result {
                Ok(()) => {
                    assert(self@ =~= replace_game(prev, room_name@, room@.game));
                },
                Err(_) => {
                    assert(self@ =~= prev);
                },
            }
        }
        result
    }

    /// A copy of every room, with its name.
    pub fn list_rooms(&self) -> (r: Vec<(String, Room)>)
        ensures
            r@.len() == self@.len(),
            forall|j: int| 0 <= j < r@.len() ==> entry_view(#[trigger] r@[j]) == self@[j],
    {
        let mut r: Vec<(String, Room)> = Vec::new();
        let mut i: usize = 0;
        while i < self.rooms.len()
            invariant
                i <= self.rooms@.len(),
                self@.len() == self.rooms@.len(),
                r@.len() == i,
                forall|j: int| 0 <= j < i ==> entry_view(#[trigger] r@[j]) == self@[j],
            decreases self.rooms@.len() - i,
        {
            let entry = &self.rooms[i];
            r.push((entry.0.clone(), entry.1.snapshot()));
            i += 1;
        }
        r
    }
}

} // verus!
