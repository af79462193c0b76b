//! Rooms and the typed wire protocol: the actions a client can send, the
//! responses the server answers with, and one room's lifecycle.

use vstd::prelude::*;
use crate::cards::GameVariant;
use crate::game::{
    first_match, game_equiv, move_effect, move_err_msg, user_view_ok,
    Game, Move,
};

verus! {

/// Users are identified by their self-chosen name.
pub type UserId = String;

/// One open connection, identified by the number the server state gave it.
pub type ClientId = usize;

/// A room's stable identifier: its position in the server's room list,
/// assigned at creation and never reused.
#[derive(Debug, Clone, Copy, PartialEq, Eq, Structural)]
pub struct RoomId(pub usize);

/// A room's phase.  The game is carried along once it exists; a room
/// summary in a room list replaces it by `None`.
#[derive(Debug)]
pub enum RoomState {
    WaitingForPlayers { min_players: usize, max_players: usize },
    Started(Option<Game>),
    Ended(Option<Game>),
}

/// One play session.
#[derive(Debug)]
pub struct Room {
    pub roomid: RoomId,
    pub settings: GameVariant,
    pub players: Vec<UserId>,
    pub state: RoomState,
}

/// An action a client sends to the server.
#[derive(Debug)]
pub enum Action {
    /// Which user is using the socket.
    Login(UserId),
    /// The user stops using the socket.
    Logout,
    /// View a room and subscribe to its updates.
    WatchRoom(RoomId),
    /// Stop viewing the watched room.
    LeaveRoom,
    /// Create a new room.
    NewRoom { min_players: usize, max_players: usize, settings: GameVariant },
    /// Join the watched room while it is waiting for players.
    JoinRoom,
    /// Start the game in the watched room.
    StartGame,
    /// Make a move in the watched room.
    MakeMove(Move),
}

/// A response the server sends to a client.
#[derive(Debug)]
pub enum Response {
    NotLoggedIn,
    RoomList(Vec<Room>),
    Room(Room),
    Error(String),
}

/// Phases are ordered: waiting, then started, then ended.
pub open spec fn phase_rank(s: RoomState) -> int {
    match s {
        RoomState::WaitingForPlayers { .. } => 0,
        RoomState::Started(_) => 1,
        RoomState::Ended(_) => 2,
    }
}

/// `a` comes no later than `b` in a room's life.
pub open spec fn phase_leq(a: RoomState, b: RoomState) -> bool {
    phase_rank(a) <= phase_rank(b)
}

/// No two of these names read the same.
pub open spec fn players_distinct(players: Seq<String>) -> bool {
    forall|i: int, j: int| 0 <= i < j < players.len() ==> players[i]@ != players[j]@
}

/// One of these names reads `name`.
pub open spec fn players_contain(players: Seq<String>, name: Seq<char>) -> bool {
    exists|i: int| 0 <= i < players.len() && players[i]@ == name
}

impl Room {
    /// What holds of every room the server owns.  A waiting room respects
    /// its player limits; a started or ended room carries a well-formed
    /// game over exactly the joined players.
    pub open spec fn wf(&self) -> bool {
        &&& players_distinct(self.players@)
        &&& match self.state {
            RoomState::WaitingForPlayers { min_players, max_players } => {
                &&& 1 <= min_players <= max_players
                &&& self.players@.len() <= max_players
            },
            RoomState::Started(og) => (og matches Some(g) && g.wf()
                && g.spec_players().to_multiset() == self.players@.to_multiset()),
            RoomState::Ended(og) => (og matches Some(g) && g.wf()
                && g.spec_players().to_multiset() == self.players@.to_multiset()),
        }
    }

    /// Whether the named user has joined this room.
    pub fn has_player(&self, name: &UserId) -> (r: bool)
        ensures
            r == players_contain(self.players@, name@),
    {
        let mut i: usize = 0;
        while i < self.players.len()
            invariant
                i <= self.players@.len(),
                forall|j: int| 0 <= j < i ==> self.players@[j]@ != name@,
            decreases self.players@.len() - i,
        {
            if self.players[i] == *name {
                return true;
            }
            i = i + 1;
        }
        false
    }
}

/// `r` is the room-list summary of `room`: the same room, with a live game
/// replaced by its phase alone.
pub open spec fn list_item_of(room: Room, r: Room) -> bool {
    &&& r.roomid == room.roomid
    &&& r.settings == room.settings
    &&& r.players@ == room.players@
    &&& match (room.state, r.state) {
        (
            RoomState::WaitingForPlayers { min_players: a1, max_players: b1 },
            RoomState::WaitingForPlayers { min_players: a2, max_players: b2 },
        ) => a1 == a2 && b1 == b2,
        (RoomState::Started(_), RoomState::Started(og)) => og is None,
        (RoomState::Ended(_), RoomState::Ended(og)) => og is None,
        _ => false,
    }
}

/// `r` is `room` as the named user may see it: a started game is redacted
/// for that user, an ended game is shown whole.
pub open spec fn room_view_ok(room: Room, name: Seq<char>, r: Room) -> bool {
    &&& r.roomid == room.roomid
    &&& r.settings == room.settings
    &&& r.players@ == room.players@
    &&& match (room.state, r.state) {
        (
            RoomState::WaitingForPlayers { min_players: a1, max_players: b1 },
            RoomState::WaitingForPlayers { min_players: a2, max_players: b2 },
        ) => a1 == a2 && b1 == b2,
        (RoomState::Started(og), RoomState::Started(ov)) => (og matches Some(g) && ov matches Some(
            v,
        ) && user_view_ok(g, name, v)),
        (RoomState::Ended(og), RoomState::Ended(ov)) => (og matches Some(g) && ov matches Some(v)
            && game_equiv(g, v)),
        _ => false,
    }
}

/// The message a move in this room is refused with, if it is refused.
pub open spec fn room_move_err(pre: RoomState, name: Seq<char>, mov: Move) -> Option<Seq<char>> {
    match pre {
        RoomState::WaitingForPlayers { .. } => Some("Game did not start yet"@),
        RoomState::Ended(_) => Some("Game already finished"@),
        RoomState::Started(og) => {
            match og {
                Some(g) => {
                    if players_contain(g.spec_players(), name) {
                        let i = choose|i: int| first_match(g.spec_players(), name, i);
                        move_err_msg(g, i as usize, mov)
                    } else {
                        Some("Player not found"@)
                    }
                },
                None => Some("Game did not start yet"@),
            }
        },
    }
}

/// How a room's phase carries one move: a refused move changes nothing; an
/// accepted one plays out on the game, and the room ends when the game
/// does.
pub open spec fn room_move_rel(pre: RoomState, post: RoomState, name: Seq<char>, mov: Move) -> bool {
    if room_move_err(pre, name, mov) is Some {
        post == pre
    } else {
        match (pre, post) {
            (RoomState::Started(og), RoomState::Started(og2)) => (og matches Some(g)
                && og2 matches Some(g2) && g2.wf() && (g2.spec_state() is NextPlayer) && forall|
                i: int,
            |
                first_match(g.spec_players(), name, i) ==> move_effect(g, g2, i as usize, mov)),
            (RoomState::Started(og), RoomState::Ended(og2)) => (og matches Some(g)
                && og2 matches Some(g2) && g2.wf() && !(g2.spec_state() is NextPlayer) && forall|
                i: int,
            |
                first_match(g.spec_players(), name, i) ==> move_effect(g, g2, i as usize, mov)),
            _ => false,
        }
    }
}

impl RoomState {
    /// Forward one move to the room's game: only a started room accepts
    /// moves, and the room ends as soon as its game has.
    pub fn make_move(&mut self, userid: &UserId, mov: Move) -> (r: Result<(), &'static str>)
        requires
            *old(self) matches RoomState::Started(og) ==> og matches Some(g) && g.wf(),
        ensures
            (r is Err) <==> (room_move_err(*old(self), userid@, mov) is Some),
            r matches Err(m) ==> room_move_err(*old(self), userid@, mov) == Some(m@),
            room_move_rel(*old(self), *final(self), userid@, mov),
            old(self) matches RoomState::WaitingForPlayers { .. } ==> *final(self) == *old(self),
    {
        let res: Result<(), &'static str> = match self {
            RoomState::WaitingForPlayers { .. } => {
                return Err("Game did not start yet");
            },
            RoomState::Ended(_) => {
                return Err("Game already finished");
            },
            RoomState::Started(og) => {
                match og {
                    Some(g) => {
                        let ghost g0 = *g;
                        let r = g.make_move_as(userid, mov);
                        proof {
                            if players_contain(g0.spec_players(), userid@) {
                                lemma_some_match_gives_first(g0.spec_players(), userid@);
                            } else {
                                assert forall|j: int|
                                    0 <= j < g0.spec_players().len() implies g0.spec_players()[j]@
                                    != userid@ by {
                                    if g0.spec_players()[j]@ == userid@ {
                                        assert(players_contain(g0.spec_players(), userid@));
                                    }
                                }
                            }
                        }
                        r
                    },
                    None => {
                        proof {
                            assert(false);
                        }
                        Err("Game did not start yet")
                    },
                }
            },
        };
        if res.is_err() {
            return res;
        }
        let ended = match self {
            RoomState::Started(og) => {
                match og {
                    Some(g) => g.has_ended(),
                    None => false,
                }
            },
            _ => false,
        };
        if ended {
            let game = match self {
                RoomState::Started(og) => og.take(),
                _ => None,
            };
            *self = RoomState::Ended(game);
        }
        res
    }
}

impl Room {
    /// The room as a line of the room list: a live game is replaced by its
    /// phase alone.
    pub fn to_list_item(&self) -> (r: Room)
        ensures
            list_item_of(*self, r),
    {
        Room {
            roomid: self.roomid,
            settings: self.settings,
            players: crate::game::clone_strings(&self.players),
            state: match &self.state {
                RoomState::WaitingForPlayers { min_players, max_players } => {
                    RoomState::WaitingForPlayers {
                        min_players: *min_players,
                        max_players: *max_players,
                    }
                },
                RoomState::Started(_) => RoomState::Started(None),
                RoomState::Ended(_) => RoomState::Ended(None),
            },
        }
    }

    /// The room as the named user may see it: a running game is redacted
    /// for that user, a finished one shown whole.
    pub fn to_view(&self, userid: &UserId) -> (r: Room)
        requires
            self.wf(),
        ensures
            room_view_ok(*self, userid@, r),
    {
        Room {
            roomid: self.roomid,
            settings: self.settings,
            players: crate::game::clone_strings(&self.players),
            state: match &self.state {
                RoomState::WaitingForPlayers { min_players, max_players } => {
                    RoomState::WaitingForPlayers {
                        min_players: *min_players,
                        max_players: *max_players,
                    }
                },
                RoomState::Started(og) => {
                    match og {
                        Some(g) => RoomState::Started(Some(g.view_for_user(userid))),
                        None => {
                            proof {
                                assert(false);
                            }
                            RoomState::Started(None)
                        },
                    }
                },
                RoomState::Ended(og) => {
                    match og {
                        Some(g) => RoomState::Ended(Some(g.duplicate())),
                        None => {
                            proof {
                                assert(false);
                            }
                            RoomState::Ended(None)
                        },
                    }
                },
            },
        }
    }

    /// Move the room from waiting to started, constructing the game over
    /// the joined players.  The game refuses a player count it cannot be
    /// played with, and the room then stays as it was.
    pub fn start_game(&mut self) -> (r: Result<(), &'static str>)
        requires
            old(self).wf(),
            old(self).state is WaitingForPlayers,
        ensures
            final(self).wf(),
            final(self).roomid == old(self).roomid,
            final(self).settings == old(self).settings,
            final(self).players@ == old(self).players@,
            2 <= old(self).players@.len() <= 5 ==> (r is Ok) && (final(self).state
                matches RoomState::Started(og) && og matches Some(g) && g.wf() && g.spec_variant()
                == old(self).settings && g.spec_players().to_multiset()
                == old(self).players@.to_multiset() && (g.spec_state() is NextPlayer)
                && g.spec_log().len() == 0),
            !(2 <= old(self).players@.len() <= 5) ==> (r matches Err(m) && m@
                == "Hanabi needs 2 to 5 players."@ && *final(self) == *old(self)),
    {
        let ps = crate::game::clone_strings(&self.players);
        match Game::new(ps, self.settings) {
            Ok(g) => {
                self.state = RoomState::Started(Some(g));
                Ok(())
            },
            Err(e) => Err(e),
        }
    }
}

/// Where some seat carries the name, a first such seat exists.
pub proof fn lemma_some_match_gives_first(players: Seq<String>, name: Seq<char>)
    requires
        players_contain(players, name),
    ensures
        exists|i: int| first_match(players, name, i),
    decreases players.len(),
{
    let w = choose|i: int| 0 <= i < players.len() && players[i]@ == name;
    if players[0]@ == name {
        assert(first_match(players, name, 0));
    } else {
        let rest = players.drop_first();
        assert(rest[w - 1]@ == name);
        assert(players_contain(rest, name));
        lemma_some_match_gives_first(rest, name);
        let i = choose|i: int| first_match(rest, name, i);
        assert forall|j: int| 0 <= j < i + 1 implies players[j]@ != name by {
            if j > 0 {
                assert(rest[j - 1]@ != name);
            }
        }
        assert(first_match(players, name, i + 1));
    }
}

} // verus!
