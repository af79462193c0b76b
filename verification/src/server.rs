//! The server's single source of truth — users, rooms, open sockets — and
//! the dispatcher that applies one action at a time to it.
//!
//! Every operation returns the messages to deliver instead of writing to
//! sockets itself: an entry `(c, resp)` asks the transport to send `resp`
//! on socket `c`.  Whoever runs the transport calls `connect` when a socket
//! opens, `handle_action` for each decoded frame, and `disconnect` exactly
//! once when the socket goes away.

use vstd::prelude::*;
use vstd::string::StringExecFns;
use crate::cards::GameVariant;
use crate::game::{first_match, Move};
use crate::protocol::{
    list_item_of, players_contain, room_move_err, room_move_rel, room_view_ok, Action, ClientId,
    Response, Room, RoomId, RoomState, UserId,
};

verus! {

/// A registered user: the name, and the user's currently open sockets.
#[derive(Debug)]
pub struct User {
    pub name: UserId,
    pub sockets: Vec<ClientId>,
}

/// One open socket: who is logged in on it, and which room it watches.
#[derive(Debug)]
pub struct Client {
    pub userid: Option<UserId>,
    pub roomid: Option<RoomId>,
}

/// A room together with the sockets subscribed to its updates.
#[derive(Debug)]
pub struct RoomEntry {
    pub room: Room,
    pub watchers: Vec<ClientId>,
}

/// All server state: every user, every room, every open socket.  Socket
/// numbers are assigned at `connect` and never reused; a disconnected
/// socket leaves a `None` behind.
#[derive(Debug)]
pub struct ServerState {
    users: Vec<User>,
    rooms: Vec<RoomEntry>,
    clients: Vec<Option<Client>>,
}

/// No socket number appears twice.
pub open spec fn distinct_ids(s: Seq<ClientId>) -> bool {
    forall|i: int, j: int| 0 <= i < j < s.len() ==> s[i] != s[j]
}

impl ServerState {
    pub closed spec fn spec_users(&self) -> Seq<User> {
        self.users@
    }

    pub closed spec fn spec_rooms(&self) -> Seq<RoomEntry> {
        self.rooms@
    }

    pub closed spec fn spec_clients(&self) -> Seq<Option<Client>> {
        self.clients@
    }

    /// `c` is an open socket.
    pub open spec fn is_client(&self, c: int) -> bool {
        0 <= c < self.spec_clients().len() && (self.spec_clients()[c] is Some)
    }

    /// Socket `c` currently watches room `r`.
    pub open spec fn watches(&self, c: int, r: int) -> bool {
        0 <= c < self.spec_clients().len() && match self.spec_clients()[c] {
            Some(cl) => match cl.roomid {
                Some(rr) => rr.0 == r,
                None => false,
            },
            None => false,
        }
    }

    /// Socket `c` is logged in as the user at index `k`.
    pub open spec fn logged_in_as(&self, c: int, k: int) -> bool {
        &&& 0 <= c < self.spec_clients().len()
        &&& 0 <= k < self.spec_users().len()
        &&& match self.spec_clients()[c] {
            Some(cl) => match cl.userid {
                Some(u) => u@ == self.spec_users()[k].name@,
                None => false,
            },
            None => false,
        }
    }

    /// What one socket's record may point at.
    pub open spec fn client_ok(&self, c: int) -> bool {
        match self.spec_clients()[c] {
            Some(cl) => {
                &&& (cl.roomid matches Some(rid) ==> rid.0 < self.spec_rooms().len() && (
                cl.userid is Some))
                &&& (cl.userid matches Some(u) ==> exists|k: int|
                    0 <= k < self.spec_users().len() && (#[trigger] self.spec_users()[k]).name@
                        == u@)
            },
            None => true,
        }
    }

    /// The server invariant.  Besides well-formed rooms, it ties the three
    /// indexes together: a user's socket list holds exactly the sockets
    /// logged in under that name, and a room's watcher set holds exactly
    /// the sockets watching that room.
    pub open spec fn wf(&self) -> bool {
        &&& forall|c: int| 0 <= c < self.spec_clients().len() ==> self.client_ok(c)
        &&& forall|k1: int, k2: int|
            0 <= k1 < k2 < self.spec_users().len() ==> self.spec_users()[k1].name@
                != self.spec_users()[k2].name@
        &&& forall|k: int|
            0 <= k < self.spec_users().len() ==> distinct_ids(
                (#[trigger] self.spec_users()[k]).sockets@,
            )
        &&& forall|k: int, c: ClientId|
            0 <= k < self.spec_users().len() ==> (#[trigger] self.spec_users()[k].sockets@.contains(
                c,
            ) <==> self.logged_in_as(c as int, k))
        &&& forall|r: int| 0 <= r < self.spec_rooms().len() ==> (#[trigger] self.spec_rooms()[r]).room.wf()
        &&& forall|r: int|
            0 <= r < self.spec_rooms().len() ==> (#[trigger] self.spec_rooms()[r]).room.roomid
                == RoomId(r as usize)
        &&& forall|r: int|
            0 <= r < self.spec_rooms().len() ==> distinct_ids(
                (#[trigger] self.spec_rooms()[r]).watchers@,
            )
        &&& forall|r: int, c: ClientId|
            0 <= r < self.spec_rooms().len() ==> (#[trigger] self.spec_rooms()[
                r
            ].watchers@.contains(c) <==> self.watches(c as int, r))
    }

    /// The parts of the invariant that speak only of rooms and users carry
    /// over unchanged whenever those two tables are untouched.
    proof fn lemma_static_frame(&self, pre: ServerState)
        requires
            pre.wf(),
            self.spec_rooms() == pre.spec_rooms(),
            self.spec_users() == pre.spec_users(),
        ensures
            forall|r: int|
                0 <= r < self.spec_rooms().len() ==> (#[trigger] self.spec_rooms()[r]).room.wf(),
            forall|r: int|
                0 <= r < self.spec_rooms().len() ==> (#[trigger] self.spec_rooms()[r]).room.roomid
                    == RoomId(r as usize),
            forall|r: int|
                0 <= r < self.spec_rooms().len() ==> distinct_ids(
                    (#[trigger] self.spec_rooms()[r]).watchers@,
                ),
            forall|k1: int, k2: int|
                0 <= k1 < k2 < self.spec_users().len() ==> self.spec_users()[k1].name@
                    != self.spec_users()[k2].name@,
            forall|k: int|
                0 <= k < self.spec_users().len() ==> distinct_ids(
                    (#[trigger] self.spec_users()[k]).sockets@,
                ),
    {
        assert forall|r: int|
            0 <= r < self.spec_rooms().len() implies (#[trigger] self.spec_rooms()[r]).room.wf()
            && (#[trigger] self.spec_rooms()[r]).room.roomid == RoomId(r as usize) && distinct_ids(
            (#[trigger] self.spec_rooms()[r]).watchers@,
        ) by {
            assert(pre.spec_rooms()[r].room.wf());
            assert(pre.spec_rooms()[r].room.roomid == RoomId(r as usize));
            assert(distinct_ids(pre.spec_rooms()[r].watchers@));
        }
        assert forall|k1: int, k2: int|
            0 <= k1 < k2 < self.spec_users().len() implies self.spec_users()[k1].name@
            != self.spec_users()[k2].name@ by {
            assert(pre.spec_users()[k1].name@ != pre.spec_users()[k2].name@);
        }
        assert forall|k: int|
            0 <= k < self.spec_users().len() implies distinct_ids(
            (#[trigger] self.spec_users()[k]).sockets@,
        ) by {
            assert(distinct_ids(pre.spec_users()[k].sockets@));
        }
    }

    /// An empty server: nobody registered, no rooms, no sockets.
    pub fn new() -> (r: ServerState)
        ensures
            r.wf(),
            r.spec_users().len() == 0,
            r.spec_rooms().len() == 0,
            r.spec_clients().len() == 0,
    {
        ServerState { users: Vec::new(), rooms: Vec::new(), clients: Vec::new() }
    }

    /// Register a newly opened socket and greet it: a fresh socket number,
    /// not logged in, watching nothing.
    pub fn connect(&mut self) -> (r: (ClientId, Response))
        requires
            old(self).wf(),
        ensures
            final(self).wf(),
            r.0 == old(self).spec_clients().len(),
            final(self).is_client(r.0 as int),
            final(self).spec_clients() == old(self).spec_clients().push(
                Some(Client { userid: None, roomid: None }),
            ),
            final(self).spec_rooms() == old(self).spec_rooms(),
            final(self).spec_users() == old(self).spec_users(),
            r.1 is NotLoggedIn,
    {
        let id = self.clients.len();
        self.clients.push(Some(Client { userid: None, roomid: None }));
        proof {
            self.lemma_static_frame(*old(self));
            assert forall|cc: int| 0 <= cc < self.spec_clients().len() implies self.client_ok(
                cc,
            ) by {
                if cc < old(self).spec_clients().len() {
                    assert(old(self).client_ok(cc));
                }
            }
            assert forall|r: int, c: ClientId|
                0 <= r < self.spec_rooms().len() implies (#[trigger] self.spec_rooms()[
                r
            ].watchers@.contains(c) <==> self.watches(c as int, r)) by {
                assert(old(self).spec_rooms()[r].watchers@.contains(c) <==> old(self).watches(
                    c as int,
                    r,
                ));
            }
            assert forall|k: int, c: ClientId|
                0 <= k < self.spec_users().len() implies (#[trigger] self.spec_users()[
                k
            ].sockets@.contains(c) <==> self.logged_in_as(c as int, k)) by {
                assert(old(self).spec_users()[k].sockets@.contains(c) <==> old(self).logged_in_as(
                    c as int,
                    k,
                ));
            }
        }
        (id, Response::NotLoggedIn)
    }

    /// Remove a socket that has gone away: it leaves the watcher set of the
    /// one room it was watching (none other), and the socket list of the
    /// one user it was logged in as — nothing else changes.
    pub fn disconnect(&mut self, c: ClientId)
        requires
            old(self).wf(),
            old(self).is_client(c as int),
        ensures
            final(self).wf(),
            final(self).spec_clients() == old(self).spec_clients().update(c as int, None),
            final(self).spec_rooms().len() == old(self).spec_rooms().len(),
            forall|r: int|
                0 <= r < old(self).spec_rooms().len() ==> final(self).spec_rooms()[r].room == old(
                    self,
                ).spec_rooms()[r].room,
            forall|r: int, s: ClientId|
                0 <= r < old(self).spec_rooms().len() ==> (#[trigger] final(self).spec_rooms()[
                    r
                ].watchers@.contains(s) <==> old(self).spec_rooms()[r].watchers@.contains(s) && s
                    != c),
            final(self).spec_users().len() == old(self).spec_users().len(),
            forall|k: int|
                0 <= k < old(self).spec_users().len() ==> final(self).spec_users()[k].name == old(
                    self,
                ).spec_users()[k].name,
            forall|k: int, s: ClientId|
                0 <= k < old(self).spec_users().len() ==> (#[trigger] final(self).spec_users()[
                    k
                ].sockets@.contains(s) <==> old(self).spec_users()[k].sockets@.contains(s) && s
                    != c),
    {
        proof {
            assert(old(self).client_ok(c as int));
        }
        let (userid, rid) = match &self.clients[c] {
            Some(cl) => (clone_opt_string(&cl.userid), cl.roomid),
            None => {
                proof {
                    assert(false);
                }
                (None, None)
            },
        };
        self.clients[c] = None;
        if let Some(roomid) = rid {
            let r = roomid.0;
            proof {
                assert(old(self).spec_rooms()[r as int].watchers@.contains(c) <==> old(
                    self,
                ).watches(c as int, r as int));
            }
            remove_id(&mut self.rooms[r].watchers, c);
            proof {
                assert(forall|s: ClientId| #[trigger]
                    self.spec_rooms()[r as int].watchers@.contains(s) <==> (old(
                        self,
                    ).spec_rooms()[r as int].watchers@.contains(s) && s != c));
            }
        }
        let ghost rooms_mid = self.spec_rooms();
        proof {
            let pre = *old(self);
            assert forall|r: int, s: ClientId|
                0 <= r < pre.spec_rooms().len() implies (#[trigger] rooms_mid[
                r
            ].watchers@.contains(s) <==> pre.spec_rooms()[r].watchers@.contains(s) && s != c) by {
                assert(pre.spec_rooms()[r].watchers@.contains(s) <==> pre.watches(s as int, r));
                let untouched = match rid {
                    Some(roomid) => r != roomid.0 as int,
                    None => true,
                };
                if untouched {
                    assert(rooms_mid[r] == pre.spec_rooms()[r]);
                    assert(pre.spec_rooms()[r].watchers@.contains(c) <==> pre.watches(c as int, r));
                    match pre.spec_clients()[c as int] {
                        Some(cl2) => {
                            assert(cl2.roomid == rid);
                        },
                        None => {
                            assert(false);
                        },
                    }
                    assert(!pre.watches(c as int, r));
                } else {
                    match rid {
                        Some(roomid) => {
                            let r0 = roomid.0 as int;
                            assert(r == r0);
                            assert(rooms_mid[r0] == self.spec_rooms()[r0]);
                            assert(self.spec_rooms()[r0].watchers@.contains(s) <==> (
                            pre.spec_rooms()[r0].watchers@.contains(s) && s != c));
                            assert(rooms_mid[r].watchers@.contains(s) <==> pre.spec_rooms()[
                                r
                            ].watchers@.contains(s) && s != c);
                        },
                        None => {
                            assert(false);
                        },
                    }
                }
            }
            assert forall|r: int|
                0 <= r < pre.spec_rooms().len() implies distinct_ids(
                (#[trigger] rooms_mid[r]).watchers@,
            ) by {
                let untouched = match rid {
                    Some(roomid) => r != roomid.0 as int,
                    None => true,
                };
                if untouched {
                    assert(rooms_mid[r] == pre.spec_rooms()[r]);
                    assert(distinct_ids(pre.spec_rooms()[r].watchers@));
                }
            }
            assert forall|r: int|
                0 <= r < pre.spec_rooms().len() implies (#[trigger] rooms_mid[r]).room
                == pre.spec_rooms()[r].room by {
                let untouched = match rid {
                    Some(roomid) => r != roomid.0 as int,
                    None => true,
                };
                if untouched {
                    assert(rooms_mid[r] == pre.spec_rooms()[r]);
                }
            }
        }
        let ghost mut ku: Option<int> = None;
        if let Some(u) = &userid {
            match find_user(&self.users, u) {
                Some(k) => {
                    proof {
                        ku = Some(k as int);
                        assert(old(self).spec_users()[k as int].sockets@.contains(c) <==> old(
                            self,
                        ).logged_in_as(c as int, k as int));
                    }
                    remove_id(&mut self.users[k].sockets, c);
                },
                None => {
                    proof {
                        let k = choose|k: int|
                            0 <= k < old(self).spec_users().len() && old(self).spec_users()[
                                k
                            ].name@ == u@;
                        assert(self.spec_users()[k].name@ == u@);
                        assert(false);
                    }
                },
            }
        }
        proof {
            let pre = *old(self);
            assert(self.spec_rooms() == rooms_mid);
            assert forall|r: int, s: ClientId|
                0 <= r < pre.spec_rooms().len() implies (#[trigger] self.spec_rooms()[
                r
            ].watchers@.contains(s) <==> pre.spec_rooms()[r].watchers@.contains(s) && s != c) by {
                assert(rooms_mid[r].watchers@.contains(s) <==> pre.spec_rooms()[
                    r
                ].watchers@.contains(s) && s != c);
                assert(self.spec_rooms()[r] == rooms_mid[r]);
            }
            assert forall|r: int|
                0 <= r < pre.spec_rooms().len() implies distinct_ids(
                (#[trigger] self.spec_rooms()[r]).watchers@,
            ) by {
                assert(distinct_ids(rooms_mid[r].watchers@));
                assert(self.spec_rooms()[r] == rooms_mid[r]);
            }
            assert forall|r: int|
                0 <= r < pre.spec_rooms().len() implies (#[trigger] self.spec_rooms()[r]).room
                == pre.spec_rooms()[r].room by {
                assert(rooms_mid[r].room == pre.spec_rooms()[r].room);
                assert(self.spec_rooms()[r] == rooms_mid[r]);
            }
            assert forall|k: int, s: ClientId|
                0 <= k < pre.spec_users().len() implies (#[trigger] self.spec_users()[
                k
            ].sockets@.contains(s) <==> pre.spec_users()[k].sockets@.contains(s) && s != c) by {
                assert(pre.spec_users()[k].sockets@.contains(s) <==> pre.logged_in_as(s as int, k));
                let untouched = match ku {
                    Some(k0) => k != k0,
                    None => true,
                };
                if untouched {
                    assert(self.spec_users()[k] == pre.spec_users()[k]);
                    assert(pre.spec_users()[k].sockets@.contains(c) <==> pre.logged_in_as(
                        c as int,
                        k,
                    ));
                }
            }
            assert forall|k: int|
                0 <= k < pre.spec_users().len() implies distinct_ids(
                (#[trigger] self.spec_users()[k]).sockets@,
            ) by {
                let untouched = match ku {
                    Some(k0) => k != k0,
                    None => true,
                };
                if untouched {
                    assert(self.spec_users()[k] == pre.spec_users()[k]);
                    assert(distinct_ids(pre.spec_users()[k].sockets@));
                }
            }
            self.lemma_unlink_wf(pre, c);
        }
    }

    /// After taking socket `c` out of the client table and out of every
    /// watcher set and socket list, the invariant holds again.
    proof fn lemma_unlink_wf(&self, pre: ServerState, c: ClientId)
        requires
            pre.wf(),
            pre.is_client(c as int),
            self.spec_clients() == pre.spec_clients().update(c as int, None::<Client>),
            self.spec_rooms().len() == pre.spec_rooms().len(),
            forall|r: int|
                0 <= r < pre.spec_rooms().len() ==> self.spec_rooms()[r].room == pre.spec_rooms()[
                    r
                ].room,
            forall|r: int, s: ClientId|
                0 <= r < pre.spec_rooms().len() ==> (#[trigger] self.spec_rooms()[
                    r
                ].watchers@.contains(s) <==> pre.spec_rooms()[r].watchers@.contains(s) && s != c),
            forall|r: int|
                0 <= r < pre.spec_rooms().len() ==> distinct_ids(
                    (#[trigger] self.spec_rooms()[r]).watchers@,
                ),
            self.spec_users().len() == pre.spec_users().len(),
            forall|k: int|
                0 <= k < pre.spec_users().len() ==> self.spec_users()[k].name == pre.spec_users()[
                    k
                ].name,
            forall|k: int, s: ClientId|
                0 <= k < pre.spec_users().len() ==> (#[trigger] self.spec_users()[
                    k
                ].sockets@.contains(s) <==> pre.spec_users()[k].sockets@.contains(s) && s != c),
            forall|k: int|
                0 <= k < pre.spec_users().len() ==> distinct_ids(
                    (#[trigger] self.spec_users()[k]).sockets@,
                ),
        ensures
            self.wf(),
    {
        assert forall|cc: int|
            0 <= cc < self.spec_clients().len() implies self.client_ok(cc) by {
            assert(pre.client_ok(cc));
        }
        assert forall|k: int, s: ClientId|
            0 <= k < self.spec_users().len() implies (#[trigger] self.spec_users()[
            k
        ].sockets@.contains(s) <==> self.logged_in_as(s as int, k)) by {
            assert(pre.spec_users()[k].sockets@.contains(s) <==> pre.logged_in_as(s as int, k));
        }
        assert forall|r: int, s: ClientId|
            0 <= r < self.spec_rooms().len() implies (#[trigger] self.spec_rooms()[
            r
        ].watchers@.contains(s) <==> self.watches(s as int, r)) by {
            assert(pre.spec_rooms()[r].watchers@.contains(s) <==> pre.watches(s as int, r));
        }
    }

    /// Unsubscribe the socket from the room it watches, if any.
    fn leave_room_internal(&mut self, c: ClientId)
        requires
            old(self).wf(),
            old(self).is_client(c as int),
        ensures
            final(self).wf(),
            final(self).is_client(c as int),
            old(self).spec_clients()[c as int] matches Some(cl) && final(self).spec_clients()
                == old(self).spec_clients().update(
                c as int,
                Some(Client { userid: cl.userid, roomid: None }),
            ),
            final(self).spec_rooms().len() == old(self).spec_rooms().len(),
            forall|r: int|
                0 <= r < old(self).spec_rooms().len() ==> final(self).spec_rooms()[r].room == old(
                    self,
                ).spec_rooms()[r].room,
            final(self).spec_users() == old(self).spec_users(),
    {
        proof {
            assert(old(self).client_ok(c as int));
        }
        let (userid, rid) = match &self.clients[c] {
            Some(cl) => (clone_opt_string(&cl.userid), cl.roomid),
            None => {
                proof {
                    assert(false);
                }
                (None, None)
            },
        };
        self.clients[c] = Some(Client { userid, roomid: None });
        if let Some(roomid) = rid {
            let r = roomid.0;
            proof {
                assert(old(self).spec_rooms()[r as int].watchers@.contains(c) <==> old(
                    self,
                ).watches(c as int, r as int));
            }
            remove_id(&mut self.rooms[r].watchers, c);
        }
        proof {
            let pre = *old(self);
            self.lemma_leave_wf(pre, c, rid);
        }
    }

    /// After clearing the socket's watched room and taking it out of that
    /// room's watcher set, the invariant holds again.
    proof fn lemma_leave_wf(&self, pre: ServerState, c: ClientId, rid: Option<RoomId>)
        requires
            pre.wf(),
            pre.is_client(c as int),
            pre.spec_clients()[c as int] matches Some(cl) && cl.roomid == rid
                && self.spec_clients() == pre.spec_clients().update(
                c as int,
                Some(Client { userid: cl.userid, roomid: None }),
            ),
            self.spec_users() == pre.spec_users(),
            self.spec_rooms().len() == pre.spec_rooms().len(),
            forall|r: int|
                0 <= r < pre.spec_rooms().len() ==> self.spec_rooms()[r].room == pre.spec_rooms()[
                    r
                ].room,
            forall|r: int|
                0 <= r < pre.spec_rooms().len() ==> (match rid {
                    Some(roomid) => r != roomid.0 as int,
                    None => true,
                }) ==> self.spec_rooms()[r] == pre.spec_rooms()[r],
            rid matches Some(roomid) ==> roomid.0 < pre.spec_rooms().len() && distinct_ids(
                self.spec_rooms()[roomid.0 as int].watchers@,
            ) && forall|s: ClientId| #[trigger]
                self.spec_rooms()[roomid.0 as int].watchers@.contains(s) <==> (
                pre.spec_rooms()[roomid.0 as int].watchers@.contains(s) && s != c),
        ensures
            self.wf(),
    {
        assert forall|cc: int| 0 <= cc < self.spec_clients().len() implies self.client_ok(cc) by {
            assert(pre.client_ok(cc));
        }
        assert forall|k: int, s: ClientId|
            0 <= k < self.spec_users().len() implies (#[trigger] self.spec_users()[
            k
        ].sockets@.contains(s) <==> self.logged_in_as(s as int, k)) by {
            assert(pre.spec_users()[k].sockets@.contains(s) <==> pre.logged_in_as(s as int, k));
        }
        assert forall|k1: int, k2: int|
            0 <= k1 < k2 < self.spec_users().len() implies self.spec_users()[k1].name@
            != self.spec_users()[k2].name@ by {
            assert(pre.spec_users()[k1].name@ != pre.spec_users()[k2].name@);
        }
        assert forall|k: int|
            0 <= k < self.spec_users().len() implies distinct_ids(
            (#[trigger] self.spec_users()[k]).sockets@,
        ) by {
            assert(distinct_ids(pre.spec_users()[k].sockets@));
        }
        assert forall|r: int|
            0 <= r < self.spec_rooms().len() implies (#[trigger] self.spec_rooms()[r]).room.wf()
            && (#[trigger] self.spec_rooms()[r]).room.roomid == RoomId(r as usize) && distinct_ids(
            (#[trigger] self.spec_rooms()[r]).watchers@,
        ) by {
            assert(pre.spec_rooms()[r].room.wf());
            assert(pre.spec_rooms()[r].room.roomid == RoomId(r as usize));
            let untouched = match rid {
                Some(roomid) => r != roomid.0 as int,
                None => true,
            };
            if untouched {
                assert(self.spec_rooms()[r] == pre.spec_rooms()[r]);
                assert(distinct_ids(pre.spec_rooms()[r].watchers@));
            }
        }
        assert forall|r: int, s: ClientId|
            0 <= r < self.spec_rooms().len() implies (#[trigger] self.spec_rooms()[
            r
        ].watchers@.contains(s) <==> self.watches(s as int, r)) by {
            assert(pre.spec_rooms()[r].watchers@.contains(s) <==> pre.watches(s as int, r));
            let untouched = match rid {
                Some(roomid) => r != roomid.0 as int,
                None => true,
            };
            if untouched {
                assert(self.spec_rooms()[r] == pre.spec_rooms()[r]);
                assert(pre.spec_rooms()[r].watchers@.contains(c) <==> pre.watches(c as int, r));
            }
        }
    }

    /// Unbind the socket from its user: leave any watched room, then take
    /// the socket out of the user's socket list.
    fn logout_internal(&mut self, c: ClientId)
        requires
            old(self).wf(),
            old(self).is_client(c as int),
        ensures
            final(self).wf(),
            final(self).is_client(c as int),
            final(self).spec_clients() == old(self).spec_clients().update(
                c as int,
                Some(Client { userid: None, roomid: None }),
            ),
            final(self).spec_rooms().len() == old(self).spec_rooms().len(),
            forall|r: int|
                0 <= r < old(self).spec_rooms().len() ==> final(self).spec_rooms()[r].room == old(
                    self,
                ).spec_rooms()[r].room,
            final(self).spec_users().len() == old(self).spec_users().len(),
            forall|k: int|
                0 <= k < old(self).spec_users().len() ==> final(self).spec_users()[k].name == old(
                    self,
                ).spec_users()[k].name,
    {
        self.leave_room_internal(c);
        let ghost mid = *self;
        proof {
            assert(mid.client_ok(c as int));
        }
        let userid = match &self.clients[c] {
            Some(cl) => clone_opt_string(&cl.userid),
            None => {
                proof {
                    assert(false);
                }
                None
            },
        };
        self.clients[c] = Some(Client { userid: None, roomid: None });
        let ghost mut ku: Option<int> = None;
        if let Some(u) = &userid {
            match find_user(&self.users, u) {
                Some(k) => {
                    proof {
                        ku = Some(k as int);
                        assert(mid.spec_users()[k as int].sockets@.contains(c)
                            <==> mid.logged_in_as(c as int, k as int));
                    }
                    remove_id(&mut self.users[k].sockets, c);
                },
                None => {
                    proof {
                        let k = choose|k: int|
                            0 <= k < mid.spec_users().len() && mid.spec_users()[k].name@ == u@;
                        assert(self.spec_users()[k].name@ == u@);
                        assert(false);
                    }
                },
            }
        }
        proof {
            self.lemma_unbind_wf(mid, c, userid, ku);
        }
    }

    /// After blanking the socket's user and taking it out of that user's
    /// socket list, the invariant holds again.
    proof fn lemma_unbind_wf(
        &self,
        pre: ServerState,
        c: ClientId,
        userid: Option<UserId>,
        ku: Option<int>,
    )
        requires
            pre.wf(),
            pre.is_client(c as int),
            pre.spec_clients()[c as int] == Some(Client { userid, roomid: None }),
            self.spec_clients() == pre.spec_clients().update(
                c as int,
                Some(Client { userid: None, roomid: None }),
            ),
            self.spec_rooms() == pre.spec_rooms(),
            self.spec_users().len() == pre.spec_users().len(),
            forall|k: int|
                0 <= k < pre.spec_users().len() ==> self.spec_users()[k].name == pre.spec_users()[
                    k
                ].name,
            match userid {
                Some(u) => ku matches Some(k0) && 0 <= k0 < pre.spec_users().len()
                    && pre.spec_users()[k0].name@ == u@ && (forall|k: int|
                    0 <= k < pre.spec_users().len() && k != k0 ==> self.spec_users()[k]
                        == pre.spec_users()[k]) && distinct_ids(
                    self.spec_users()[k0].sockets@,
                ) && forall|s: ClientId| #[trigger]
                    self.spec_users()[k0].sockets@.contains(s) <==> (
                    pre.spec_users()[k0].sockets@.contains(s) && s != c),
                None => self.spec_users() == pre.spec_users(),
            },
        ensures
            self.wf(),
    {
        assert forall|cc: int| 0 <= cc < self.spec_clients().len() implies self.client_ok(cc) by {
            assert(pre.client_ok(cc));
            if cc != c as int {
                match self.spec_clients()[cc] {
                    Some(cl) => {
                        match cl.userid {
                            Some(u) => {
                                let k = choose|k: int|
                                    0 <= k < pre.spec_users().len() && (
                                    #[trigger] pre.spec_users()[k]).name@ == u@;
                                assert(self.spec_users()[k].name == pre.spec_users()[k].name);
                            },
                            None => {},
                        }
                    },
                    None => {},
                }
            }
        }
        assert forall|k1: int, k2: int|
            0 <= k1 < k2 < self.spec_users().len() implies self.spec_users()[k1].name@
            != self.spec_users()[k2].name@ by {
            assert(pre.spec_users()[k1].name@ != pre.spec_users()[k2].name@);
        }
        assert forall|k: int|
            0 <= k < self.spec_users().len() implies distinct_ids(
            (#[trigger] self.spec_users()[k]).sockets@,
        ) by {
            let untouched = match ku {
                Some(k0) => k != k0,
                None => true,
            };
            if untouched {
                assert(self.spec_users()[k] == pre.spec_users()[k]);
                assert(distinct_ids(pre.spec_users()[k].sockets@));
            }
        }
        assert forall|k: int, s: ClientId|
            0 <= k < self.spec_users().len() implies (#[trigger] self.spec_users()[
            k
        ].sockets@.contains(s) <==> self.logged_in_as(s as int, k)) by {
            assert(pre.spec_users()[k].sockets@.contains(s) <==> pre.logged_in_as(s as int, k));
            assert(self.spec_users()[k].name == pre.spec_users()[k].name);
            let untouched = match ku {
                Some(k0) => k != k0,
                None => true,
            };
            if untouched {
                assert(self.spec_users()[k] == pre.spec_users()[k]);
                assert(pre.spec_users()[k].sockets@.contains(c) <==> pre.logged_in_as(c as int, k));
                match (userid, ku) {
                    (Some(_), Some(k0)) => {
                        if k < k0 {
                            assert(pre.spec_users()[k].name@ != pre.spec_users()[k0].name@);
                        } else {
                            assert(pre.spec_users()[k0].name@ != pre.spec_users()[k].name@);
                        }
                    },
                    _ => {},
                }
            }
        }
        assert forall|r: int|
            0 <= r < self.spec_rooms().len() implies (#[trigger] self.spec_rooms()[r]).room.wf()
            && (#[trigger] self.spec_rooms()[r]).room.roomid == RoomId(r as usize) && distinct_ids(
            (#[trigger] self.spec_rooms()[r]).watchers@,
        ) by {
            assert(pre.spec_rooms()[r].room.wf());
            assert(pre.spec_rooms()[r].room.roomid == RoomId(r as usize));
            assert(distinct_ids(pre.spec_rooms()[r].watchers@));
        }
        assert forall|r: int, s: ClientId|
            0 <= r < self.spec_rooms().len() implies (#[trigger] self.spec_rooms()[
            r
        ].watchers@.contains(s) <==> self.watches(s as int, r)) by {
            assert(pre.spec_rooms()[r].watchers@.contains(s) <==> pre.watches(s as int, r));
            assert(self.spec_rooms()[r] == pre.spec_rooms()[r]);
        }
    }

    /// Bind a just-logged-out socket to a user, creating the user record
    /// if the name is new, and noting the socket in the user's list.
    fn bind_user(&mut self, c: ClientId, name: UserId)
        requires
            old(self).wf(),
            old(self).is_client(c as int),
            old(self).spec_clients()[c as int] == Some(Client { userid: None, roomid: None }),
        ensures
            final(self).wf(),
            final(self).is_client(c as int),
            final(self).spec_clients() == old(self).spec_clients().update(
                c as int,
                Some(Client { userid: Some(name), roomid: None }),
            ),
            final(self).spec_rooms() == old(self).spec_rooms(),
            user_names_after_login(*old(self), *final(self), name@),
    {
        let uname = name.clone();
        let ghost mut ku: Option<int> = None;
        match find_user(&self.users, &name) {
            Some(k) => {
                proof {
                    ku = Some(k as int);
                    assert(old(self).spec_users()[k as int].sockets@.contains(c) <==> old(
                        self,
                    ).logged_in_as(c as int, k as int));
                }
                self.users[k].sockets.push(c);
            },
            None => {
                let mut sockets: Vec<ClientId> = Vec::new();
                sockets.push(c);
                self.users.push(User { name: uname, sockets });
            },
        }
        let ghost mid_users = self.spec_users();
        self.clients[c] = Some(Client { userid: Some(name), roomid: None });
        proof {
            broadcast use vstd::seq_lib::lemma_seq_contains_after_push;

            let pre = *old(self);
            assert(self.spec_users() == mid_users);
            assert forall|cc: int|
                0 <= cc < self.spec_clients().len() implies self.client_ok(cc) by {
                assert(pre.client_ok(cc));
                if cc != c as int {
                    match self.spec_clients()[cc] {
                        Some(cl) => {
                            match cl.userid {
                                Some(u) => {
                                    let k = choose|k: int|
                                        0 <= k < pre.spec_users().len() && (
                                        #[trigger] pre.spec_users()[k]).name@ == u@;
                                    assert(self.spec_users()[k].name@ == u@);
                                },
                                None => {},
                            }
                        },
                        None => {},
                    }
                } else {
                    match ku {
                        Some(k0) => {
                            assert(self.spec_users()[k0].name@ == name@);
                        },
                        None => {
                            assert(self.spec_users().last().name@ == name@);
                        },
                    }
                }
            }
            assert forall|k1: int, k2: int|
                0 <= k1 < k2 < self.spec_users().len() implies self.spec_users()[k1].name@
                != self.spec_users()[k2].name@ by {
                if k2 < pre.spec_users().len() {
                    assert(pre.spec_users()[k1].name@ != pre.spec_users()[k2].name@);
                } else {
                    assert(pre.spec_users()[k1].name@ != name@);
                }
            }
            assert forall|k: int|
                0 <= k < self.spec_users().len() implies distinct_ids(
                (#[trigger] self.spec_users()[k]).sockets@,
            ) by {
                let fresh = match ku {
                    Some(k0) => k == k0,
                    None => k == pre.spec_users().len() as int,
                };
                if fresh {
                    match ku {
                        Some(k0) => {
                            assert(pre.spec_users()[k0].sockets@.contains(c)
                                <==> pre.logged_in_as(c as int, k0));
                            assert(!pre.spec_users()[k0].sockets@.contains(c));
                            assert(self.spec_users()[k0].sockets@ == pre.spec_users()[
                                k0
                            ].sockets@.push(c));
                            assert(distinct_ids(pre.spec_users()[k0].sockets@));
                        },
                        None => {
                            assert(self.spec_users()[k].sockets@.len() == 1);
                        },
                    }
                } else {
                    assert(self.spec_users()[k] == pre.spec_users()[k]);
                    assert(distinct_ids(pre.spec_users()[k].sockets@));
                }
            }
            assert forall|k: int, s: ClientId|
                0 <= k < self.spec_users().len() implies (#[trigger] self.spec_users()[
                k
            ].sockets@.contains(s) <==> self.logged_in_as(s as int, k)) by {
                let fresh = match ku {
                    Some(k0) => k == k0,
                    None => k == pre.spec_users().len() as int,
                };
                if fresh {
                    match ku {
                        Some(k0) => {
                            assert(self.spec_users()[k0].sockets@ == pre.spec_users()[
                                k0
                            ].sockets@.push(c));
                            assert(pre.spec_users()[k0].sockets@.contains(s)
                                <==> pre.logged_in_as(s as int, k0));
                            if s != c {
                                assert(self.spec_users()[k0].sockets@.contains(s)
                                    <==> pre.spec_users()[k0].sockets@.contains(s));
                            } else {
                                assert(self.spec_users()[k0].sockets@.contains(c));
                                assert(self.spec_users()[k0].name@ == name@);
                            }
                        },
                        None => {
                            assert(self.spec_users()[k].sockets@ =~= Seq::empty().push(c));
                            if s != c {
                                if self.logged_in_as(s as int, k) {
                                    match self.spec_clients()[s as int] {
                                        Some(cl) => {
                                            match cl.userid {
                                                Some(u) => {
                                                    assert(pre.client_ok(s as int));
                                                    let kk = choose|kk: int|
                                                        0 <= kk < pre.spec_users().len() && (
                                                        #[trigger] pre.spec_users()[kk]).name@
                                                            == u@;
                                                    assert(pre.spec_users()[kk].name@ == name@);
                                                    assert(false);
                                                },
                                                None => {},
                                            }
                                        },
                                        None => {},
                                    }
                                }
                            }
                        },
                    }
                } else {
                    assert(self.spec_users()[k] == pre.spec_users()[k]);
                    assert(pre.spec_users()[k].sockets@.contains(s) <==> pre.logged_in_as(
                        s as int,
                        k,
                    ));
                    if s == c {
                        assert(pre.spec_users()[k].sockets@.contains(c) <==> pre.logged_in_as(
                            c as int,
                            k,
                        ));
                        if k < pre.spec_users().len() {
                            match ku {
                                Some(k0) => {
                                    assert(pre.spec_users()[k].name@ != pre.spec_users()[
                                        k0
                                    ].name@);
                                    assert(pre.spec_users()[k0].name@ == name@);
                                },
                                None => {
                                    if self.spec_users()[k].name@ == name@ {
                                        assert(pre.spec_users()[k].name@ == name@);
                                        assert(false);
                                    }
                                },
                            }
                        }
                    }
                }
            }
            assert forall|r: int|
                0 <= r < self.spec_rooms().len() implies (#[trigger] self.spec_rooms()[
                r
            ]).room.wf() && (#[trigger] self.spec_rooms()[r]).room.roomid == RoomId(r as usize)
                && distinct_ids((#[trigger] self.spec_rooms()[r]).watchers@) by {
                assert(pre.spec_rooms()[r].room.wf());
                assert(pre.spec_rooms()[r].room.roomid == RoomId(r as usize));
                assert(distinct_ids(pre.spec_rooms()[r].watchers@));
            }
            assert forall|r: int, s: ClientId|
                0 <= r < self.spec_rooms().len() implies (#[trigger] self.spec_rooms()[
                r
            ].watchers@.contains(s) <==> self.watches(s as int, r)) by {
                assert(pre.spec_rooms()[r].watchers@.contains(s) <==> pre.watches(s as int, r));
                assert(self.spec_rooms()[r] == pre.spec_rooms()[r]);
            }
            match ku {
                Some(k0) => {
                    assert(pre.spec_users()[k0].name@ == name@);
                },
                None => {
                    if exists|k: int|
                        0 <= k < pre.spec_users().len() && pre.spec_users()[k].name@ == name@ {
                        let k = choose|k: int|
                            0 <= k < pre.spec_users().len() && pre.spec_users()[k].name@ == name@;
                        assert(pre.spec_users()[k].name@ != name@);
                        assert(false);
                    }
                },
            }
        }
    }

    /// Subscribe the socket to room `rid`, leaving any previous room.
    fn watch_room_internal(&mut self, c: ClientId, rid: usize)
        requires
            old(self).wf(),
            old(self).is_client(c as int),
            rid < old(self).spec_rooms().len(),
            old(self).spec_clients()[c as int] matches Some(cl) && (cl.userid is Some),
        ensures
            final(self).wf(),
            old(self).spec_clients()[c as int] matches Some(cl) && final(self).spec_clients()
                == old(self).spec_clients().update(
                c as int,
                Some(Client { userid: cl.userid, roomid: Some(RoomId(rid)) }),
            ),
            final(self).spec_rooms().len() == old(self).spec_rooms().len(),
            forall|r: int|
                0 <= r < old(self).spec_rooms().len() ==> final(self).spec_rooms()[r].room == old(
                    self,
                ).spec_rooms()[r].room,
            final(self).spec_users() == old(self).spec_users(),
    {
        self.leave_room_internal(c);
        let ghost mid = *self;
        let userid = match &self.clients[c] {
            Some(cl) => clone_opt_string(&cl.userid),
            None => {
                proof {
                    assert(false);
                }
                None
            },
        };
        self.clients[c] = Some(Client { userid, roomid: Some(RoomId(rid)) });
        proof {
            assert(mid.spec_rooms()[rid as int].watchers@.contains(c) <==> mid.watches(
                c as int,
                rid as int,
            ));
        }
        self.rooms[rid].watchers.push(c);
        proof {
            broadcast use vstd::seq_lib::lemma_seq_contains_after_push;

            assert forall|cc: int|
                0 <= cc < self.spec_clients().len() implies self.client_ok(cc) by {
                assert(mid.client_ok(cc));
                if cc == c as int {
                    match self.spec_clients()[cc] {
                        Some(cl) => {
                            match cl.userid {
                                Some(u) => {
                                    let k = choose|k: int|
                                        0 <= k < mid.spec_users().len() && (
                                        #[trigger] mid.spec_users()[k]).name@ == u@;
                                    assert(self.spec_users()[k].name@ == u@);
                                },
                                None => {},
                            }
                        },
                        None => {},
                    }
                }
            }
            assert forall|k: int, s: ClientId|
                0 <= k < self.spec_users().len() implies (#[trigger] self.spec_users()[
                k
            ].sockets@.contains(s) <==> self.logged_in_as(s as int, k)) by {
                assert(mid.spec_users()[k].sockets@.contains(s) <==> mid.logged_in_as(s as int, k));
            }
            assert forall|k1: int, k2: int|
                0 <= k1 < k2 < self.spec_users().len() implies self.spec_users()[k1].name@
                != self.spec_users()[k2].name@ by {
                assert(mid.spec_users()[k1].name@ != mid.spec_users()[k2].name@);
            }
            assert forall|k: int|
                0 <= k < self.spec_users().len() implies distinct_ids(
                (#[trigger] self.spec_users()[k]).sockets@,
            ) by {
                assert(distinct_ids(mid.spec_users()[k].sockets@));
            }
            assert forall|r: int|
                0 <= r < self.spec_rooms().len() implies (#[trigger] self.spec_rooms()[
                r
            ]).room.wf() && (#[trigger] self.spec_rooms()[r]).room.roomid == RoomId(r as usize)
                && distinct_ids((#[trigger] self.spec_rooms()[r]).watchers@) by {
                assert(mid.spec_rooms()[r].room.wf());
                assert(mid.spec_rooms()[r].room.roomid == RoomId(r as usize));
                assert(distinct_ids(mid.spec_rooms()[r].watchers@));
                if r == rid as int {
                    assert(!mid.spec_rooms()[r].watchers@.contains(c));
                    assert(self.spec_rooms()[r].watchers@ == mid.spec_rooms()[
                        r
                    ].watchers@.push(c));
                } else {
                    assert(self.spec_rooms()[r] == mid.spec_rooms()[r]);
                }
            }
            assert forall|r: int, s: ClientId|
                0 <= r < self.spec_rooms().len() implies (#[trigger] self.spec_rooms()[
                r
            ].watchers@.contains(s) <==> self.watches(s as int, r)) by {
                assert(mid.spec_rooms()[r].watchers@.contains(s) <==> mid.watches(s as int, r));
                if r == rid as int {
                    assert(self.spec_rooms()[r].watchers@ == mid.spec_rooms()[
                        r
                    ].watchers@.push(c));
                } else {
                    assert(self.spec_rooms()[r] == mid.spec_rooms()[r]);
                    assert(mid.spec_rooms()[r].watchers@.contains(c) <==> mid.watches(c as int, r));
                }
            }
        }
    }

    /// When only the contents of room `r` changed — no watcher set, no user,
    /// no socket — the invariant needs only that room's own health.
    proof fn lemma_room_content_wf(&self, pre: ServerState, r: int)
        requires
            pre.wf(),
            0 <= r < pre.spec_rooms().len(),
            self.spec_clients() == pre.spec_clients(),
            self.spec_users() == pre.spec_users(),
            self.spec_rooms().len() == pre.spec_rooms().len(),
            forall|r2: int|
                0 <= r2 < pre.spec_rooms().len() && r2 != r ==> self.spec_rooms()[r2]
                    == pre.spec_rooms()[r2],
            self.spec_rooms()[r].watchers == pre.spec_rooms()[r].watchers,
            self.spec_rooms()[r].room.wf(),
            self.spec_rooms()[r].room.roomid == pre.spec_rooms()[r].room.roomid,
        ensures
            self.wf(),
    {
        assert forall|cc: int| 0 <= cc < self.spec_clients().len() implies self.client_ok(cc) by {
            assert(pre.client_ok(cc));
        }
        assert forall|k: int, s: ClientId|
            0 <= k < self.spec_users().len() implies (#[trigger] self.spec_users()[
            k
        ].sockets@.contains(s) <==> self.logged_in_as(s as int, k)) by {
            assert(pre.spec_users()[k].sockets@.contains(s) <==> pre.logged_in_as(s as int, k));
        }
        assert forall|k1: int, k2: int|
            0 <= k1 < k2 < self.spec_users().len() implies self.spec_users()[k1].name@
            != self.spec_users()[k2].name@ by {
            assert(pre.spec_users()[k1].name@ != pre.spec_users()[k2].name@);
        }
        assert forall|k: int|
            0 <= k < self.spec_users().len() implies distinct_ids(
            (#[trigger] self.spec_users()[k]).sockets@,
        ) by {
            assert(distinct_ids(pre.spec_users()[k].sockets@));
        }
        assert forall|r2: int|
            0 <= r2 < self.spec_rooms().len() implies (#[trigger] self.spec_rooms()[
            r2
        ]).room.wf() && (#[trigger] self.spec_rooms()[r2]).room.roomid == RoomId(r2 as usize)
            && distinct_ids((#[trigger] self.spec_rooms()[r2]).watchers@) by {
            assert(pre.spec_rooms()[r2].room.roomid == RoomId(r2 as usize));
            assert(distinct_ids(pre.spec_rooms()[r2].watchers@));
            if r2 != r {
                assert(self.spec_rooms()[r2] == pre.spec_rooms()[r2]);
                assert(pre.spec_rooms()[r2].room.wf());
            }
        }
        assert forall|r2: int, s: ClientId|
            0 <= r2 < self.spec_rooms().len() implies (#[trigger] self.spec_rooms()[
            r2
        ].watchers@.contains(s) <==> self.watches(s as int, r2)) by {
            assert(pre.spec_rooms()[r2].watchers@.contains(s) <==> pre.watches(s as int, r2));
            if r2 != r {
                assert(self.spec_rooms()[r2] == pre.spec_rooms()[r2]);
            }
        }
    }

    /// Allocate a fresh waiting room with the acting user as first player
    /// and the acting socket as first watcher.
    fn new_room(
        &mut self,
        c: ClientId,
        min_players: usize,
        max_players: usize,
        settings: GameVariant,
        u: &UserId,
    )
        requires
            old(self).wf(),
            old(self).is_client(c as int),
            old(self).spec_clients()[c as int] matches Some(cl) && cl.userid matches Some(uu)
                && uu@ == u@,
            1 <= min_players <= max_players,
        ensures
            final(self).wf(),
            final(self).spec_rooms().len() == old(self).spec_rooms().len() + 1,
            forall|r: int|
                0 <= r < old(self).spec_rooms().len() ==> final(self).spec_rooms()[r].room == old(
                    self,
                ).spec_rooms()[r].room,
            new_room_entry_ok(
                final(self).spec_rooms().last(),
                old(self).spec_rooms().len() as int,
                min_players,
                max_players,
                settings,
                u@,
                c,
            ),
            old(self).spec_clients()[c as int] matches Some(cl) && final(self).spec_clients()
                == old(self).spec_clients().update(
                c as int,
                Some(
                    Client {
                        userid: cl.userid,
                        roomid: Some(RoomId(old(self).spec_rooms().len() as usize)),
                    },
                ),
            ),
            final(self).spec_users() == old(self).spec_users(),
    {
        self.leave_room_internal(c);
        let ghost mid = *self;
        let rid = self.rooms.len();
        let userid = match &self.clients[c] {
            Some(cl) => clone_opt_string(&cl.userid),
            None => {
                proof {
                    assert(false);
                }
                None
            },
        };
        self.clients[c] = Some(Client { userid, roomid: Some(RoomId(rid)) });
        let mut players: Vec<UserId> = Vec::new();
        players.push(u.clone());
        let mut watchers: Vec<ClientId> = Vec::new();
        watchers.push(c);
        self.rooms.push(
            RoomEntry {
                room: Room {
                    roomid: RoomId(rid),
                    settings,
                    players,
                    state: RoomState::WaitingForPlayers { min_players, max_players },
                },
                watchers,
            },
        );
        proof {
            broadcast use vstd::seq_lib::lemma_seq_contains_after_push;

            assert forall|cc: int|
                0 <= cc < self.spec_clients().len() implies self.client_ok(cc) by {
                assert(mid.client_ok(cc));
                if cc == c as int {
                    match self.spec_clients()[cc] {
                        Some(cl) => {
                            match cl.userid {
                                Some(uu2) => {
                                    let k = choose|k: int|
                                        0 <= k < mid.spec_users().len() && (
                                        #[trigger] mid.spec_users()[k]).name@ == uu2@;
                                    assert(self.spec_users()[k].name@ == uu2@);
                                },
                                None => {},
                            }
                        },
                        None => {},
                    }
                }
            }
            assert forall|k: int, s: ClientId|
                0 <= k < self.spec_users().len() implies (#[trigger] self.spec_users()[
                k
            ].sockets@.contains(s) <==> self.logged_in_as(s as int, k)) by {
                assert(mid.spec_users()[k].sockets@.contains(s) <==> mid.logged_in_as(s as int, k));
            }
            assert forall|k1: int, k2: int|
                0 <= k1 < k2 < self.spec_users().len() implies self.spec_users()[k1].name@
                != self.spec_users()[k2].name@ by {
                assert(mid.spec_users()[k1].name@ != mid.spec_users()[k2].name@);
            }
            assert forall|k: int|
                0 <= k < self.spec_users().len() implies distinct_ids(
                (#[trigger] self.spec_users()[k]).sockets@,
            ) by {
                assert(distinct_ids(mid.spec_users()[k].sockets@));
            }
            assert forall|r: int|
                0 <= r < self.spec_rooms().len() implies (#[trigger] self.spec_rooms()[
                r
            ]).room.wf() && (#[trigger] self.spec_rooms()[r]).room.roomid == RoomId(r as usize)
                && distinct_ids((#[trigger] self.spec_rooms()[r]).watchers@) by {
                if r < mid.spec_rooms().len() {
                    assert(self.spec_rooms()[r] == mid.spec_rooms()[r]);
                    assert(mid.spec_rooms()[r].room.wf());
                    assert(mid.spec_rooms()[r].room.roomid == RoomId(r as usize));
                    assert(distinct_ids(mid.spec_rooms()[r].watchers@));
                }
            }
            assert forall|r: int, s: ClientId|
                0 <= r < self.spec_rooms().len() implies (#[trigger] self.spec_rooms()[
                r
            ].watchers@.contains(s) <==> self.watches(s as int, r)) by {
                if r < mid.spec_rooms().len() {
                    assert(self.spec_rooms()[r] == mid.spec_rooms()[r]);
                    assert(mid.spec_rooms()[r].watchers@.contains(s) <==> mid.watches(s as int, r));
                    assert(mid.spec_rooms()[r].watchers@.contains(c) <==> mid.watches(c as int, r));
                } else {
                    assert(self.spec_rooms()[r].watchers@.len() == 1);
                    assert(self.spec_rooms()[r].watchers@[0] == c);
                    if s != c {
                        if self.watches(s as int, r) {
                            assert(mid.client_ok(s as int));
                            assert(false);
                        }
                        if self.spec_rooms()[r].watchers@.contains(s) {
                            let j = choose|j: int|
                                0 <= j < self.spec_rooms()[r].watchers@.len()
                                    && self.spec_rooms()[r].watchers@[j] == s;
                            assert(false);
                        }
                    }
                }
            }
        }
    }

    /// Add the acting user to a waiting room; reaching `max_players` starts
    /// the game at once.  A game that cannot start with that seat count is
    /// refused, and the join is rolled back whole.
    fn join_room(&mut self, r: usize, u: &UserId) -> (res: Result<(), &'static str>)
        requires
            old(self).wf(),
            r < old(self).spec_rooms().len(),
        ensures
            final(self).wf(),
            final(self).spec_clients() == old(self).spec_clients(),
            final(self).spec_users() == old(self).spec_users(),
            final(self).spec_rooms().len() == old(self).spec_rooms().len(),
            forall|r2: int|
                0 <= r2 < old(self).spec_rooms().len() && r2 != r ==> final(self).spec_rooms()[r2]
                    == old(self).spec_rooms()[r2],
            final(self).spec_rooms()[r as int].watchers == old(self).spec_rooms()[
                r as int
            ].watchers,
            join_outcome(
                old(self).spec_rooms()[r as int].room,
                final(self).spec_rooms()[r as int].room,
                u@,
                match res {
                    Err(m) => Some(m@),
                    _ => None,
                },
            ),
    {
        let ghost pre = *old(self);
        let (min, max) = match &self.rooms[r].room.state {
            RoomState::WaitingForPlayers { min_players, max_players } => (
                *min_players,
                *max_players,
            ),
            _ => {
                return Err("Room is not waiting for players");
            },
        };
        if self.rooms[r].room.has_player(u) {
            return Err("User is already in room");
        }
        if self.rooms[r].room.players.len() == max {
            return Err("Room is already full");
        }
        self.rooms[r].room.players.push(u.clone());
        proof {
            broadcast use vstd::seq_lib::lemma_seq_contains_after_push;

            assert(pre.spec_rooms()[r as int].room.wf());
            assert forall|i: int, j: int|
                0 <= i < j < self.spec_rooms()[r as int].room.players@.len() implies self.spec_rooms()[
                r as int
            ].room.players@[i]@ != self.spec_rooms()[r as int].room.players@[j]@ by {
                let ps = pre.spec_rooms()[r as int].room.players@;
                if j < ps.len() {
                    assert(crate::protocol::players_distinct(ps));
                } else {
                    assert(!players_contain(ps, u@));
                    if ps[i]@ == u@ {
                        assert(players_contain(ps, u@));
                    }
                }
            }
            assert(self.spec_rooms()[r as int].room.players@.take(
                pre.spec_rooms()[r as int].room.players@.len() as int,
            ) =~= pre.spec_rooms()[r as int].room.players@);
        }
        if self.rooms[r].room.players.len() == max {
            let res = self.rooms[r].room.start_game();
            match res {
                Ok(()) => {
                    proof {
                        self.lemma_room_content_wf(pre, r as int);
                    }
                    Ok(())
                },
                Err(e) => {
                    let ghost withu = self.spec_rooms()[r as int].room.players@;
                    let _popped = self.rooms[r].room.players.pop();
                    proof {
                        assert(withu.subrange(0, withu.len() - 1) =~= pre.spec_rooms()[
                            r as int
                        ].room.players@);
                        self.lemma_room_content_wf(pre, r as int);
                    }
                    Err(e)
                },
            }
        } else {
            proof {
                self.lemma_room_content_wf(pre, r as int);
            }
            Ok(())
        }
    }

    /// Start a waiting room's game at a joined player's request, once at
    /// least `min_players` have joined.
    fn start_room(&mut self, r: usize, u: &UserId) -> (res: Result<(), &'static str>)
        requires
            old(self).wf(),
            r < old(self).spec_rooms().len(),
        ensures
            final(self).wf(),
            final(self).spec_clients() == old(self).spec_clients(),
            final(self).spec_users() == old(self).spec_users(),
            final(self).spec_rooms().len() == old(self).spec_rooms().len(),
            forall|r2: int|
                0 <= r2 < old(self).spec_rooms().len() && r2 != r ==> final(self).spec_rooms()[r2]
                    == old(self).spec_rooms()[r2],
            final(self).spec_rooms()[r as int].watchers == old(self).spec_rooms()[
                r as int
            ].watchers,
            start_outcome(
                old(self).spec_rooms()[r as int].room,
                final(self).spec_rooms()[r as int].room,
                u@,
                match res {
                    Err(m) => Some(m@),
                    _ => None,
                },
            ),
    {
        let ghost pre = *old(self);
        let min = match &self.rooms[r].room.state {
            RoomState::WaitingForPlayers { min_players, .. } => *min_players,
            _ => {
                return Err("Room is not waiting for players");
            },
        };
        if !self.rooms[r].room.has_player(u) {
            return Err("User did not join room");
        }
        if self.rooms[r].room.players.len() < min {
            return Err("Not enough players");
        }
        proof {
            assert(pre.spec_rooms()[r as int].room.wf());
        }
        let res = self.rooms[r].room.start_game();
        match res {
            Ok(()) => {
                proof {
                    self.lemma_room_content_wf(pre, r as int);
                }
                Ok(())
            },
            Err(e) => {
                proof {
                    self.lemma_room_content_wf(pre, r as int);
                }
                Err(e)
            },
        }
    }

    /// Forward a move by the acting user to the room's game.
    fn move_in_room(&mut self, r: usize, u: &UserId, mov: Move) -> (res: Result<
        (),
        &'static str,
    >)
        requires
            old(self).wf(),
            r < old(self).spec_rooms().len(),
        ensures
            final(self).wf(),
            final(self).spec_clients() == old(self).spec_clients(),
            final(self).spec_users() == old(self).spec_users(),
            final(self).spec_rooms().len() == old(self).spec_rooms().len(),
            forall|r2: int|
                0 <= r2 < old(self).spec_rooms().len() && r2 != r ==> final(self).spec_rooms()[r2]
                    == old(self).spec_rooms()[r2],
            final(self).spec_rooms()[r as int].watchers == old(self).spec_rooms()[
                r as int
            ].watchers,
            final(self).spec_rooms()[r as int].room.roomid == old(self).spec_rooms()[
                r as int
            ].room.roomid,
            final(self).spec_rooms()[r as int].room.settings == old(self).spec_rooms()[
                r as int
            ].room.settings,
            final(self).spec_rooms()[r as int].room.players@ == old(self).spec_rooms()[
                r as int
            ].room.players@,
            res is Err ==> final(self).spec_rooms()[r as int] == old(self).spec_rooms()[r as int],
            (res is Err) <==> (room_move_err(
                old(self).spec_rooms()[r as int].room.state,
                u@,
                mov,
            ) is Some),
            res matches Err(m) ==> room_move_err(
                old(self).spec_rooms()[r as int].room.state,
                u@,
                mov,
            ) == Some(m@),
            room_move_rel(
                old(self).spec_rooms()[r as int].room.state,
                final(self).spec_rooms()[r as int].room.state,
                u@,
                mov,
            ),
    {
        let ghost pre = *old(self);
        proof {
            assert(pre.spec_rooms()[r as int].room.wf());
        }
        let res = self.rooms[r].room.state.make_move(u, mov);
        proof {
            let preroom = pre.spec_rooms()[r as int].room;
            let postroom = self.spec_rooms()[r as int].room;
            match preroom.state {
                RoomState::Started(og) => {
                    match og {
                        Some(g) => {
                            if players_contain(g.spec_players(), u@) {
                                crate::protocol::lemma_some_match_gives_first(
                                    g.spec_players(),
                                    u@,
                                );
                                let i = choose|i: int| first_match(g.spec_players(), u@, i);
                                assert(first_match(g.spec_players(), u@, i));
                                if res is Ok {
                                    match postroom.state {
                                        RoomState::Started(og2) => {
                                            match og2 {
                                                Some(g2) => {
                                                    assert(crate::game::move_effect(
                                                        g,
                                                        g2,
                                                        i as usize,
                                                        mov,
                                                    ));
                                                    assert(g2.spec_players()
                                                        == g.spec_players());
                                                    assert(g2.spec_players().to_multiset()
                                                        == preroom.players@.to_multiset());
                                                },
                                                None => {},
                                            }
                                        },
                                        RoomState::Ended(og2) => {
                                            match og2 {
                                                Some(g2) => {
                                                    assert(crate::game::move_effect(
                                                        g,
                                                        g2,
                                                        i as usize,
                                                        mov,
                                                    ));
                                                    assert(g2.spec_players()
                                                        == g.spec_players());
                                                },
                                                None => {},
                                            }
                                        },
                                        _ => {},
                                    }
                                }
                            }
                        },
                        None => {},
                    }
                },
                _ => {},
            }
            self.lemma_room_content_wf(pre, r as int);
        }
        res
    }

    /// The room list sent after the actions that do not touch a room.
    fn room_list(&self) -> (resp: Response)
        ensures
            is_room_list_of(resp, self.spec_rooms()),
    {
        let mut v: Vec<Room> = Vec::new();
        let mut i: usize = 0;
        while i < self.rooms.len()
            invariant
                i <= self.spec_rooms().len(),
                v@.len() == i,
                forall|j: int|
                    0 <= j < i ==> list_item_of(self.spec_rooms()[j].room, #[trigger] v@[j]),
            decreases self.spec_rooms().len() - i,
        {
            v.push(self.rooms[i].room.to_list_item());
            i = i + 1;
        }
        Response::RoomList(v)
    }

    /// Recompute the per-recipient view of room `r` for every socket in its
    /// watcher set, in watcher order.
    fn broadcast_room(&self, r: usize) -> (out: Vec<(ClientId, Response)>)
        requires
            self.wf(),
            r < self.spec_rooms().len(),
        ensures
            broadcast_ok(*self, r as int, out@),
    {
        let mut out: Vec<(ClientId, Response)> = Vec::new();
        let mut i: usize = 0;
        while i < self.rooms[r].watchers.len()
            invariant
                self.wf(),
                r < self.spec_rooms().len(),
                i <= self.spec_rooms()[r as int].watchers@.len(),
                out@.len() == i,
                forall|j: int|
                    0 <= j < i ==> (#[trigger] out@[j]).0 == self.spec_rooms()[
                        r as int
                    ].watchers@[j] && sent_view_ok(*self, r as int, out@[j].0, out@[j].1),
            decreases self.spec_rooms()[r as int].watchers@.len() - i,
        {
            let w = self.rooms[r].watchers[i];
            proof {
                assert(self.spec_rooms()[r as int].watchers@.contains(w));
                assert(self.watches(w as int, r as int));
                assert(self.client_ok(w as int));
            }
            let resp = match &self.clients[w] {
                Some(cl) => {
                    match &cl.userid {
                        Some(u) => Response::Room(self.rooms[r].room.to_view(u)),
                        None => {
                            proof {
                                assert(false);
                            }
                            Response::NotLoggedIn
                        },
                    }
                },
                None => {
                    proof {
                        assert(false);
                    }
                    Response::NotLoggedIn
                },
            };
            out.push((w, resp));
            i = i + 1;
        }
        out
    }

    /// Apply one action on behalf of one open socket, returning every
    /// message to deliver: either one direct response to the acting
    /// socket, or — after a room changed — one fresh view per watcher.
    pub fn handle_action(&mut self, clientid: ClientId, action: Action) -> (out: Vec<(ClientId, Response)>)
        requires
            old(self).wf(),
            old(self).is_client(clientid as int),
        ensures
            final(self).wf(),
            dispatch_ok(*old(self), clientid, action, *final(self), out@),
    {
        proof {
            assert(old(self).client_ok(clientid as int));
        }
        let ghost pre = *old(self);
        let mut out: Vec<(ClientId, Response)> = Vec::new();
        match action {
            Action::Login(name) => {
                let ghost name_g = name;
                self.logout_internal(clientid);
                let ghost mid = *self;
                self.bind_user(clientid, name);
                proof {
                    assert(self.spec_clients() =~= pre.spec_clients().update(
                        clientid as int,
                        Some(Client { userid: Some(name_g), roomid: None }),
                    ));
                    assert forall|r: int|
                        0 <= r < pre.spec_rooms().len() implies self.spec_rooms()[r].room
                        == pre.spec_rooms()[r].room by {
                        assert(mid.spec_rooms()[r].room == pre.spec_rooms()[r].room);
                        assert(self.spec_rooms()[r] == mid.spec_rooms()[r]);
                    }
                    if exists|k: int|
                        0 <= k < pre.spec_users().len() && pre.spec_users()[k].name@ == name_g@ {
                        let k = choose|k: int|
                            0 <= k < pre.spec_users().len() && pre.spec_users()[k].name@
                                == name_g@;
                        assert(mid.spec_users()[k].name@ == name_g@);
                        assert forall|k2: int|
                            0 <= k2 < pre.spec_users().len() implies self.spec_users()[k2].name
                            == pre.spec_users()[k2].name by {
                            assert(mid.spec_users()[k2].name == pre.spec_users()[k2].name);
                        }
                    } else {
                        if exists|k: int|
                            0 <= k < mid.spec_users().len() && mid.spec_users()[k].name@
                                == name_g@ {
                            let k = choose|k: int|
                                0 <= k < mid.spec_users().len() && mid.spec_users()[k].name@
                                    == name_g@;
                            assert(pre.spec_users()[k].name@ == name_g@);
                            assert(false);
                        }
                        assert forall|k2: int|
                            0 <= k2 < pre.spec_users().len() implies self.spec_users()[k2].name
                            == pre.spec_users()[k2].name by {
                            assert(mid.spec_users()[k2].name == pre.spec_users()[k2].name);
                        }
                    }
                    assert(user_names_after_login(pre, *self, name_g@));
                }
                let resp = self.room_list();
                out.push((clientid, resp));
            },
            Action::Logout => {
                self.logout_internal(clientid);
                out.push((clientid, Response::NotLoggedIn));
            },
            Action::LeaveRoom => {
                self.leave_room_internal(clientid);
                let resp = self.room_list();
                out.push((clientid, resp));
            },
            Action::WatchRoom(rid) => {
                let uopt = match &self.clients[clientid] {
                    Some(cl) => clone_opt_string(&cl.userid),
                    None => {
                        proof {
                            assert(false);
                        }
                        None
                    },
                };
                match uopt {
                    None => {
                        out.push((clientid, Response::NotLoggedIn));
                    },
                    Some(u) => {
                        if rid.0 >= self.rooms.len() {
                            out.push(
                                (clientid, Response::Error(String::from_str("Room not found"))),
                            );
                        } else {
                            self.watch_room_internal(clientid, rid.0);
                            proof {
                                assert(self.spec_rooms()[rid.0 as int].room == pre.spec_rooms()[
                                    rid.0 as int
                                ].room);
                                assert(self.spec_rooms()[rid.0 as int].room.wf());
                            }
                            let view = self.rooms[rid.0].room.to_view(&u);
                            out.push((clientid, Response::Room(view)));
                        }
                    },
                }
            },
            Action::NewRoom { min_players, max_players, settings } => {
                let uopt = match &self.clients[clientid] {
                    Some(cl) => clone_opt_string(&cl.userid),
                    None => {
                        proof {
                            assert(false);
                        }
                        None
                    },
                };
                match uopt {
                    None => {
                        out.push((clientid, Response::NotLoggedIn));
                    },
                    Some(u) => {
                        if min_players < 1 || min_players > max_players {
                            out.push(
                                (
                                    clientid,
                                    Response::Error(String::from_str("Invalid player limits")),
                                ),
                            );
                        } else {
                            self.new_room(clientid, min_players, max_players, settings, &u);
                            let rid = self.rooms.len() - 1;
                            proof {
                                assert(self.spec_rooms()[rid as int] == self.spec_rooms().last());
                                assert(self.spec_rooms()[rid as int].room.wf());
                            }
                            let view = self.rooms[rid].room.to_view(&u);
                            out.push((clientid, Response::Room(view)));
                        }
                    },
                }
            },
            Action::JoinRoom => {
                let (uopt, ropt) = match &self.clients[clientid] {
                    Some(cl) => (clone_opt_string(&cl.userid), cl.roomid),
                    None => {
                        proof {
                            assert(false);
                        }
                        (None, None)
                    },
                };
                match uopt {
                    None => {
                        out.push((clientid, Response::NotLoggedIn));
                    },
                    Some(u) => {
                        if let Some(roomid) = ropt {
                            let r = roomid.0;
                            match self.join_room(r, &u) {
                                Ok(()) => {
                                    proof {
                                        assert(join_err(pre.spec_rooms()[r as int].room, u@)
                                            is None);
                                    }
                                    out = self.broadcast_room(r);
                                },
                                Err(e) => {
                                    proof {
                                        assert(join_err(pre.spec_rooms()[r as int].room, u@)
                                            == Some(e@));
                                    }
                                    out.push((clientid, Response::Error(String::from_str(e))));
                                },
                            }
                        }
                    },
                }
            },
            Action::StartGame => {
                let (uopt, ropt) = match &self.clients[clientid] {
                    Some(cl) => (clone_opt_string(&cl.userid), cl.roomid),
                    None => {
                        proof {
                            assert(false);
                        }
                        (None, None)
                    },
                };
                match uopt {
                    None => {
                        out.push((clientid, Response::NotLoggedIn));
                    },
                    Some(u) => {
                        if let Some(roomid) = ropt {
                            let r = roomid.0;
                            match self.start_room(r, &u) {
                                Ok(()) => {
                                    proof {
                                        assert(start_err(pre.spec_rooms()[r as int].room, u@)
                                            is None);
                                    }
                                    out = self.broadcast_room(r);
                                },
                                Err(e) => {
                                    proof {
                                        assert(start_err(pre.spec_rooms()[r as int].room, u@)
                                            == Some(e@));
                                    }
                                    out.push((clientid, Response::Error(String::from_str(e))));
                                },
                            }
                        }
                    },
                }
            },
            Action::MakeMove(mov) => {
                let (uopt, ropt) = match &self.clients[clientid] {
                    Some(cl) => (clone_opt_string(&cl.userid), cl.roomid),
                    None => {
                        proof {
                            assert(false);
                        }
                        (None, None)
                    },
                };
                match uopt {
                    None => {
                        out.push((clientid, Response::NotLoggedIn));
                    },
                    Some(u) => {
                        if let Some(roomid) = ropt {
                            let r = roomid.0;
                            if !self.rooms[r].room.has_player(&u) {
                                out.push(
                                    (
                                        clientid,
                                        Response::Error(
                                            String::from_str("User did not join room"),
                                        ),
                                    ),
                                );
                            } else {
                                match self.move_in_room(r, &u, mov) {
                                    Ok(()) => {
                                        out = self.broadcast_room(r);
                                    },
                                    Err(e) => {
                                        proof {
                                            assert(self.spec_rooms() =~= pre.spec_rooms());
                                        }
                                        out.push(
                                            (clientid, Response::Error(String::from_str(e))),
                                        );
                                    },
                                }
                            }
                        }
                    },
                }
            },
        }
        out
    }
}

/// A freshly created room: the next room number, the asked-for limits, the
/// creator as only player, the creating socket as only watcher.
pub open spec fn new_room_entry_ok(
    e: RoomEntry,
    rid: int,
    min_players: usize,
    max_players: usize,
    settings: GameVariant,
    creator: Seq<char>,
    c: ClientId,
) -> bool {
    &&& e.room.roomid.0 == rid
    &&& e.room.settings == settings
    &&& e.room.players@.len() == 1
    &&& e.room.players@[0]@ == creator
    &&& e.room.state matches RoomState::WaitingForPlayers {
        min_players: a,
        max_players: b,
    } && a == min_players && b == max_players
    &&& e.watchers@.len() == 1
    &&& e.watchers@[0] == c
}

/// What joining a room does to it: the errors in the order they are
/// checked; on success the user is appended, and a room thereby reaching
/// `max_players` starts its game — unless the game refuses the seat count,
/// which rolls the join back.
pub open spec fn join_outcome(pre: Room, post: Room, name: Seq<char>, err: Option<Seq<char>>) -> bool {
    match pre.state {
        RoomState::WaitingForPlayers { min_players, max_players } => {
            if players_contain(pre.players@, name) {
                err == Some("User is already in room"@) && post == pre
            } else if pre.players@.len() == max_players {
                err == Some("Room is already full"@) && post == pre
            } else if pre.players@.len() + 1 == max_players && !(2 <= pre.players@.len() + 1
                <= 5) {
                err == Some("Hanabi needs 2 to 5 players."@) && post.roomid == pre.roomid
                    && post.settings == pre.settings && post.players@ == pre.players@
                    && post.state == pre.state
            } else {
                &&& err is None
                &&& post.roomid == pre.roomid
                &&& post.settings == pre.settings
                &&& post.players@.len() == pre.players@.len() + 1
                &&& post.players@.take(pre.players@.len() as int) == pre.players@
                &&& post.players@.last()@ == name
                &&& if pre.players@.len() + 1 == max_players {
                    post.state matches RoomState::Started(og) && og matches Some(g) && g.wf()
                        && g.spec_variant() == pre.settings && g.spec_players().to_multiset()
                        == post.players@.to_multiset() && (g.spec_state() is NextPlayer)
                } else {
                    post.state matches RoomState::WaitingForPlayers {
                        min_players: a,
                        max_players: b,
                    } && a == min_players && b == max_players
                }
            }
        },
        _ => err == Some("Room is not waiting for players"@) && post == pre,
    }
}

/// What an explicit start does to a room: only a joined player may start,
/// only with at least `min_players` present, and only with a seat count
/// the game accepts.
pub open spec fn start_outcome(pre: Room, post: Room, name: Seq<char>, err: Option<Seq<char>>) -> bool {
    match pre.state {
        RoomState::WaitingForPlayers { min_players, max_players } => {
            if !players_contain(pre.players@, name) {
                err == Some("User did not join room"@) && post == pre
            } else if pre.players@.len() < min_players {
                err == Some("Not enough players"@) && post == pre
            } else if !(2 <= pre.players@.len() <= 5) {
                err == Some("Hanabi needs 2 to 5 players."@) && post == pre
            } else {
                &&& err is None
                &&& post.roomid == pre.roomid
                &&& post.settings == pre.settings
                &&& post.players@ == pre.players@
                &&& (post.state matches RoomState::Started(og) && og matches Some(g) && g.wf()
                    && g.spec_variant() == pre.settings && g.spec_players().to_multiset()
                    == pre.players@.to_multiset() && (g.spec_state() is NextPlayer)
                    && g.spec_log().len() == 0)
            }
        },
        _ => err == Some("Room is not waiting for players"@) && post == pre,
    }
}

/// Nothing changed: the same users, rooms and sockets.
pub open spec fn state_unchanged(pre: ServerState, post: ServerState) -> bool {
    &&& post.spec_clients() == pre.spec_clients()
    &&& post.spec_users() == pre.spec_users()
    &&& post.spec_rooms() == pre.spec_rooms()
}

/// The rooms' own contents — not their watcher sets — are as they were.
pub open spec fn rooms_content_unchanged(pre: ServerState, post: ServerState) -> bool {
    &&& post.spec_rooms().len() == pre.spec_rooms().len()
    &&& forall|r: int|
        0 <= r < pre.spec_rooms().len() ==> post.spec_rooms()[r].room == pre.spec_rooms()[r].room
}

/// The user table still lists the same names.
pub open spec fn user_names_unchanged(pre: ServerState, post: ServerState) -> bool {
    &&& post.spec_users().len() == pre.spec_users().len()
    &&& forall|k: int|
        0 <= k < pre.spec_users().len() ==> post.spec_users()[k].name == pre.spec_users()[k].name
}

/// The one message `(c, Error(m))`.
pub open spec fn out_error(out: Seq<(ClientId, Response)>, c: ClientId, m: Seq<char>) -> bool {
    out.len() == 1 && out[0].0 == c && (out[0].1 matches Response::Error(e) && e@ == m)
}

/// An action that needs a login, issued without one: nothing changes and
/// the caller alone is told to log in.
pub open spec fn not_logged_in_case(
    pre: ServerState,
    post: ServerState,
    c: ClientId,
    out: Seq<(ClientId, Response)>,
) -> bool {
    state_unchanged(pre, post) && out.len() == 1 && out[0].0 == c && (out[0].1 is NotLoggedIn)
}

/// A refused action: nothing changes and the caller alone gets the error.
pub open spec fn unchanged_with_error(
    pre: ServerState,
    post: ServerState,
    c: ClientId,
    out: Seq<(ClientId, Response)>,
    m: Seq<char>,
) -> bool {
    state_unchanged(pre, post) && out_error(out, c, m)
}

/// Only room `r`'s contents may have changed: every socket, user, watcher
/// set and other room is as it was.
pub open spec fn room_action_frame(pre: ServerState, post: ServerState, r: int) -> bool {
    &&& post.spec_clients() == pre.spec_clients()
    &&& post.spec_users() == pre.spec_users()
    &&& post.spec_rooms().len() == pre.spec_rooms().len()
    &&& forall|r2: int|
        0 <= r2 < pre.spec_rooms().len() && r2 != r ==> post.spec_rooms()[r2] == pre.spec_rooms()[
            r2
        ]
    &&& post.spec_rooms()[r].watchers == pre.spec_rooms()[r].watchers
}

/// The message a join is refused with, if it is refused.
pub open spec fn join_err(pre: Room, name: Seq<char>) -> Option<Seq<char>> {
    match pre.state {
        RoomState::WaitingForPlayers { min_players, max_players } => {
            if players_contain(pre.players@, name) {
                Some("User is already in room"@)
            } else if pre.players@.len() == max_players {
                Some("Room is already full"@)
            } else if pre.players@.len() + 1 == max_players && !(2 <= pre.players@.len() + 1
                <= 5) {
                Some("Hanabi needs 2 to 5 players."@)
            } else {
                None
            }
        },
        _ => Some("Room is not waiting for players"@),
    }
}

/// The message an explicit start is refused with, if it is refused.
pub open spec fn start_err(pre: Room, name: Seq<char>) -> Option<Seq<char>> {
    match pre.state {
        RoomState::WaitingForPlayers { min_players, max_players } => {
            if !players_contain(pre.players@, name) {
                Some("User did not join room"@)
            } else if pre.players@.len() < min_players {
                Some("Not enough players"@)
            } else if !(2 <= pre.players@.len() <= 5) {
                Some("Hanabi needs 2 to 5 players."@)
            } else {
                None
            }
        },
        _ => Some("Room is not waiting for players"@),
    }
}

/// What one action does: the whole contract of the dispatcher, case by
/// case.  Errors go to the acting socket alone; a successful change to a
/// room is followed by one freshly redacted view per watcher.
pub open spec fn dispatch_ok(
    pre: ServerState,
    c: ClientId,
    action: Action,
    post: ServerState,
    out: Seq<(ClientId, Response)>,
) -> bool {
    match pre.spec_clients()[c as int] {
        None => false,
        Some(cl) => match action {
            Action::Login(name) => {
                &&& post.spec_clients() == pre.spec_clients().update(
                    c as int,
                    Some(Client { userid: Some(name), roomid: None }),
                )
                &&& rooms_content_unchanged(pre, post)
                &&& user_names_after_login(pre, post, name@)
                &&& out.len() == 1 && out[0].0 == c && is_room_list_of(
                    out[0].1,
                    post.spec_rooms(),
                )
            },
            Action::Logout => {
                &&& post.spec_clients() == pre.spec_clients().update(
                    c as int,
                    Some(Client { userid: None, roomid: None }),
                )
                &&& rooms_content_unchanged(pre, post)
                &&& user_names_unchanged(pre, post)
                &&& out.len() == 1 && out[0].0 == c && (out[0].1 is NotLoggedIn)
            },
            Action::LeaveRoom => {
                &&& post.spec_clients() == pre.spec_clients().update(
                    c as int,
                    Some(Client { userid: cl.userid, roomid: None }),
                )
                &&& rooms_content_unchanged(pre, post)
                &&& post.spec_users() == pre.spec_users()
                &&& out.len() == 1 && out[0].0 == c && is_room_list_of(
                    out[0].1,
                    post.spec_rooms(),
                )
            },
            Action::WatchRoom(rid) => match cl.userid {
                None => not_logged_in_case(pre, post, c, out),
                Some(u) => {
                    if rid.0 >= pre.spec_rooms().len() {
                        unchanged_with_error(pre, post, c, out, "Room not found"@)
                    } else {
                        &&& post.spec_clients() == pre.spec_clients().update(
                            c as int,
                            Some(Client { userid: cl.userid, roomid: Some(rid) }),
                        )
                        &&& rooms_content_unchanged(pre, post)
                        &&& post.spec_users() == pre.spec_users()
                        &&& out.len() == 1 && out[0].0 == c && (out[0].1
                            matches Response::Room(v) && room_view_ok(
                            pre.spec_rooms()[rid.0 as int].room,
                            u@,
                            v,
                        ))
                    }
                },
            },
            Action::NewRoom { min_players, max_players, settings } => match cl.userid {
                None => not_logged_in_case(pre, post, c, out),
                Some(u) => {
                    if min_players < 1 || min_players > max_players {
                        unchanged_with_error(pre, post, c, out, "Invalid player limits"@)
                    } else {
                        &&& post.spec_rooms().len() == pre.spec_rooms().len() + 1
                        &&& forall|r: int|
                            0 <= r < pre.spec_rooms().len() ==> post.spec_rooms()[r].room
                                == pre.spec_rooms()[r].room
                        &&& new_room_entry_ok(
                            post.spec_rooms().last(),
                            pre.spec_rooms().len() as int,
                            min_players,
                            max_players,
                            settings,
                            u@,
                            c,
                        )
                        &&& post.spec_clients() == pre.spec_clients().update(
                            c as int,
                            Some(
                                Client {
                                    userid: cl.userid,
                                    roomid: Some(RoomId(pre.spec_rooms().len() as usize)),
                                },
                            ),
                        )
                        &&& post.spec_users() == pre.spec_users()
                        &&& out.len() == 1 && out[0].0 == c && (out[0].1
                            matches Response::Room(v) && room_view_ok(
                            post.spec_rooms().last().room,
                            u@,
                            v,
                        ))
                    }
                },
            },
            Action::JoinRoom => match cl.userid {
                None => not_logged_in_case(pre, post, c, out),
                Some(u) => match cl.roomid {
                    None => state_unchanged(pre, post) && out.len() == 0,
                    Some(rid) => {
                        &&& room_action_frame(pre, post, rid.0 as int)
                        &&& join_outcome(
                            pre.spec_rooms()[rid.0 as int].room,
                            post.spec_rooms()[rid.0 as int].room,
                            u@,
                            join_err(pre.spec_rooms()[rid.0 as int].room, u@),
                        )
                        &&& match join_err(pre.spec_rooms()[rid.0 as int].room, u@) {
                            Some(m) => out_error(out, c, m),
                            None => broadcast_ok(post, rid.0 as int, out),
                        }
                    },
                },
            },
            Action::StartGame => match cl.userid {
                None => not_logged_in_case(pre, post, c, out),
                Some(u) => match cl.roomid {
                    None => state_unchanged(pre, post) && out.len() == 0,
                    Some(rid) => {
                        &&& room_action_frame(pre, post, rid.0 as int)
                        &&& start_outcome(
                            pre.spec_rooms()[rid.0 as int].room,
                            post.spec_rooms()[rid.0 as int].room,
                            u@,
                            start_err(pre.spec_rooms()[rid.0 as int].room, u@),
                        )
                        &&& match start_err(pre.spec_rooms()[rid.0 as int].room, u@) {
                            Some(m) => out_error(out, c, m),
                            None => broadcast_ok(post, rid.0 as int, out),
                        }
                    },
                },
            },
            Action::MakeMove(mov) => match cl.userid {
                None => not_logged_in_case(pre, post, c, out),
                Some(u) => match cl.roomid {
                    None => state_unchanged(pre, post) && out.len() == 0,
                    Some(rid) => {
                        let preroom = pre.spec_rooms()[rid.0 as int].room;
                        if !players_contain(preroom.players@, u@) {
                            unchanged_with_error(pre, post, c, out, "User did not join room"@)
                        } else {
                            &&& room_action_frame(pre, post, rid.0 as int)
                            &&& post.spec_rooms()[rid.0 as int].room.roomid == preroom.roomid
                            &&& post.spec_rooms()[rid.0 as int].room.settings == preroom.settings
                            &&& post.spec_rooms()[rid.0 as int].room.players@ == preroom.players@
                            &&& room_move_rel(
                                preroom.state,
                                post.spec_rooms()[rid.0 as int].room.state,
                                u@,
                                mov,
                            )
                            &&& match room_move_err(preroom.state, u@, mov) {
                                Some(m) => out_error(out, c, m) && state_unchanged(pre, post),
                                None => broadcast_ok(post, rid.0 as int, out),
                            }
                        }
                    },
                },
            },
        },
    }
}

/// What logging in under `name` does to the user table: a known name keeps
/// the table as it is, a new one is appended.
pub open spec fn user_names_after_login(pre: ServerState, post: ServerState, name: Seq<char>) -> bool {
    if exists|k: int| 0 <= k < pre.spec_users().len() && pre.spec_users()[k].name@ == name {
        post.spec_users().len() == pre.spec_users().len() && forall|k: int|
            0 <= k < pre.spec_users().len() ==> post.spec_users()[k].name == pre.spec_users()[
                k
            ].name
    } else {
        post.spec_users().len() == pre.spec_users().len() + 1 && (forall|k: int|
            0 <= k < pre.spec_users().len() ==> post.spec_users()[k].name == pre.spec_users()[
                k
            ].name) && post.spec_users().last().name@ == name
    }
}

/// The response sent to watcher `w` after room `r` changed: the room as
/// `w`'s user may see it.
pub open spec fn sent_view_ok(s: ServerState, r: int, w: ClientId, resp: Response) -> bool {
    &&& s.is_client(w as int)
    &&& match s.spec_clients()[w as int] {
        Some(cl) => match cl.userid {
            Some(u) => resp matches Response::Room(rv) && room_view_ok(
                s.spec_rooms()[r].room,
                u@,
                rv,
            ),
            None => false,
        },
        None => false,
    }
}

/// `resp` lists exactly these rooms, each as its summary line.
pub open spec fn is_room_list_of(resp: Response, rooms: Seq<RoomEntry>) -> bool {
    resp matches Response::RoomList(v) && v@.len() == rooms.len() && forall|i: int|
        0 <= i < rooms.len() ==> list_item_of(rooms[i].room, #[trigger] v@[i])
}

/// One view per watcher of room `r`, in watcher order, each redacted for
/// its own recipient.
pub open spec fn broadcast_ok(post: ServerState, r: int, out: Seq<(ClientId, Response)>) -> bool {
    &&& out.len() == post.spec_rooms()[r].watchers@.len()
    &&& forall|i: int|
        0 <= i < out.len() ==> (#[trigger] out[i]).0 == post.spec_rooms()[r].watchers@[i]
            && sent_view_ok(post, r, out[i].0, out[i].1)
}

/// Copy an optional name; the copy reads the same and is the same name.
fn clone_opt_string(v: &Option<String>) -> (r: Option<String>)
    ensures
        r == *v,
{
    match v {
        Some(s) => Some(s.clone()),
        None => None,
    }
}

/// Take one socket number out of a duplicate-free list.
fn remove_id(v: &mut Vec<ClientId>, x: ClientId)
    requires
        distinct_ids(old(v)@),
    ensures
        distinct_ids(final(v)@),
        forall|s: ClientId| #[trigger]
            final(v)@.contains(s) <==> (old(v)@.contains(s) && s != x),
{
    let mut i: usize = 0;
    while i < v.len()
        invariant
            distinct_ids(v@),
            v@ == old(v)@,
            i <= v@.len(),
            forall|j: int| 0 <= j < i ==> v@[j] != x,
        decreases v@.len() - i,
    {
        if v[i] == x {
            v.remove(i);
            proof {
                let oldv = old(v)@;
                oldv.remove_ensures(i as int);
                assert forall|s: ClientId| #[trigger]
                    v@.contains(s) <==> (oldv.contains(s) && s != x) by {
                    if v@.contains(s) {
                        let j = choose|j: int| 0 <= j < v@.len() && v@[j] == s;
                        if j < i {
                            assert(oldv[j] == s);
                        } else {
                            assert(oldv[j + 1] == s);
                        }
                        assert(oldv.contains(s));
                        assert(s != x);
                    }
                    if oldv.contains(s) && s != x {
                        let j = choose|j: int| 0 <= j < oldv.len() && oldv[j] == s;
                        if j < i {
                            assert(v@[j] == s);
                        } else {
                            assert(v@[j - 1] == s);
                        }
                        assert(v@.contains(s));
                    }
                }
                assert forall|i1: int, i2: int|
                    0 <= i1 < i2 < v@.len() implies v@[i1] != v@[i2] by {
                    if i2 < i {
                        assert(v@[i1] == oldv[i1] && v@[i2] == oldv[i2]);
                    } else if i1 < i {
                        assert(v@[i1] == oldv[i1] && v@[i2] == oldv[i2 + 1]);
                    } else {
                        assert(v@[i1] == oldv[i1 + 1] && v@[i2] == oldv[i2 + 1]);
                    }
                }
            }
            return ;
        }
        i = i + 1;
    }
    proof {
        assert forall|s: ClientId| #[trigger]
            v@.contains(s) <==> (old(v)@.contains(s) && s != x) by {
            if v@.contains(s) {
                let j = choose|j: int| 0 <= j < v@.len() && v@[j] == s;
                assert(v@[j] != x);
            }
        }
    }
}

/// The index of the user with the given name, if one is registered.
fn find_user(users: &Vec<User>, name: &UserId) -> (r: Option<usize>)
    ensures
        r matches Some(k) ==> k < users@.len() && users@[k as int].name@ == name@,
        r is None ==> forall|k: int| 0 <= k < users@.len() ==> users@[k].name@ != name@,
{
    let mut i: usize = 0;
    while i < users.len()
        invariant
            i <= users@.len(),
            forall|k: int| 0 <= k < i ==> users@[k].name@ != name@,
        decreases users@.len() - i,
    {
        if users[i].name == *name {
            return Some(i);
        }
        i = i + 1;
    }
    None
}

/// Two room views that show the same thing.
pub open spec fn rooms_agree(a: Room, b: Room) -> bool {
    &&& a.roomid == b.roomid
    &&& a.settings == b.settings
    &&& a.players@ == b.players@
    &&& match (a.state, b.state) {
        (
            RoomState::WaitingForPlayers { min_players: a1, max_players: b1 },
            RoomState::WaitingForPlayers { min_players: a2, max_players: b2 },
        ) => a1 == a2 && b1 == b2,
        (RoomState::Started(ox), RoomState::Started(oy)) => (ox matches Some(x) && oy matches Some(
            y,
        ) && crate::game::game_equiv(x, y)),
        (RoomState::Ended(ox), RoomState::Ended(oy)) => (ox matches Some(x) && oy matches Some(y)
            && crate::game::game_equiv(x, y)),
        _ => false,
    }
}

/// Viewing one unchanged room twice for the same user shows the same
/// thing both times: views are a function of the room and the viewer.
pub proof fn lemma_room_view_agree(room: Room, name: Seq<char>, v1: Room, v2: Room)
    requires
        room.wf(),
        room_view_ok(room, name, v1),
        room_view_ok(room, name, v2),
    ensures
        rooms_agree(v1, v2),
{
    match room.state {
        RoomState::Started(og) => {
            match og {
                Some(g) => {
                    crate::game::lemma_user_view_agree(
                        g,
                        name,
                        v1.state->Started_0->Some_0,
                        v2.state->Started_0->Some_0,
                    );
                },
                None => {},
            }
        },
        RoomState::Ended(og) => {
            match og {
                Some(g) => {
                    crate::game::lemma_game_equiv_agree(
                        g,
                        v1.state->Ended_0->Some_0,
                        v2.state->Ended_0->Some_0,
                    );
                },
                None => {},
            }
        },
        _ => {},
    }
}

/// Asking to watch the same room twice, with no change to the room in
/// between, is answered with two views that show the same thing.
pub proof fn lemma_watch_idempotent(
    pre1: ServerState,
    pre2: ServerState,
    c: ClientId,
    rid: RoomId,
    post1: ServerState,
    post2: ServerState,
    out1: Seq<(ClientId, Response)>,
    out2: Seq<(ClientId, Response)>,
)
    requires
        pre1.wf(),
        pre2.wf(),
        rid.0 < pre1.spec_rooms().len(),
        rid.0 < pre2.spec_rooms().len(),
        pre2.spec_rooms()[rid.0 as int].room == pre1.spec_rooms()[rid.0 as int].room,
        pre1.spec_clients()[c as int] matches Some(cl1) && cl1.userid matches Some(u1) && (
        pre2.spec_clients()[c as int] matches Some(cl2) && cl2.userid matches Some(u2) && u2@
            == u1@),
        dispatch_ok(pre1, c, Action::WatchRoom(rid), post1, out1),
        dispatch_ok(pre2, c, Action::WatchRoom(rid), post2, out2),
    ensures
        out1.len() == 1 && out2.len() == 1,
        (out1[0].1 matches Response::Room(v1) && out2[0].1 matches Response::Room(v2)
            && rooms_agree(v1, v2)),
{
    let room = pre1.spec_rooms()[rid.0 as int].room;
    match (out1[0].1, out2[0].1) {
        (Response::Room(v1), Response::Room(v2)) => {
            assert(pre1.spec_rooms()[rid.0 as int].room.wf());
            lemma_room_view_agree(
                room,
                pre1.spec_clients()[c as int]->Some_0.userid->Some_0@,
                v1,
                v2,
            );
        },
        _ => {},
    }
}

/// A room's phase only moves forward: no action returns a started room to
/// waiting or reopens an ended one, and every room that existed survives.
pub proof fn lemma_phase_monotonic(
    pre: ServerState,
    c: ClientId,
    action: Action,
    post: ServerState,
    out: Seq<(ClientId, Response)>,
    r: int,
)
    requires
        pre.wf(),
        dispatch_ok(pre, c, action, post, out),
        0 <= r < pre.spec_rooms().len(),
    ensures
        r < post.spec_rooms().len(),
        crate::protocol::phase_leq(
            pre.spec_rooms()[r].room.state,
            post.spec_rooms()[r].room.state,
        ),
{
}

/// The one way a room's player list changes is growth at the end: a join
/// appends, nothing ever removes or reorders joined players.
pub proof fn lemma_players_only_grow(
    pre: ServerState,
    c: ClientId,
    action: Action,
    post: ServerState,
    out: Seq<(ClientId, Response)>,
    r: int,
)
    requires
        pre.wf(),
        dispatch_ok(pre, c, action, post, out),
        0 <= r < pre.spec_rooms().len(),
    ensures
        r < post.spec_rooms().len(),
        pre.spec_rooms()[r].room.players@.len() <= post.spec_rooms()[r].room.players@.len(),
        post.spec_rooms()[r].room.players@.take(pre.spec_rooms()[r].room.players@.len() as int)
            == pre.spec_rooms()[r].room.players@,
{
    match pre.spec_clients()[c as int] {
        Some(cl) => {
            match action {
                Action::JoinRoom => {
                    assert(post.spec_rooms()[r].room.players@.take(
                        pre.spec_rooms()[r].room.players@.len() as int,
                    ) =~= pre.spec_rooms()[r].room.players@);
                },
                _ => {
                    assert(post.spec_rooms()[r].room.players@.take(
                        pre.spec_rooms()[r].room.players@.len() as int,
                    ) =~= pre.spec_rooms()[r].room.players@);
                },
            }
        },
        None => {},
    }
}

/// Whether one action takes a waiting room to `Started`.
pub open spec fn started_trigger(pre: ServerState, c: ClientId, action: Action, r: int) -> bool {
    match pre.spec_clients()[c as int] {
        Some(cl) => match (cl.userid, cl.roomid) {
            (Some(u), Some(rid)) => rid.0 == r && match pre.spec_rooms()[r].room.state {
                RoomState::WaitingForPlayers { min_players, max_players } => {
                    let ps = pre.spec_rooms()[r].room.players@;
                    match action {
                        Action::JoinRoom => !players_contain(ps, u@) && ps.len() + 1
                            == max_players && 2 <= ps.len() + 1 <= 5,
                        Action::StartGame => players_contain(ps, u@) && min_players <= ps.len()
                            && 2 <= ps.len() <= 5,
                        _ => false,
                    }
                },
                _ => false,
            },
            _ => false,
        },
        None => false,
    }
}

/// A waiting room reaches `Started` exactly when a join fills it to
/// `max_players`, or a joined player starts it with at least `min_players`
/// present — in both cases with a seat count the game can be played with.
pub proof fn lemma_started_characterization(
    pre: ServerState,
    c: ClientId,
    action: Action,
    post: ServerState,
    out: Seq<(ClientId, Response)>,
    r: int,
)
    requires
        pre.wf(),
        dispatch_ok(pre, c, action, post, out),
        0 <= r < pre.spec_rooms().len(),
        pre.spec_rooms()[r].room.state is WaitingForPlayers,
    ensures
        r < post.spec_rooms().len(),
        (post.spec_rooms()[r].room.state is Started) <==> started_trigger(pre, c, action, r),
{
}

} // verus!
