//! The room registry: the single owner of room membership and the
//! fan-out point for broadcasts.
//!
//! One registry exists per process, created with the default room
//! `"Main"`; the surrounding runtime serializes all calls through one
//! mailbox, so each method sees and leaves a consistent state. Every
//! connected session sits in exactly one room, held as an index into the
//! room list, so membership exclusivity is structural. Rooms are created
//! lazily on first join and persist, empty or not, until the process
//! ends; the room list keeps creation order, which makes listings
//! deterministic.

use vstd::prelude::*;

use crate::codec::ChatResponse;
use crate::wire::RespView;

verus! {

/// The connection-local record the registry keeps per session: the
/// process-unique connection id, the nickname (defaulting to the decimal
/// form of the id), and the current room as an index into the room list.
struct SessionRec {
    id: u64,
    nick: String,
    room: usize,
}

/// The registry: the room list and one record per connected session.
pub struct Registry {
    rooms: Vec<String>,
    sessions: Vec<SessionRec>,
}

/// The decimal digits of `n`, most significant first.
pub open spec fn dec_str(n: nat) -> Seq<char>
    decreases n,
{
    if n < 10 {
        seq![digit_char(n)]
    } else {
        dec_str(n / 10).push(digit_char(n % 10))
    }
}

/// The digit character for a value below ten.
pub open spec fn digit_char(d: nat) -> char {
    if d == 0 {
        '0'
    } else if d == 1 {
        '1'
    } else if d == 2 {
        '2'
    } else if d == 3 {
        '3'
    } else if d == 4 {
        '4'
    } else if d == 5 {
        '5'
    } else if d == 6 {
        '6'
    } else if d == 7 {
        '7'
    } else if d == 8 {
        '8'
    } else {
        '9'
    }
}

/// Relies on `String::push`: it appends the given character to the end
/// of the string.
#[verifier::external_body]
fn push_char(s: &mut String, c: char)
    ensures
        final(s)@ == old(s)@.push(c),
{
    s.push(c)
}

/// The decimal form of `n`, proved to spell [`dec_str`].
pub fn u64_to_string(n: u64) -> (s: String)
    ensures
        s@ == dec_str(n as nat),
    decreases n,
{
    let d = (n % 10) as u8;
    let c: char = if d == 0 {
        '0'
    } else if d == 1 {
        '1'
    } else if d == 2 {
        '2'
    } else if d == 3 {
        '3'
    } else if d == 4 {
        '4'
    } else if d == 5 {
        '5'
    } else if d == 6 {
        '6'
    } else if d == 7 {
        '7'
    } else if d == 8 {
        '8'
    } else {
        '9'
    };
    if n < 10 {
        let mut s = String::new();
        push_char(&mut s, c);
        proof {
            assert(s@ =~= dec_str(n as nat));
        }
        s
    } else {
        let mut s = u64_to_string(n / 10);
        push_char(&mut s, c);
        s
    }
}

impl Registry {
    /// Whether a session with this id is connected.
    pub closed spec fn connected(self, id: u64) -> bool {
        exists|k: int| 0 <= k < self.sessions@.len() && self.sessions@[k].id == id
    }

    /// The index of the connected session with this id.
    closed spec fn sess_idx(self, id: u64) -> int {
        choose|k: int| 0 <= k < self.sessions@.len() && self.sessions@[k].id == id
    }

    /// The name of the room a connected session is in.
    pub closed spec fn room_of(self, id: u64) -> Seq<char> {
        self.rooms@[self.sessions@[self.sess_idx(id)].room as int]@
    }

    /// The nickname a connected session has.
    pub closed spec fn nick_of(self, id: u64) -> Seq<char> {
        self.sessions@[self.sess_idx(id)].nick@
    }

    /// The room names, in creation order.
    pub closed spec fn room_names(self) -> Seq<Seq<char>> {
        self.rooms.deep_view()
    }

    /// Whether a room of this name exists.
    pub open spec fn has_room(self, name: Seq<char>) -> bool {
        self.room_names().contains(name)
    }

    /// Whether a connected session is a member of the room of this name.
    /// A session is a member of exactly the room it is in.
    pub open spec fn in_room(self, id: u64, name: Seq<char>) -> bool {
        self.connected(id) && self.room_of(id) == name
    }

    /// Whether two connected sessions share a room.
    pub open spec fn in_same_room(self, a: u64, b: u64) -> bool {
        self.connected(a) && self.connected(b) && self.room_of(a) == self.room_of(b)
    }

    /// Well-formedness: ids are unique, every session's room index is in
    /// range, room names are unique, and the default room `"Main"` is
    /// the first room.
    pub closed spec fn wf(self) -> bool {
        &&& forall|k1: int, k2: int|
            0 <= k1 < k2 < self.sessions@.len() ==> self.sessions@[k1].id != self.sessions@[k2].id
        &&& forall|k: int|
            0 <= k < self.sessions@.len() ==> (#[trigger] self.sessions@[k].room)
                < self.rooms@.len()
        &&& forall|i: int, j: int| 0 <= i < j < self.rooms@.len() ==> self.rooms@[i]@ != self.rooms@[j]@
        &&& self.rooms@.len() >= 1
        &&& self.rooms@[0]@ == "Main"@
    }

    /// Any index holding `id` is the index of `id`.
    proof fn lemma_idx(self, id: u64, k: int)
        requires
            self.wf(),
            0 <= k < self.sessions@.len(),
            self.sessions@[k].id == id,
        ensures
            self.connected(id),
            self.sess_idx(id) == k,
    {
        assert(self.connected(id));
        let k2 = self.sess_idx(id);
        if k2 != k {
            assert(self.sessions@[k2].id == self.sessions@[k].id);
        }
    }

    /// A fresh registry: no sessions, and the one default room `"Main"`.
    pub fn new() -> (r: Registry)
        ensures
            r.wf(),
            r.room_names() == seq!["Main"@],
            forall|id: u64| !r.connected(id),
    {
        let mut rooms: Vec<String> = Vec::new();
        rooms.push(String::from_str("Main"));
        let r = Registry { rooms, sessions: Vec::new() };
        proof {
            assert(r.room_names() =~= seq!["Main"@]);
        }
        r
    }

    /// The executable index of the session with this id, if connected.
    fn find_session(&self, id: u64) -> (r: Option<usize>)
        requires
            self.wf(),
        ensures
            match r {
                Some(k) => k < self.sessions@.len() && self.sessions@[k as int].id == id
                    && self.connected(id) && self.sess_idx(id) == k,
                None => !self.connected(id),
            },
    {
        let mut k: usize = 0;
        while k < self.sessions.len()
            invariant
                self.wf(),
                k <= self.sessions@.len(),
                forall|t: int| 0 <= t < k ==> self.sessions@[t].id != id,
            decreases self.sessions@.len() - k,
        {
            if self.sessions[k].id == id {
                proof {
                    self.lemma_idx(id, k as int);
                }
                return Some(k);
            }
            k += 1;
        }
        None
    }

    /// The executable index of the room with this name, if it exists.
    fn find_room(&self, name: &String) -> (r: Option<usize>)
        requires
            self.wf(),
        ensures
            match r {
                Some(i) => i < self.rooms@.len() && self.rooms@[i as int]@ == name@ && self.has_room(
                    name@,
                ),
                None => !self.has_room(name@),
            },
    {
        let mut i: usize = 0;
        while i < self.rooms.len()
            invariant
                self.wf(),
                i <= self.rooms@.len(),
                forall|t: int| 0 <= t < i ==> self.rooms@[t]@ != name@,
            decreases self.rooms@.len() - i,
        {
            if self.rooms[i].eq(name) {
                proof {
                    assert(self.room_names()[i as int] == self.rooms@[i as int]@);
                }
                return Some(i);
            }
            i += 1;
        }
        proof {
            assert forall|t: int| 0 <= t < self.room_names().len() implies self.room_names()[t]
                != name@ by {
                assert(self.room_names()[t] == self.rooms@[t]@);
                assert(self.rooms@[t]@ != name@);
            }
        }
        None
    }

    /// Adds a new session and places it into the default room `"Main"`,
    /// with the decimal form of its id as the starting nickname.
    /// Everything about other sessions, and the room list, is unchanged.
    pub fn register(&mut self, id: u64)
        requires
            old(self).wf(),
            !old(self).connected(id),
        ensures
            final(self).wf(),
            final(self).connected(id),
            final(self).in_room(id, "Main"@),
            final(self).nick_of(id) == dec_str(id as nat),
            final(self).room_names() == old(self).room_names(),
            forall|id2: u64|
                #![trigger final(self).connected(id2)]
                #![trigger old(self).connected(id2)]
                id2 != id ==> final(self).connected(id2) == old(self).connected(id2),
            forall|id2: u64|
                #![trigger final(self).room_of(id2)]
                #![trigger old(self).room_of(id2)]
                id2 != id && old(self).connected(id2) ==> final(self).room_of(id2) == old(
                    self,
                ).room_of(id2) && final(self).nick_of(id2) == old(self).nick_of(id2),
    {
        let nick = u64_to_string(id);
        let ghost pre = *self;
        self.sessions.push(SessionRec { id, nick, room: 0 });
        proof {
            let n = pre.sessions@.len() as int;
            assert(self.sessions@[n].id == id);
            self.lemma_idx(id, n);
            assert(self.room_of(id) == self.rooms@[0]@);
            assert(self.has_room("Main"@)) by {
                assert(self.room_names()[0] == "Main"@);
            }
            assert forall|id2: u64| id2 != id implies self.connected(id2) == pre.connected(
                id2,
            ) by {
                if pre.connected(id2) {
                    let k = pre.sess_idx(id2);
                    assert(self.sessions@[k].id == id2);
                }
                if self.connected(id2) {
                    let k = self.sess_idx(id2);
                    assert(pre.sessions@[k].id == id2);
                }
            }
            assert forall|id2: u64| id2 != id && pre.connected(id2) implies self.room_of(id2)
                == pre.room_of(id2) && self.nick_of(id2) == pre.nick_of(id2) by {
                let k = pre.sess_idx(id2);
                pre.lemma_idx(id2, k);
                self.lemma_idx(id2, k);
            }
        }
    }

    /// Removes the session from its room and from the registry. A no-op
    /// when the id is already absent, so disconnecting twice is safe.
    pub fn unregister(&mut self, id: u64)
        requires
            old(self).wf(),
        ensures
            final(self).wf(),
            !final(self).connected(id),
            forall|name: Seq<char>| !final(self).in_room(id, name),
            final(self).room_names() == old(self).room_names(),
            forall|id2: u64|
                #![trigger final(self).connected(id2)]
                #![trigger old(self).connected(id2)]
                id2 != id ==> final(self).connected(id2) == old(self).connected(id2),
            forall|id2: u64|
                #![trigger final(self).room_of(id2)]
                #![trigger old(self).room_of(id2)]
                id2 != id && old(self).connected(id2) ==> final(self).room_of(id2) == old(
                    self,
                ).room_of(id2) && final(self).nick_of(id2) == old(self).nick_of(id2),
    {
        let ghost pre = *self;
        match self.find_session(id) {
            None => {
                proof {
                    assert(!self.connected(id));
                }
            },
            Some(k) => {
                self.sessions.remove(k);
                proof {
                    let n = self.sessions@.len() as int;
                    assert forall|t: int| 0 <= t < n implies self.sessions@[t]
                        == if t < k as int {
                        pre.sessions@[t]
                    } else {
                        pre.sessions@[t + 1]
                    } by {}
                    assert(!self.connected(id)) by {
                        if self.connected(id) {
                            let t = self.sess_idx(id);
                            if t < k as int {
                                assert(pre.sessions@[t].id == id);
                            } else {
                                assert(pre.sessions@[t + 1].id == id);
                            }
                        }
                    }
                    assert forall|id2: u64| id2 != id implies self.connected(id2) == pre.connected(
                        id2,
                    ) by {
                        if pre.connected(id2) {
                            let t = pre.sess_idx(id2);
                            if t < k as int {
                                assert(self.sessions@[t].id == id2);
                            } else {
                                assert(t != k as int);
                                assert(self.sessions@[t - 1].id == id2);
                            }
                        }
                        if self.connected(id2) {
                            let t = self.sess_idx(id2);
                            if t < k as int {
                                assert(pre.sessions@[t].id == id2);
                            } else {
                                assert(pre.sessions@[t + 1].id == id2);
                            }
                        }
                    }
                    assert forall|id2: u64| id2 != id && pre.connected(id2) implies self.room_of(
                        id2,
                    ) == pre.room_of(id2) && self.nick_of(id2) == pre.nick_of(id2) by {
                        let t = pre.sess_idx(id2);
                        pre.lemma_idx(id2, t);
                        if t < k as int {
                            self.lemma_idx(id2, t);
                        } else {
                            assert(t != k as int);
                            assert(self.sessions@[t - 1].id == id2);
                            self.lemma_idx(id2, t - 1);
                        }
                    }
                }
            },
        }
    }

    /// Records the nickname for this session and builds the
    /// confirmation that goes back to the caller only. Membership, the
    /// room list, and every other session are untouched.
    pub fn set_nickname(&mut self, id: u64, nick: String) -> (r: ChatResponse)
        requires
            old(self).wf(),
            old(self).connected(id),
        ensures
            final(self).wf(),
            final(self).nick_of(id) == nick@,
            final(self).room_of(id) == old(self).room_of(id),
            final(self).room_names() == old(self).room_names(),
            forall|id2: u64|
                #![trigger final(self).connected(id2)]
                #![trigger old(self).connected(id2)]
                final(self).connected(id2) == old(self).connected(id2),
            forall|id2: u64|
                #![trigger final(self).room_of(id2)]
                #![trigger old(self).room_of(id2)]
                id2 != id && old(self).connected(id2) ==> final(self).room_of(id2) == old(
                    self,
                ).room_of(id2) && final(self).nick_of(id2) == old(self).nick_of(id2),
            r@ == RespView::SetNickName(nick@),
    {
        let ghost pre = *self;
        let k = self.find_session(id).unwrap();
        let resp = ChatResponse::SetNickName(nick.clone());
        self.sessions[k].nick = nick;
        proof {
            assert forall|t: int| 0 <= t < self.sessions@.len() implies self.sessions@[t].id
                == pre.sessions@[t].id && self.sessions@[t].room == pre.sessions@[t].room by {}
            assert forall|id2: u64| self.connected(id2) == pre.connected(id2) by {
                if pre.connected(id2) {
                    let t = pre.sess_idx(id2);
                    assert(self.sessions@[t].id == id2);
                }
                if self.connected(id2) {
                    let t = self.sess_idx(id2);
                    assert(pre.sessions@[t].id == id2);
                }
            }
            self.lemma_idx(id, k as int);
            assert forall|id2: u64| id2 != id && pre.connected(id2) implies self.room_of(id2)
                == pre.room_of(id2) && self.nick_of(id2) == pre.nick_of(id2) by {
                let t = pre.sess_idx(id2);
                pre.lemma_idx(id2, t);
                self.lemma_idx(id2, t);
            }
        }
        resp
    }

    /// The current room names, in creation order, as the reply sent to
    /// the caller only. Deterministic: a pure function of the state.
    pub fn list_rooms(&self) -> (r: ChatResponse)
        requires
            self.wf(),
        ensures
            r@ == RespView::Rooms(self.room_names()),
    {
        let mut names: Vec<String> = Vec::new();
        let mut i: usize = 0;
        while i < self.rooms.len()
            invariant
                i <= self.rooms@.len(),
                names@.len() == i,
                forall|t: int| 0 <= t < i ==> (#[trigger] names@[t])@ == self.rooms@[t]@,
            decreases self.rooms@.len() - i,
        {
            names.push(self.rooms[i].clone());
            i += 1;
        }
        proof {
            assert forall|t: int| 0 <= t < self.rooms@.len() implies names.deep_view()[t]
                == self.room_names()[t] by {
                assert(names.deep_view()[t] == names@[t]@);
                assert(self.room_names()[t] == self.rooms@[t]@);
            }
            assert(names.deep_view() =~= self.room_names());
        }
        ChatResponse::Rooms(names)
    }

    /// Moves the session out of its previous room and into the room of
    /// this name, creating that room if it does not yet exist; builds
    /// the confirmation that goes back to the caller only. Nothing about
    /// any other session changes.
    pub fn join(&mut self, id: u64, room: String) -> (r: ChatResponse)
        requires
            old(self).wf(),
            old(self).connected(id),
        ensures
            final(self).wf(),
            final(self).in_room(id, room@),
            forall|n: Seq<char>| n != room@ ==> !final(self).in_room(id, n),
            final(self).has_room(room@),
            final(self).nick_of(id) == old(self).nick_of(id),
            old(self).has_room(room@) ==> final(self).room_names() == old(self).room_names(),
            !old(self).has_room(room@) ==> final(self).room_names() == old(
                self,
            ).room_names().push(room@),
            forall|id2: u64|
                #![trigger final(self).connected(id2)]
                #![trigger old(self).connected(id2)]
                final(self).connected(id2) == old(self).connected(id2),
            forall|id2: u64|
                #![trigger final(self).room_of(id2)]
                #![trigger old(self).room_of(id2)]
                id2 != id && old(self).connected(id2) ==> final(self).room_of(id2) == old(
                    self,
                ).room_of(id2) && final(self).nick_of(id2) == old(self).nick_of(id2),
            r@ == RespView::Joined(room@),
    {
        let ghost pre = *self;
        let k = self.find_session(id).unwrap();
        let ridx = match self.find_room(&room) {
            Some(i) => i,
            None => {
                let i = self.rooms.len();
                self.rooms.push(room.clone());
                proof {
                    assert(self.room_names() =~= pre.room_names().push(room@));
                }
                i
            },
        };
        let resp = ChatResponse::Joined(room);
        self.sessions[k].room = ridx;
        proof {
            assert(self.room_names()[ridx as int] == self.rooms@[ridx as int]@);
            assert(self.wf()) by {
                assert forall|i2: int, j2: int| 0 <= i2 < j2 < self.rooms@.len() implies self.rooms@[i2]@ != self.rooms@[j2]@ by {
                    if j2 >= pre.rooms@.len() {
                        assert(pre.room_names()[i2] == pre.rooms@[i2]@);
                        assert(!pre.room_names().contains(self.rooms@[j2]@));
                    }
                }
            }
            assert forall|t: int| 0 <= t < self.sessions@.len() implies self.sessions@[t].id
                == pre.sessions@[t].id && self.sessions@[t].nick == pre.sessions@[t].nick by {}
            assert forall|id2: u64| self.connected(id2) == pre.connected(id2) by {
                if pre.connected(id2) {
                    let t = pre.sess_idx(id2);
                    assert(self.sessions@[t].id == id2);
                }
                if self.connected(id2) {
                    let t = self.sess_idx(id2);
                    assert(pre.sessions@[t].id == id2);
                }
            }
            self.lemma_idx(id, k as int);
            assert(self.room_of(id) == room@);
            assert forall|id2: u64| id2 != id && pre.connected(id2) implies self.room_of(id2)
                == pre.room_of(id2) && self.nick_of(id2) == pre.nick_of(id2) by {
                let t = pre.sess_idx(id2);
                pre.lemma_idx(id2, t);
                self.lemma_idx(id2, t);
                assert(self.rooms@[self.sessions@[t].room as int]@ == pre.rooms@[pre.sessions@[t].room as int]@);
            }
        }
        resp
    }

    /// The deliveries of one broadcast: `Message(text)` addressed to
    /// every member of the sender's current room except the sender
    /// itself (no echo), each exactly once, in registration order. The
    /// surrounding runtime hands each pair to the addressed session's
    /// outbound handle; an id that disconnected is no longer a member,
    /// so it is never targeted.
    pub fn broadcast(&self, sender: u64, text: String) -> (r: Vec<(u64, ChatResponse)>)
        requires
            self.wf(),
            self.connected(sender),
        ensures
            forall|u: int|
                0 <= u < r@.len() ==> (#[trigger] r@[u]).1@ == RespView::Message(text@) && r@[u].0
                    != sender && self.in_same_room(sender, r@[u].0),
            forall|id2: u64|
                id2 != sender && self.in_same_room(sender, id2) ==> exists|u: int|
                    0 <= u < r@.len() && (#[trigger] r@[u]).0 == id2,
            forall|u1: int, u2: int| 0 <= u1 < u2 < r@.len() ==> r@[u1].0 != r@[u2].0,
    {
        let k = self.find_session(sender).unwrap();
        let ridx = self.sessions[k].room;
        let mut out: Vec<(u64, ChatResponse)> = Vec::new();
        let mut t: usize = 0;
        while t < self.sessions.len()
            invariant
                self.wf(),
                self.connected(sender),
                self.sess_idx(sender) == k as int,
                k < self.sessions@.len(),
                ridx == self.sessions@[k as int].room,
                t <= self.sessions@.len(),
                forall|u: int|
                    0 <= u < out@.len() ==> (#[trigger] out@[u]).1@ == RespView::Message(text@)
                        && out@[u].0 != sender,
                forall|u: int|
                    0 <= u < out@.len() ==> exists|q: int|
                        #![auto]
                        0 <= q < t && self.sessions@[q].id == (#[trigger] out@[u]).0
                            && self.sessions@[q].room == ridx,
                forall|q: int|
                    0 <= q < t && (#[trigger] self.sessions@[q]).room == ridx
                        && self.sessions@[q].id != sender ==> exists|u: int|
                        0 <= u < out@.len() && (#[trigger] out@[u]).0 == self.sessions@[q].id,
                forall|u1: int, u2: int| 0 <= u1 < u2 < out@.len() ==> out@[u1].0 != out@[u2].0,
            decreases self.sessions@.len() - t,
        {
            if self.sessions[t].room == ridx && self.sessions[t].id != sender {
                let ghost pre_out = out@;
                out.push((self.sessions[t].id, ChatResponse::Message(text.clone())));
                proof {
                    let w = pre_out.len() as int;
                    assert(out@[w].0 == self.sessions@[t as int].id);
                    assert(0 <= t < t + 1 && self.sessions@[t as int].id == out@[w].0
                        && self.sessions@[t as int].room == ridx);
                    assert forall|u1: int| 0 <= u1 < w implies out@[u1].0
                        != self.sessions@[t as int].id by {
                        let q = choose|q: int|
                            #![auto]
                            0 <= q < t && self.sessions@[q].id == pre_out[u1].0
                                && self.sessions@[q].room == ridx;
                        assert(self.sessions@[q].id != self.sessions@[t as int].id);
                    }
                    assert forall|q: int|
                        0 <= q < t + 1 && (#[trigger] self.sessions@[q]).room == ridx
                            && self.sessions@[q].id != sender implies exists|u: int|
                        0 <= u < out@.len() && (#[trigger] out@[u]).0 == self.sessions@[q].id by {
                        if q < t {
                            let u = choose|u: int|
                                0 <= u < pre_out.len() && (#[trigger] pre_out[u]).0
                                    == self.sessions@[q].id;
                            assert(out@[u].0 == self.sessions@[q].id);
                        } else {
                            assert(out@[w].0 == self.sessions@[q].id);
                        }
                    }
                }
            }
            t += 1;
        }
        proof {
            assert(self.room_of(sender) == self.rooms@[ridx as int]@);
            assert forall|u: int| 0 <= u < out@.len() implies (#[trigger] out@[u]).1@
                == RespView::Message(text@) && out@[u].0 != sender && self.in_same_room(
                sender,
                out@[u].0,
            ) by {
                let q = choose|q: int|
                    #![auto]
                    0 <= q < self.sessions@.len() && self.sessions@[q].id == out@[u].0
                        && self.sessions@[q].room == ridx;
                self.lemma_idx(out@[u].0, q);
                assert(self.room_of(out@[u].0) == self.rooms@[ridx as int]@);
            }
            assert forall|id2: u64| id2 != sender && self.in_same_room(sender, id2) implies exists|
                u: int,
            |
                0 <= u < out@.len() && (#[trigger] out@[u]).0 == id2 by {
                let q = self.sess_idx(id2);
                self.lemma_idx(id2, q);
                assert(self.rooms@[self.sessions@[q].room as int]@ == self.rooms@[ridx as int]@);
                if self.sessions@[q].room != ridx {
                    assert(false);
                }
                assert(self.sessions@[q].room == ridx && self.sessions@[q].id != sender);
            }
        }
        out
    }

    /// The nickname of a connected session, or nothing when the id is
    /// not connected.
    pub fn nickname(&self, id: u64) -> (r: Option<String>)
        requires
            self.wf(),
        ensures
            match r {
                Some(s) => self.connected(id) && s@ == self.nick_of(id),
                None => !self.connected(id),
            },
    {
        match self.find_session(id) {
            Some(k) => Some(self.sessions[k].nick.clone()),
            None => None,
        }
    }

    /// Membership exclusivity: in any well-formed state, a connected
    /// session belongs to exactly one room — it is in some room, the
    /// room exists, and any two rooms holding it are the same room.
    pub proof fn lemma_membership_exclusive(self, id: u64)
        requires
            self.wf(),
            self.connected(id),
        ensures
            exists|name: Seq<char>| self.in_room(id, name),
            self.has_room(self.room_of(id)),
            forall|n1: Seq<char>, n2: Seq<char>|
                self.in_room(id, n1) && self.in_room(id, n2) ==> n1 == n2,
    {
        assert(self.in_room(id, self.room_of(id)));
        let k = self.sess_idx(id);
        assert(self.room_names()[self.sessions@[k].room as int] == self.room_of(id));
    }

    /// An id that is absent from the registry shares a room with nobody,
    /// so no broadcast, from any sender, can target it.
    pub proof fn lemma_unregistered_never_targeted(self, id: u64, sender: u64)
        requires
            self.wf(),
            !self.connected(id),
        ensures
            !self.in_same_room(sender, id),
    {
    }
}

} // verus!
