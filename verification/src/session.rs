//! The per-connection session: the glue between the codec and the
//! registry.
//!
//! A session interprets one decoded command at a time against the
//! registry and yields the deliveries it causes: pairs of a target
//! connection id and the response to encode and write to that target's
//! socket. `Ping` is answered directly, without involving the registry;
//! everything else is forwarded. The surrounding runtime registers the
//! session when the connection is accepted, performs the deliveries, and
//! unregisters the session when the connection closes or errors, codec
//! errors included — such errors stay local to this one connection.

use vstd::prelude::*;

use crate::codec::{ChatRequest, ChatResponse};
use crate::registry::Registry;
use crate::wire::{ReqView, RespView};

verus! {

/// The connection-local half of a session: its process-unique id. The
/// registry holds the rest (nickname and current room) so that
/// membership has a single owner.
pub struct ChatSession {
    /// The process-unique id assigned at accept time, never reused
    /// while the process runs.
    pub id: u64,
}

impl ChatSession {
    /// A session for a freshly accepted connection.
    pub fn new(id: u64) -> (s: ChatSession)
        ensures
            s.id == id,
    {
        ChatSession { id }
    }

    /// Interprets one decoded command: `Ping` is echoed straight back to
    /// this session; a nickname, listing, or join command is forwarded
    /// to the registry, whose reply goes back to this session alone; a
    /// message is broadcast to the other members of this session's
    /// current room.
    pub fn handle(&self, reg: &mut Registry, req: ChatRequest) -> (r: Vec<(u64, ChatResponse)>)
        requires
            old(reg).wf(),
            old(reg).connected(self.id),
        ensures
            final(reg).wf(),
            final(reg).connected(self.id),
            forall|id2: u64|
                #![trigger final(reg).connected(id2)]
                #![trigger old(reg).connected(id2)]
                final(reg).connected(id2) == old(reg).connected(id2),
            forall|id2: u64|
                #![trigger final(reg).room_of(id2)]
                #![trigger old(reg).room_of(id2)]
                id2 != self.id && old(reg).connected(id2) ==> final(reg).room_of(id2) == old(
                    reg,
                ).room_of(id2) && final(reg).nick_of(id2) == old(reg).nick_of(id2),
            match req@ {
                ReqView::Ping => *final(reg) == *old(reg) && r@.len() == 1 && r@[0].0 == self.id
                    && r@[0].1@ == RespView::Ping,
                ReqView::NickName(n) => final(reg).nick_of(self.id) == n && final(reg).room_of(
                    self.id,
                ) == old(reg).room_of(self.id) && final(reg).room_names() == old(reg).room_names()
                    && r@.len() == 1 && r@[0].0 == self.id && r@[0].1@ == RespView::SetNickName(n),
                ReqView::List => *final(reg) == *old(reg) && r@.len() == 1 && r@[0].0 == self.id
                    && r@[0].1@ == RespView::Rooms(old(reg).room_names()),
                ReqView::Join(name) => final(reg).in_room(self.id, name) && (forall|n2: Seq<char>|
                    n2 != name ==> !final(reg).in_room(self.id, n2)) && final(reg).has_room(name)
                    && r@.len() == 1 && r@[0].0 == self.id && r@[0].1@ == RespView::Joined(name),
                ReqView::Message(text) => *final(reg) == *old(reg) && (forall|u: int|
                    0 <= u < r@.len() ==> (#[trigger] r@[u]).1@ == RespView::Message(text) && r@[u].0
                        != self.id && final(reg).in_same_room(self.id, r@[u].0)) && (forall|
                    id2: u64,
                |
                    id2 != self.id && final(reg).in_same_room(self.id, id2) ==> exists|u: int|
                        0 <= u < r@.len() && (#[trigger] r@[u]).0 == id2) && (forall|
                    u1: int,
                    u2: int,
                |
                    0 <= u1 < u2 < r@.len() ==> r@[u1].0 != r@[u2].0),
            },
    {
        match req {
            ChatRequest::Ping => {
                vec![(self.id, ChatResponse::Ping)]
            },
            ChatRequest::NickName(n) => {
                let resp = reg.set_nickname(self.id, n);
                vec![(self.id, resp)]
            },
            ChatRequest::List => {
                let resp = reg.list_rooms();
                vec![(self.id, resp)]
            },
            ChatRequest::Join(name) => {
                let resp = reg.join(self.id, name);
                vec![(self.id, resp)]
            },
            ChatRequest::Message(text) => {
                reg.broadcast(self.id, text)
            },
        }
    }
}

} // verus!
