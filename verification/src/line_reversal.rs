//! The line reversal service: sessions of a reliable byte stream over
//! datagrams, each line of which is sent back reversed.
//!
//! [`message`] reads and writes datagrams, [`lrcp`] is one session, and
//! this module is the dispatcher's table: which sessions are open, and
//! what becomes of a message that comes in for one or goes out from one.
pub mod lrcp;
pub mod message;
pub mod protocol;

use message::{encode, Message, Payload};
use std::collections::BTreeMap;
use vstd::prelude::*;

verus! {

/// The sessions that are open, each with what the caller keeps for it: the
/// way to its queue, and the address of its peer.
pub struct Sessions<H> {
    table: BTreeMap<u32, H>,
}

impl<H> View for Sessions<H> {
    type V = Map<u32, H>;

    closed spec fn view(&self) -> Map<u32, H> {
        self.table@
    }
}

/// What becomes of a message that a peer has sent.
pub enum Route<'a, H> {
    /// A connect message for a session that is not open: the caller makes
    /// the session and [`Sessions::insert`]s it.
    Open,
    /// A connect message for a session that is open already: nothing
    /// happens.
    Ignore,
    /// A message for a session that is not open, and no connect message: it
    /// is dropped.
    Unknown,
    /// A message for an open session: it goes to that session's queue.
    Deliver(&'a H),
    /// A close message for an open session: it goes to that session's
    /// queue, and the session has left the table.
    Last(H),
}

/// What becomes of a message that a session wants to send.
pub enum Outbound<'a, H> {
    /// The session is not open: the message is dropped.
    Unknown,
    /// The datagram goes to the peer of the session.
    Send { to: &'a H, datagram: Vec<u8> },
    /// The datagram goes to the peer of the session, which has left the
    /// table: it was a close message.
    SendLast { peer: H, datagram: Vec<u8> },
}

impl<H> Sessions<H> {
    /// A table without sessions.
    pub fn new() -> (sessions: Sessions<H>)
        ensures
            sessions@ == Map::<u32, H>::empty(),
    {
        Sessions { table: BTreeMap::new() }
    }

    /// How many sessions are open.
    pub fn len(&self) -> (n: usize)
        ensures
            n == self@.len(),
    {
        self.table.len()
    }

    /// Whether the session `id` is open.
    pub fn contains(&self, id: u32) -> (open: bool)
        ensures
            open == self@.contains_key(id),
    {
        self.table.contains_key(&id)
    }

    /// Opens the session `id`, unless it is open already: an open session
    /// keeps what it has.
    pub fn insert(&mut self, id: u32, handle: H) -> (opened: bool)
        ensures
            opened == !old(self)@.contains_key(id),
            final(self)@ == if opened {
                old(self)@.insert(id, handle)
            } else {
                old(self)@
            },
    {
        if self.table.contains_key(&id) {
            false
        } else {
            self.table.insert(id, handle);
            true
        }
    }
}

/// Decides what becomes of a message that a peer has sent.
///
/// Only a connect message opens a session, and only once. Every other
/// message goes to its session if that is open, and nowhere if not. A
/// close message takes its session out of the table.
pub fn handle_receive_client_packet<'a, H>(
    message: &Message,
    sessions: &'a mut Sessions<H>,
) -> (route: Route<'a, H>)
    ensures
        match route {
            Route::Open => message@.payload is Connect && !old(sessions)@.contains_key(
                message@.session,
            ) && final(sessions)@ == old(sessions)@,
            Route::Ignore => message@.payload is Connect && old(sessions)@.contains_key(
                message@.session,
            ) && final(sessions)@ == old(sessions)@,
            Route::Unknown => !(message@.payload is Connect) && !old(sessions)@.contains_key(
                message@.session,
            ) && final(sessions)@ == old(sessions)@,
            Route::Deliver(handle) => !(message@.payload is Connect) && !(message@.payload
                is Close) && old(sessions)@.contains_key(message@.session) && *handle == old(sessions)@[message@.session] && final(sessions)@ == old(sessions)@,
            Route::Last(handle) => message@.payload is Close && old(sessions)@.contains_key(
                message@.session,
            ) && handle == old(sessions)@[message@.session] && final(sessions)@ == old(sessions)@.remove(
                message@.session,
            ),
        },
{
    let id = message.session.0;
    match &message.payload {
        Payload::Connect => {
            if sessions.table.contains_key(&id) {
                Route::Ignore
            } else {
                Route::Open
            }
        },
        Payload::Close => {
            match sessions.table.remove(&id) {
                Some(handle) => Route::Last(handle),
                None => Route::Unknown,
            }
        },
        _ => {
            match sessions.table.get(&id) {
                Some(handle) => Route::Deliver(handle),
                None => Route::Unknown,
            }
        },
    }
}

/// Decides what becomes of a message that a session wants to send: it
/// goes out, as the datagram that carries it, if the session is open. A
/// close message takes its session out of the table.
pub fn handle_receive_internal_packet<'a, H>(
    message: &Message,
    sessions: &'a mut Sessions<H>,
) -> (out: Outbound<'a, H>)
    ensures
        match out {
            Outbound::Unknown => !old(sessions)@.contains_key(message@.session) && final(sessions)@
                == old(sessions)@,
            Outbound::Send { to, datagram } => !(message@.payload is Close) && old(sessions)@.contains_key(message@.session) && *to == old(sessions)@[message@.session]
                && datagram@ == encode(message@) && final(sessions)@ == old(sessions)@,
            Outbound::SendLast { peer, datagram } => message@.payload is Close && old(sessions)@.contains_key(message@.session) && peer == old(sessions)@[message@.session]
                && datagram@ == encode(message@) && final(sessions)@ == old(sessions)@.remove(
                message@.session,
            ),
        },
{
    let id = message.session.0;
    match &message.payload {
        Payload::Close => {
            match sessions.table.remove(&id) {
                Some(peer) => Outbound::SendLast { peer, datagram: message.to_packet() },
                None => Outbound::Unknown,
            }
        },
        _ => {
            match sessions.table.get(&id) {
                Some(to) => Outbound::Send { to, datagram: message.to_packet() },
                None => Outbound::Unknown,
            }
        },
    }
}

} // verus!
