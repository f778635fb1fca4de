//! The room broadcast router: turns one inbound event from the transport
//! layer into the membership update and, for a chat message, the room-scoped
//! delivery the transport must carry out. A malformed payload (an empty room
//! label) is dropped silently; it never corrupts the registry.

use vstd::prelude::*;
use crate::ConnId;
use crate::registry::{Registry, members};
use crate::label::{pseudonym, pseudonym_of};

verus! {

/// An inbound chat message as the client addressed it: a target room label
/// and the text to relay. Empty text is permitted; content filtering is out
/// of scope.
pub struct MessageIn {
    pub room: String,
    pub text: String,
}

/// An outbound chat message as every member of the room receives it: the
/// text, the sender's display label, and the send time in milliseconds since
/// the Unix epoch.
pub struct MessageOut {
    pub text: String,
    pub user: String,
    pub date_millis: i64,
}

/// One room-scoped delivery for the transport layer to carry out: hand
/// `message` to every listed recipient. The recipient list names each
/// current member of the room exactly once, the sender included if it is a
/// member.
pub struct Broadcast {
    pub room: String,
    pub recipients: Vec<ConnId>,
    pub message: MessageOut,
}

/// An inbound payload is accepted exactly when its room label is non-empty.
pub open spec fn valid_inbound(msg: MessageIn) -> bool {
    msg.room@.len() > 0
}

/// What a correct fan-out of `msg` from `sender` over the membership map `m`
/// is: the message text unchanged, the sender shown under its pseudonym, and
/// the recipients exactly the current members of the addressed room, each
/// once — no one outside the room, no member left out.
pub open spec fn broadcast_matches(
    m: Map<ConnId, Option<Seq<char>>>,
    sender: ConnId,
    msg: MessageIn,
    b: Broadcast,
) -> bool {
    &&& b.room@ == msg.room@
    &&& b.message.text@ == msg.text@
    &&& b.message.user@ == pseudonym_of(sender)
    &&& (forall|id: ConnId| b.recipients@.contains(id) <==> members(m, msg.room@).contains(id))
    &&& (forall|a: int, c: int|
        0 <= a < c < b.recipients@.len() ==> b.recipients@[a] != b.recipients@[c])
}

/// Relies on chrono::Utc::now for the wall-clock send time, read as
/// milliseconds since the Unix epoch; nothing is assumed of the value, and
/// every caller is verified for every value. The outside call aborts only if
/// the system clock reads before the Unix epoch.
#[verifier::external_body]
fn now_millis() -> i64 {
    chrono::Utc::now().timestamp_millis()
}

/// Routes one inbound message stamped with the given time: drops it exactly
/// when the room label is empty, and otherwise fans it out to every current
/// member of the addressed room, the sender included if it is one. A room
/// with no members yields an empty delivery, never an error.
pub fn handle_message_at(
    reg: &Registry,
    sender: ConnId,
    msg: MessageIn,
    now_millis: i64,
) -> (r: Option<Broadcast>)
    requires
        reg.inv(),
    ensures
        r is Some <==> valid_inbound(msg),
        r matches Some(b) ==> broadcast_matches(reg@, sender, msg, b) && b.message.date_millis
            == now_millis,
{
    if msg.room.as_str().is_empty() {
        Option::None
    } else {
        let recipients = reg.members_of(&msg.room);
        let user = pseudonym(sender);
        Option::Some(
            Broadcast {
                room: msg.room,
                recipients,
                message: MessageOut { text: msg.text, user, date_millis: now_millis },
            },
        )
    }
}

/// Routes one inbound message stamped with the current wall-clock time. The
/// timestamp comes from the system clock, so nothing is stated of its value;
/// everything else is as `handle_message_at` promises.
pub fn handle_message(reg: &Registry, sender: ConnId, msg: MessageIn) -> (r: Option<Broadcast>)
    requires
        reg.inv(),
    ensures
        r is Some <==> valid_inbound(msg),
        r matches Some(b) ==> broadcast_matches(reg@, sender, msg, b),
{
    let now = now_millis();
    handle_message_at(reg, sender, msg, now)
}

/// One inbound event from the transport layer, the single sum the core
/// consumes: a connection appeared, asked to join a room, sent a message, or
/// went away.
pub enum Event {
    Connect { id: ConnId },
    Join { id: ConnId, room: String },
    Message { id: ConnId, msg: MessageIn },
    Disconnect { id: ConnId },
}

/// What the transport layer guarantees of the events it dispatches: a
/// connect carries a fresh id, and a join only an id it has already handed
/// to the core.
pub open spec fn event_allowed(m: Map<ConnId, Option<Seq<char>>>, e: Event) -> bool {
    match e {
        Event::Connect { id } => !m.dom().contains(id),
        Event::Join { id, room: _ } => m.dom().contains(id),
        Event::Message { .. } => true,
        Event::Disconnect { .. } => true,
    }
}

/// The membership map after one event: a connect registers the id unjoined,
/// a join with a non-empty label moves the connection there (an empty label
/// is malformed and dropped), a message changes nothing, and a disconnect
/// forgets the connection.
pub open spec fn next_state(
    m: Map<ConnId, Option<Seq<char>>>,
    e: Event,
) -> Map<ConnId, Option<Seq<char>>> {
    match e {
        Event::Connect { id } => m.insert(id, Option::None),
        Event::Join { id, room } => if room@.len() > 0 {
            m.insert(id, Option::Some(room@))
        } else {
            m
        },
        Event::Message { .. } => m,
        Event::Disconnect { id } => m.remove(id),
    }
}

/// Consumes one inbound event at the given time: applies its membership
/// update to the registry and returns the delivery it calls for — some
/// fan-out exactly for a well-formed message, nothing for any other event.
pub fn handle_event_at(reg: &mut Registry, event: Event, now_millis: i64) -> (r: Option<
    Broadcast,
>)
    requires
        old(reg).inv(),
        event_allowed(old(reg)@, event),
    ensures
        final(reg).inv(),
        final(reg)@ == next_state(old(reg)@, event),
        match event {
            Event::Message { id, msg } => {
                &&& (r is Some <==> valid_inbound(msg))
                &&& (r matches Some(b) ==> broadcast_matches(old(reg)@, id, msg, b)
                    && b.message.date_millis == now_millis)
            },
            _ => r is None,
        },
{
    match event {
        Event::Connect { id } => {
            reg.on_connect(id);
            Option::None
        },
        Event::Join { id, room } => {
            if !room.as_str().is_empty() {
                reg.join(id, room);
            }
            Option::None
        },
        Event::Message { id, msg } => handle_message_at(reg, id, msg, now_millis),
        Event::Disconnect { id } => {
            reg.on_disconnect(id);
            Option::None
        },
    }
}

/// Consumes one inbound event stamped with the current wall-clock time; as
/// `handle_event_at`, with nothing stated of the timestamp's value.
pub fn handle_event(reg: &mut Registry, event: Event) -> (r: Option<Broadcast>)
    requires
        old(reg).inv(),
        event_allowed(old(reg)@, event),
    ensures
        final(reg).inv(),
        final(reg)@ == next_state(old(reg)@, event),
        match event {
            Event::Message { id, msg } => {
                &&& (r is Some <==> valid_inbound(msg))
                &&& (r matches Some(b) ==> broadcast_matches(old(reg)@, id, msg, b))
            },
            _ => r is None,
        },
{
    let now = now_millis();
    handle_event_at(reg, event, now)
}

} // verus!
