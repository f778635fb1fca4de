//! The laws of the relay core, stated over the membership map that the
//! registry's contracts speak of: single membership under repeated joins,
//! the member set after an arbitrary trace of joins, leaves and disconnects,
//! idempotence of a repeated join, and what a fan-out may and may not reach.

use vstd::prelude::*;
use crate::ConnId;
use crate::registry::members;
use crate::router::{broadcast_matches, Broadcast, MessageIn};

verus! {

/// The membership map after one connection joins the given rooms in order.
pub open spec fn after_joins(
    m: Map<ConnId, Option<Seq<char>>>,
    id: ConnId,
    rooms: Seq<Seq<char>>,
) -> Map<ConnId, Option<Seq<char>>>
    decreases rooms.len(),
{
    if rooms.len() == 0 {
        m
    } else {
        after_joins(m, id, rooms.drop_last()).insert(id, Option::Some(rooms.last()))
    }
}

/// Single membership: after any non-empty sequence of joins by one
/// connection, that connection is a member of exactly the most recently
/// joined room.
pub proof fn lemma_latest_join_wins(
    m: Map<ConnId, Option<Seq<char>>>,
    id: ConnId,
    rooms: Seq<Seq<char>>,
)
    requires
        rooms.len() > 0,
    ensures
        forall|label: Seq<char>|
            members(after_joins(m, id, rooms), label).contains(id) <==> label == rooms.last(),
{
    let m1 = after_joins(m, id, rooms);
    assert(m1 == after_joins(m, id, rooms.drop_last()).insert(id, Option::Some(rooms.last())));
    assert(m1.dom().contains(id));
    assert(m1[id] == Option::Some(rooms.last()));
}

/// Idempotence: joining the same room twice in a row leaves the membership
/// map exactly where the first join put it.
pub proof fn lemma_join_idempotent(
    m: Map<ConnId, Option<Seq<char>>>,
    id: ConnId,
    room: Seq<char>,
)
    ensures
        m.insert(id, Option::Some(room)).insert(id, Option::Some(room)) == m.insert(
            id,
            Option::Some(room),
        ),
{
    assert(m.insert(id, Option::Some(room)).insert(id, Option::Some(room)) =~= m.insert(
        id,
        Option::Some(room),
    ));
}

/// A disconnected connection is a member of no room at all.
pub proof fn lemma_disconnect_excludes(m: Map<ConnId, Option<Seq<char>>>, id: ConnId)
    ensures
        forall|label: Seq<char>| !members(m.remove(id), label).contains(id),
{
}

/// A fan-out reaches a connection exactly when that connection is currently
/// registered in the addressed room — the sender included, and no one
/// outside the room.
pub proof fn lemma_delivery_exactly_members(
    m: Map<ConnId, Option<Seq<char>>>,
    sender: ConnId,
    msg: MessageIn,
    b: Broadcast,
    id: ConnId,
)
    requires
        broadcast_matches(m, sender, msg, b),
    ensures
        b.recipients@.contains(id) <==> (m.dom().contains(id) && m[id] == Option::Some(
            msg.room@,
        )),
{
}

/// A fan-out computed after a disconnect never reaches the disconnected
/// connection, whatever room it used to share with the sender.
pub proof fn lemma_no_delivery_after_disconnect(
    m: Map<ConnId, Option<Seq<char>>>,
    gone: ConnId,
    sender: ConnId,
    msg: MessageIn,
    b: Broadcast,
)
    requires
        broadcast_matches(m.remove(gone), sender, msg, b),
    ensures
        !b.recipients@.contains(gone),
{
    lemma_disconnect_excludes(m, gone);
    lemma_delivery_exactly_members(m.remove(gone), sender, msg, b, gone);
}

/// One membership-changing step of the registry, in the shape its contracts
/// give it: what `on_connect`, `join`, `leave_all` and `on_disconnect` do to
/// the membership map.
pub enum Action {
    Connect { id: ConnId },
    Join { id: ConnId, room: Seq<char> },
    Leave { id: ConnId },
    Disconnect { id: ConnId },
}

/// Whether an action concerns the given connection at all.
pub open spec fn touches(a: Action, id: ConnId) -> bool {
    match a {
        Action::Connect { id: j } => j == id,
        Action::Join { id: j, room: _ } => j == id,
        Action::Leave { id: j } => j == id,
        Action::Disconnect { id: j } => j == id,
    }
}

/// The membership map after one action, exactly as the registry's contracts
/// state it.
pub open spec fn apply_action(
    m: Map<ConnId, Option<Seq<char>>>,
    a: Action,
) -> Map<ConnId, Option<Seq<char>>> {
    match a {
        Action::Connect { id } => m.insert(id, Option::None),
        Action::Join { id, room } => m.insert(id, Option::Some(room)),
        Action::Leave { id } => if m.dom().contains(id) {
            m.insert(id, Option::None)
        } else {
            m
        },
        Action::Disconnect { id } => m.remove(id),
    }
}

/// The membership map after a whole trace of actions, oldest first.
pub open spec fn apply_trace(
    m: Map<ConnId, Option<Seq<char>>>,
    t: Seq<Action>,
) -> Map<ConnId, Option<Seq<char>>>
    decreases t.len(),
{
    if t.len() == 0 {
        m
    } else {
        apply_action(apply_trace(m, t.drop_last()), t.last())
    }
}

/// The registration state of one connection under a map: `None` while
/// unregistered, otherwise its current room.
pub open spec fn state_of(m: Map<ConnId, Option<Seq<char>>>, id: ConnId) -> Option<
    Option<Seq<char>>,
> {
    if m.dom().contains(id) {
        Option::Some(m[id])
    } else {
        Option::None
    }
}

/// One connection's registration state after a trace, computed from the
/// actions that concern it alone.
pub open spec fn state_after(
    init: Option<Option<Seq<char>>>,
    t: Seq<Action>,
    id: ConnId,
) -> Option<Option<Seq<char>>>
    decreases t.len(),
{
    if t.len() == 0 {
        init
    } else {
        let prev = state_after(init, t.drop_last(), id);
        match t.last() {
            Action::Connect { id: j } => if j == id {
                Option::Some(Option::None)
            } else {
                prev
            },
            Action::Join { id: j, room } => if j == id {
                Option::Some(Option::Some(room))
            } else {
                prev
            },
            Action::Leave { id: j } => if j == id {
                match prev {
                    Option::Some(_) => Option::Some(Option::None),
                    Option::None => Option::None,
                }
            } else {
                prev
            },
            Action::Disconnect { id: j } => if j == id {
                Option::None
            } else {
                prev
            },
        }
    }
}

/// A trace acts on each connection separately: the state of one connection
/// after the whole trace is the fold of just the actions that concern it.
pub proof fn lemma_trace_projection(
    m: Map<ConnId, Option<Seq<char>>>,
    t: Seq<Action>,
    id: ConnId,
)
    ensures
        state_of(apply_trace(m, t), id) == state_after(state_of(m, id), t, id),
    decreases t.len(),
{
    if t.len() > 0 {
        lemma_trace_projection(m, t.drop_last(), id);
    }
}

/// The connection's last join in the trace targeted `room`, and no later
/// action of the trace concerns the connection: it has not since left,
/// joined elsewhere, reconnected, or disconnected.
pub open spec fn last_join_stands(t: Seq<Action>, id: ConnId, room: Seq<char>) -> bool {
    exists|k: int|
        0 <= k < t.len() && t[k] == (Action::Join { id, room }) && (forall|l: int|
            k < l < t.len() ==> !touches(t[l], id))
}

/// No action of the trace concerns the connection.
pub open spec fn untouched(t: Seq<Action>, id: ConnId) -> bool {
    forall|l: int| 0 <= l < t.len() ==> !touches(t[l], id)
}

/// A connection's state after a trace is `room` exactly when its last join
/// targeted `room` and nothing has concerned it since, or it was already in
/// `room` and the trace never concerned it.
pub proof fn lemma_state_after_characterized(
    init: Option<Option<Seq<char>>>,
    t: Seq<Action>,
    id: ConnId,
    room: Seq<char>,
)
    ensures
        state_after(init, t, id) == Option::Some(Option::Some(room)) <==> (last_join_stands(
            t,
            id,
            room,
        ) || (init == Option::Some(Option::Some(room)) && untouched(t, id))),
    decreases t.len(),
{
    if t.len() == 0 {
        assert(!last_join_stands(t, id, room));
    } else {
        let t0 = t.drop_last();
        lemma_state_after_characterized(init, t0, id, room);
        assert(forall|l: int| 0 <= l < t0.len() ==> t0[l] == t[l]);
        if touches(t.last(), id) {
            assert(!untouched(t, id)) by {
                assert(touches(t[t.len() - 1], id));
            }
            match t.last() {
                Action::Join { id: j, room: r2 } => {
                    if r2 == room {
                        assert(state_after(init, t, id) == Option::Some(Option::Some(room)));
                        assert(last_join_stands(t, id, room)) by {
                            assert(t[t.len() - 1] == (Action::Join { id, room }));
                            assert(forall|l: int|
                                t.len() - 1 < l < t.len() ==> !touches(t[l], id));
                        }
                    } else {
                        assert(state_after(init, t, id) != Option::Some(Option::Some(room)));
                        assert(!last_join_stands(t, id, room)) by {
                            if last_join_stands(t, id, room) {
                                let k = choose|k: int|
                                    0 <= k < t.len() && t[k] == (Action::Join { id, room }) && (
                                    forall|l: int| k < l < t.len() ==> !touches(t[l], id));
                                if k == t.len() - 1 {
                                    assert(t[k] == t.last());
                                    assert(false);
                                } else {
                                    assert(touches(t[t.len() - 1], id));
                                    assert(false);
                                }
                            }
                        }
                    }
                },
                Action::Connect { id: j } => {
                    assert(state_after(init, t, id) == Option::Some(Option::<Seq<char>>::None));
                    assert(!last_join_stands(t, id, room)) by {
                        if last_join_stands(t, id, room) {
                            let k = choose|k: int|
                                0 <= k < t.len() && t[k] == (Action::Join { id, room }) && (
                                forall|l: int| k < l < t.len() ==> !touches(t[l], id));
                            if k == t.len() - 1 {
                                assert(t[k] == t.last());
                                assert(false);
                            } else {
                                assert(touches(t[t.len() - 1], id));
                                assert(false);
                            }
                        }
                    }
                },
                Action::Leave { id: j } => {
                    assert(state_after(init, t, id) != Option::Some(Option::Some(room)));
                    assert(!last_join_stands(t, id, room)) by {
                        if last_join_stands(t, id, room) {
                            let k = choose|k: int|
                                0 <= k < t.len() && t[k] == (Action::Join { id, room }) && (
                                forall|l: int| k < l < t.len() ==> !touches(t[l], id));
                            if k == t.len() - 1 {
                                assert(t[k] == t.last());
                                assert(false);
                            } else {
                                assert(touches(t[t.len() - 1], id));
                                assert(false);
                            }
                        }
                    }
                },
                Action::Disconnect { id: j } => {
                    assert(state_after(init, t, id) == Option::<Option<Seq<char>>>::None);
                    assert(!last_join_stands(t, id, room)) by {
                        if last_join_stands(t, id, room) {
                            let k = choose|k: int|
                                0 <= k < t.len() && t[k] == (Action::Join { id, room }) && (
                                forall|l: int| k < l < t.len() ==> !touches(t[l], id));
                            if k == t.len() - 1 {
                                assert(t[k] == t.last());
                                assert(false);
                            } else {
                                assert(touches(t[t.len() - 1], id));
                                assert(false);
                            }
                        }
                    }
                },
            }
        } else {
            assert(state_after(init, t, id) == state_after(init, t0, id));
            assert(untouched(t, id) <==> untouched(t0, id)) by {
                if untouched(t0, id) {
                    assert(forall|l: int| 0 <= l < t.len() - 1 ==> !touches(t[l], id));
                    assert(!touches(t[t.len() - 1], id));
                }
            }
            assert(last_join_stands(t, id, room) <==> last_join_stands(t0, id, room)) by {
                if last_join_stands(t0, id, room) {
                    let k = choose|k: int|
                        0 <= k < t0.len() && t0[k] == (Action::Join { id, room }) && (forall|
                            l: int,
                        | k < l < t0.len() ==> !touches(t0[l], id));
                    assert(t[k] == (Action::Join { id, room }));
                    assert(forall|l: int| k < l < t.len() ==> !touches(t[l], id)) by {
                        assert(forall|l: int| k < l < t.len() - 1 ==> !touches(t0[l], id));
                        assert(!touches(t[t.len() - 1], id));
                    }
                    assert(last_join_stands(t, id, room));
                }
                if last_join_stands(t, id, room) {
                    let k = choose|k: int|
                        0 <= k < t.len() && t[k] == (Action::Join { id, room }) && (forall|
                            l: int,
                        | k < l < t.len() ==> !touches(t[l], id));
                    assert(touches(t[k], id));
                    assert(k < t.len() - 1);
                    assert(t0[k] == (Action::Join { id, room }));
                    assert(forall|l: int| k < l < t0.len() ==> !touches(t0[l], id));
                    assert(last_join_stands(t0, id, room));
                }
            }
        }
    }
}

/// The member set after an arbitrary trace: `members(R)` holds exactly the
/// connections whose last join targeted `R` and who have not since left,
/// joined elsewhere, or disconnected — plus those already in `R` that the
/// trace never concerned.
pub proof fn lemma_members_after_trace(
    m: Map<ConnId, Option<Seq<char>>>,
    t: Seq<Action>,
    id: ConnId,
    room: Seq<char>,
)
    ensures
        members(apply_trace(m, t), room).contains(id) <==> (last_join_stands(t, id, room) || (
        state_of(m, id) == Option::Some(Option::Some(room)) && untouched(t, id))),
{
    lemma_trace_projection(m, t, id);
    lemma_state_after_characterized(state_of(m, id), t, id, room);
    let m1 = apply_trace(m, t);
    assert(members(m1, room).contains(id) <==> (m1.dom().contains(id) && m1[id]
        == Option::Some(room)));
    assert((m1.dom().contains(id) && m1[id] == Option::Some(room)) <==> state_of(m1, id)
        == Option::Some(Option::Some(room)));
}

} // verus!
