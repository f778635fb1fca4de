//! The connection registry: the set of live connections and, for each, its
//! current room (at most one). The registry is the single owner of the
//! membership map; a room is nothing but the derived set of connections whose
//! recorded room equals its label.

use vstd::prelude::*;
use crate::ConnId;

verus! {

/// One live connection's membership record: its id and its current room,
/// `None` while the connection has not joined any room.
pub struct Entry {
    pub id: ConnId,
    pub room: Option<String>,
}

impl Entry {
    /// The room label as a mathematical value.
    pub open spec fn room_view(self) -> Option<Seq<char>> {
        match self.room {
            Option::Some(r) => Option::Some(r@),
            Option::None => Option::None,
        }
    }
}

/// No two records carry the same connection id.
pub open spec fn unique_ids(s: Seq<Entry>) -> bool {
    forall|i: int, j: int| 0 <= i < j < s.len() ==> s[i].id != s[j].id
}

/// The membership map that a sequence of records denotes: each registered id
/// maps to its current room label, or to `None` while unjoined.
pub open spec fn map_of(s: Seq<Entry>) -> Map<ConnId, Option<Seq<char>>>
    decreases s.len(),
{
    if s.len() == 0 {
        Map::empty()
    } else {
        map_of(s.drop_last()).insert(s.last().id, s.last().room_view())
    }
}

/// The member set of a room: every registered connection whose recorded room
/// is exactly that label.
pub open spec fn members(m: Map<ConnId, Option<Seq<char>>>, room: Seq<char>) -> Set<ConnId> {
    m.dom().filter(|id: ConnId| m[id] == Option::Some(room))
}

/// An id is in the denoted map exactly when some record carries it.
pub proof fn lemma_map_of_dom(s: Seq<Entry>, id: ConnId)
    ensures
        map_of(s).dom().contains(id) <==> exists|i: int| 0 <= i < s.len() && s[i].id == id,
    decreases s.len(),
{
    if s.len() > 0 {
        lemma_map_of_dom(s.drop_last(), id);
        if s.last().id == id {
            assert(s[s.len() - 1].id == id);
        } else if map_of(s).dom().contains(id) {
            let i = choose|i: int| 0 <= i < s.drop_last().len() && s.drop_last()[i].id == id;
            assert(s[i].id == id);
        } else if exists|i: int| 0 <= i < s.len() && s[i].id == id {
            let i = choose|i: int| 0 <= i < s.len() && s[i].id == id;
            assert(s.drop_last()[i].id == id);
        }
    }
}

/// With unique ids, each record's id maps to that record's room.
pub proof fn lemma_map_of_index(s: Seq<Entry>, i: int)
    requires
        unique_ids(s),
        0 <= i < s.len(),
    ensures
        map_of(s).dom().contains(s[i].id),
        map_of(s)[s[i].id] == s[i].room_view(),
    decreases s.len(),
{
    if i == s.len() - 1 {
        assert(map_of(s) == map_of(s.drop_last()).insert(s.last().id, s.last().room_view()));
    } else {
        lemma_map_of_index(s.drop_last(), i);
        assert(s.drop_last()[i] == s[i]);
        assert(s[i].id != s.last().id);
    }
}

/// Appending a record inserts its id into the denoted map.
pub proof fn lemma_map_of_push(s: Seq<Entry>, e: Entry)
    ensures
        map_of(s.push(e)) == map_of(s).insert(e.id, e.room_view()),
{
    assert(s.push(e).drop_last() =~= s);
    assert(s.push(e).last() == e);
}

/// Removing the sole record of an id removes that id from the denoted map.
pub proof fn lemma_map_of_remove(s: Seq<Entry>, i: int)
    requires
        unique_ids(s),
        0 <= i < s.len(),
    ensures
        map_of(s.remove(i)) == map_of(s).remove(s[i].id),
    decreases s.len(),
{
    if i == s.len() - 1 {
        assert(s.remove(i) =~= s.drop_last());
        lemma_map_of_dom(s.drop_last(), s[i].id);
        assert(forall|j: int| 0 <= j < s.drop_last().len() ==> s.drop_last()[j].id != s[i].id);
        assert(map_of(s.drop_last()).insert(s.last().id, s.last().room_view()).remove(s[i].id)
            =~= map_of(s.drop_last()));
    } else {
        assert(unique_ids(s.drop_last()));
        lemma_map_of_remove(s.drop_last(), i);
        assert(s.remove(i).drop_last() =~= s.drop_last().remove(i));
        assert(s.remove(i).last() == s.last());
        assert(s[i].id != s.last().id);
        assert(map_of(s.remove(i))
            == map_of(s.drop_last()).remove(s[i].id).insert(s.last().id, s.last().room_view()));
        assert(map_of(s.drop_last()).remove(s[i].id).insert(s.last().id, s.last().room_view())
            =~= map_of(s.drop_last()).insert(s.last().id, s.last().room_view()).remove(s[i].id));
    }
}

/// Tracks which logical connection is in which room. Membership is exclusive:
/// a connection is in zero or one rooms, enforced here so that callers never
/// reason about stale or multiple memberships.
pub struct Registry {
    conns: Vec<Entry>,
}

impl Registry {
    /// Internal well-formedness: one record per connection id.
    pub closed spec fn inv(self) -> bool {
        unique_ids(self.conns@)
    }

    /// The registry as a map from registered connection id to current room.
    pub closed spec fn view(self) -> Map<ConnId, Option<Seq<char>>> {
        map_of(self.conns@)
    }

    /// An empty registry: no connections, no rooms.
    pub fn new() -> (r: Registry)
        ensures
            r.inv(),
            r@ == Map::<ConnId, Option<Seq<char>>>::empty(),
    {
        Registry { conns: Vec::new() }
    }

    /// The index of the record that carries `id`, if the id is registered.
    fn find_index(&self, id: ConnId) -> (r: Option<usize>)
        ensures
            match r {
                Option::Some(i) => i < self.conns@.len() && self.conns@[i as int].id == id,
                Option::None => forall|j: int|
                    0 <= j < self.conns@.len() ==> self.conns@[j].id != id,
            },
    {
        let n = self.conns.len();
        let mut k: usize = 0;
        while k < n
            invariant
                n == self.conns@.len(),
                k <= n,
                forall|j: int| 0 <= j < k ==> self.conns@[j].id != id,
            decreases n - k,
        {
            if self.conns[k].id == id {
                return Option::Some(k);
            }
            k = k + 1;
        }
        Option::None
    }

    /// Whether the id is currently registered.
    pub fn contains(&self, id: ConnId) -> (b: bool)
        ensures
            b == self@.dom().contains(id),
    {
        proof {
            lemma_map_of_dom(self.conns@, id);
        }
        match self.find_index(id) {
            Option::Some(_) => true,
            Option::None => false,
        }
    }

    /// Registers a freshly connected id with no room. The transport layer
    /// guarantees ids are unique, so a duplicate registration never occurs.
    pub fn on_connect(&mut self, id: ConnId)
        requires
            old(self).inv(),
            !old(self)@.dom().contains(id),
        ensures
            final(self).inv(),
            final(self)@ == old(self)@.insert(id, Option::<Seq<char>>::None),
    {
        proof {
            lemma_map_of_dom(self.conns@, id);
        }
        self.conns.push(Entry { id, room: Option::None });
        proof {
            lemma_map_of_push(old(self).conns@, Entry { id, room: Option::None });
        }
    }

    /// Takes the connection out of its current room, if any; a no-op for a
    /// connection that is unjoined or unknown. The connection itself stays
    /// registered.
    pub fn leave_all(&mut self, id: ConnId)
        requires
            old(self).inv(),
        ensures
            final(self).inv(),
            final(self)@ == if old(self)@.dom().contains(id) {
                old(self)@.insert(id, Option::<Seq<char>>::None)
            } else {
                old(self)@
            },
    {
        proof {
            lemma_map_of_dom(self.conns@, id);
        }
        match self.find_index(id) {
            Option::Some(i) => {
                proof {
                    lemma_map_of_remove(self.conns@, i as int);
                }
                self.conns.remove(i);
                proof {
                    let s0 = old(self).conns@;
                    assert(unique_ids(self.conns@)) by {
                        assert(forall|a: int, b: int|
                            0 <= a < b < s0.remove(i as int).len() ==> s0.remove(i as int)[a].id
                                != s0.remove(i as int)[b].id);
                    }
                    assert(forall|j: int|
                        0 <= j < self.conns@.len() ==> self.conns@[j].id != id);
                    lemma_map_of_push(self.conns@, Entry { id, room: Option::None });
                }
                self.conns.push(Entry { id, room: Option::None });
                proof {
                    assert(self@ =~= old(self)@.insert(id, Option::<Seq<char>>::None));
                }
            },
            Option::None => {},
        }
    }

    /// Moves the connection into `room`: it leaves whatever room it was in
    /// and becomes a member of `room` alone. Joining the same room twice in a
    /// row is a no-op after the first application. The transport layer only
    /// hands over ids it has registered.
    pub fn join(&mut self, id: ConnId, room: String)
        requires
            old(self).inv(),
            old(self)@.dom().contains(id),
            room@.len() > 0,
        ensures
            final(self).inv(),
            final(self)@ == old(self)@.insert(id, Option::Some(room@)),
    {
        proof {
            lemma_map_of_dom(self.conns@, id);
        }
        match self.find_index(id) {
            Option::Some(i) => {
                proof {
                    lemma_map_of_remove(self.conns@, i as int);
                }
                self.conns.remove(i);
                proof {
                    let s0 = old(self).conns@;
                    assert(unique_ids(self.conns@)) by {
                        assert(forall|a: int, b: int|
                            0 <= a < b < s0.remove(i as int).len() ==> s0.remove(i as int)[a].id
                                != s0.remove(i as int)[b].id);
                    }
                    assert(forall|j: int|
                        0 <= j < self.conns@.len() ==> self.conns@[j].id != id);
                }
                let ghost s1 = self.conns@;
                let ghost rv = room@;
                self.conns.push(Entry { id, room: Option::Some(room) });
                proof {
                    lemma_map_of_push(s1, Entry { id, room: Option::Some(room) });
                    assert(self@ =~= old(self)@.insert(id, Option::Some(rv)));
                }
            },
            Option::None => {
                // Unreachable: the id is registered, so some record carries it.
                proof {
                    assert(false);
                }
            },
        }
    }

    /// Forgets the connection entirely: it leaves its room and is no longer
    /// registered. Idempotent, so a duplicate disconnect notification is
    /// harmless.
    pub fn on_disconnect(&mut self, id: ConnId)
        requires
            old(self).inv(),
        ensures
            final(self).inv(),
            final(self)@ == old(self)@.remove(id),
    {
        proof {
            lemma_map_of_dom(self.conns@, id);
        }
        match self.find_index(id) {
            Option::Some(i) => {
                proof {
                    lemma_map_of_remove(self.conns@, i as int);
                }
                self.conns.remove(i);
                proof {
                    let s0 = old(self).conns@;
                    assert(unique_ids(self.conns@)) by {
                        assert(forall|a: int, b: int|
                            0 <= a < b < s0.remove(i as int).len() ==> s0.remove(i as int)[a].id
                                != s0.remove(i as int)[b].id);
                    }
                }
            },
            Option::None => {
                proof {
                    assert(!old(self)@.dom().contains(id));
                    assert(self@ =~= old(self)@.remove(id));
                }
            },
        }
    }

    /// The ids of every current member of `room`, each exactly once. An
    /// unknown or empty label simply has no members; this is never an error.
    pub fn members_of(&self, room: &String) -> (r: Vec<ConnId>)
        requires
            self.inv(),
        ensures
            forall|id: ConnId| r@.contains(id) <==> members(self@, room@).contains(id),
            forall|a: int, b: int| 0 <= a < b < r@.len() ==> r@[a] != r@[b],
    {
        let n = self.conns.len();
        let mut out: Vec<ConnId> = Vec::new();
        let mut k: usize = 0;
        while k < n
            invariant
                n == self.conns@.len(),
                k <= n,
                unique_ids(self.conns@),
                forall|id: ConnId| out@.contains(id) <==> exists|j: int|
                    0 <= j < k && self.conns@[j].id == id && self.conns@[j].room_view()
                        == Option::Some(room@),
                forall|a: int, b: int| 0 <= a < b < out@.len() ==> out@[a] != out@[b],
            decreases n - k,
        {
            let e = &self.conns[k];
            let matched = match &e.room {
                Option::Some(rm) => rm.eq(room),
                Option::None => false,
            };
            if matched {
                proof {
                    assert(self.conns@[k as int].room_view() == Option::Some(room@));
                    assert(!out@.contains(self.conns@[k as int].id)) by {
                        if out@.contains(self.conns@[k as int].id) {
                            let j = choose|j: int|
                                0 <= j < k && self.conns@[j].id == self.conns@[k as int].id
                                    && self.conns@[j].room_view() == Option::Some(room@);
                            assert(false);
                        }
                    }
                }
                let ghost out0 = out@;
                out.push(e.id);
                proof {
                    assert forall|id: ConnId| out@.contains(id) <==> exists|j: int|
                        0 <= j < k + 1 && self.conns@[j].id == id && self.conns@[j].room_view()
                            == Option::Some(room@) by {
                        if out@.contains(id) {
                            let a = choose|a: int| 0 <= a < out@.len() && out@[a] == id;
                            if a < out0.len() {
                                assert(out0[a] == id);
                                assert(out0.contains(id));
                                let j = choose|j: int|
                                    0 <= j < k && self.conns@[j].id == id
                                        && self.conns@[j].room_view() == Option::Some(room@);
                                assert(0 <= j < k + 1 && self.conns@[j].id == id
                                    && self.conns@[j].room_view() == Option::Some(room@));
                            } else {
                                assert(out@[a] == self.conns@[k as int].id);
                                assert(0 <= k < k + 1 && self.conns@[k as int].id == id
                                    && self.conns@[k as int].room_view()
                                        == Option::Some(room@));
                            }
                        }
                        if exists|j: int|
                            0 <= j < k + 1 && self.conns@[j].id == id
                                && self.conns@[j].room_view() == Option::Some(room@) {
                            let j = choose|j: int|
                                0 <= j < k + 1 && self.conns@[j].id == id
                                    && self.conns@[j].room_view() == Option::Some(room@);
                            if j < k {
                                assert(out0.contains(id));
                                let a = choose|a: int| 0 <= a < out0.len() && out0[a] == id;
                                assert(out@[a] == id);
                                assert(out@.contains(id));
                            } else {
                                assert(out@[out@.len() - 1] == id);
                                assert(out@.contains(id));
                            }
                        }
                    }
                    assert(forall|a: int, b: int|
                        0 <= a < b < out@.len() ==> out@[a] != out@[b]) by {
                        assert(forall|a: int| 0 <= a < out0.len() ==> out@[a] == out0[a]);
                        assert(out@[out@.len() - 1] == self.conns@[k as int].id);
                        assert(!out0.contains(self.conns@[k as int].id));
                        assert(forall|a: int| 0 <= a < out0.len()
                            ==> out0[a] != self.conns@[k as int].id) by {
                            assert(forall|a: int| 0 <= a < out0.len()
                                ==> #[trigger] out0.contains(out0[a]));
                        }
                    }
                }
            } else {
                proof {
                    assert(self.conns@[k as int].room_view() != Option::Some(room@));
                    assert forall|id: ConnId| out@.contains(id) <==> exists|j: int|
                        0 <= j < k + 1 && self.conns@[j].id == id && self.conns@[j].room_view()
                            == Option::Some(room@) by {
                        if exists|j: int|
                            0 <= j < k + 1 && self.conns@[j].id == id
                                && self.conns@[j].room_view() == Option::Some(room@) {
                            let j = choose|j: int|
                                0 <= j < k + 1 && self.conns@[j].id == id
                                    && self.conns@[j].room_view() == Option::Some(room@);
                            assert(j < k);
                            assert(0 <= j < k && self.conns@[j].id == id
                                && self.conns@[j].room_view() == Option::Some(room@));
                        }
                    }
                }
            }
            k = k + 1;
        }
        proof {
            assert forall|id: ConnId| out@.contains(id) <==> members(self@, room@).contains(
                id,
            ) by {
                if out@.contains(id) {
                    let j = choose|j: int|
                        0 <= j < n && self.conns@[j].id == id && self.conns@[j].room_view()
                            == Option::Some(room@);
                    lemma_map_of_index(self.conns@, j);
                } else {
                    if members(self@, room@).contains(id) {
                        lemma_map_of_dom(self.conns@, id);
                        let j = choose|j: int| 0 <= j < self.conns@.len()
                            && self.conns@[j].id == id;
                        lemma_map_of_index(self.conns@, j);
                        assert(self.conns@[j].room_view() == Option::Some(room@));
                    }
                }
            }
        }
        out
    }
}

} // verus!
