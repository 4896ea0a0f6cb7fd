use crate::ids::{
    ids_front, ids_insert_if_absent, ids_len, ids_new, ids_pop_front, ids_remove, ordered_ids,
};
use crate::key::{copy_bytes, same_bytes, ProtocolVersion, Session, SessionKey};
use linked_hash_set::LinkedHashSet;
use vstd::prelude::*;

verus! {

/// A destination, as the contracts see it: host and port.
pub type KeyView = (Seq<char>, u16);

/// What the cache holds for one session identifier: the destination it is
/// cached under, its protocol version and its handle.
pub type Entry<H> = (KeyView, ProtocolVersion, H);

/// The identifiers cached under `k`, oldest first; empty where none are.
pub open spec fn ids_under(order: Map<KeyView, Seq<Seq<u8>>>, k: KeyView) -> Seq<Seq<u8>> {
    if order.contains_key(k) {
        order[k]
    } else {
        Seq::empty()
    }
}

/// The two indices agree, and no destination holds an empty or oversized set:
/// each cached identifier is listed once, under the destination that the
/// reverse index gives for it, and nothing else is listed.
pub open spec fn consistent<H>(
    order: Map<KeyView, Seq<Seq<u8>>>,
    entries: Map<Seq<u8>, Entry<H>>,
    capacity: nat,
) -> bool {
    &&& forall|k: KeyView| #[trigger]
        order.contains_key(k) ==> 0 < order[k].len() <= capacity && order[k].no_duplicates()
    &&& forall|k: KeyView, j: int|
        order.contains_key(k) && 0 <= j < order[k].len() ==> entries.contains_key(
            #[trigger] order[k][j],
        ) && entries[order[k][j]].0 == k
    &&& forall|id: Seq<u8>| #[trigger]
        entries.contains_key(id) ==> order.contains_key(entries[id].0) && order[entries[
            id
        ].0].contains(id)
}

/// The forward index after `id` is taken out of the cache.
pub open spec fn order_without<H>(
    order: Map<KeyView, Seq<Seq<u8>>>,
    entries: Map<Seq<u8>, Entry<H>>,
    id: Seq<u8>,
) -> Map<KeyView, Seq<Seq<u8>>> {
    if entries.contains_key(id) {
        let k = entries[id].0;
        let rest = order[k].remove_value(id);
        if rest.len() == 0 {
            order.remove(k)
        } else {
            order.insert(k, rest)
        }
    } else {
        order
    }
}

/// The state after `insert(k, s)` where `s` has identifier `id`, version `v` and
/// handle `h`. With capacity zero nothing is kept. Otherwise: an identifier
/// cached under another destination is first taken out there; a destination
/// already at capacity loses its oldest session; then `s` is appended, unless
/// its identifier is already cached under `k`, in which case nothing changes.
pub open spec fn after_insert<H>(
    order: Map<KeyView, Seq<Seq<u8>>>,
    entries: Map<Seq<u8>, Entry<H>>,
    capacity: nat,
    k: KeyView,
    id: Seq<u8>,
    v: ProtocolVersion,
    h: H,
) -> (Map<KeyView, Seq<Seq<u8>>>, Map<Seq<u8>, Entry<H>>) {
    if capacity == 0 {
        (order, entries)
    } else {
        let moved = entries.contains_key(id) && entries[id].0 != k;
        let o1 = if moved {
            order_without(order, entries, id)
        } else {
            order
        };
        let e1 = if moved {
            entries.remove(id)
        } else {
            entries
        };
        let full = ids_under(o1, k).len() >= capacity;
        let oldest = ids_under(o1, k)[0];
        let o2 = if full {
            order_without(o1, e1, oldest)
        } else {
            o1
        };
        let e2 = if full {
            e1.remove(oldest)
        } else {
            e1
        };
        if ids_under(o2, k).contains(id) {
            (o2, e2)
        } else {
            (o2.insert(k, ids_under(o2, k).push(id)), e2.insert(id, (k, v, h)))
        }
    }
}

/// The state after `get(k)`: a TLS 1.3 ticket at the front of `k` is taken out;
/// anything else leaves the cache as it was.
pub open spec fn after_get<H>(
    order: Map<KeyView, Seq<Seq<u8>>>,
    entries: Map<Seq<u8>, Entry<H>>,
    k: KeyView,
) -> (Map<KeyView, Seq<Seq<u8>>>, Map<Seq<u8>, Entry<H>>) {
    if order.contains_key(k) && entries[order[k][0]].1 == ProtocolVersion::Tls1_3 {
        (order_without(order, entries, order[k][0]), entries.remove(order[k][0]))
    } else {
        (order, entries)
    }
}

/// Taking a value out of a sequence without duplicates leaves the others, once each.
pub proof fn lemma_remove_value_no_dup<A>(s: Seq<A>, x: A)
    requires
        s.no_duplicates(),
        s.contains(x),
    ensures
        s.remove_value(x).len() == s.len() - 1,
        s.remove_value(x).no_duplicates(),
        forall|y: A| s.remove_value(x).contains(y) <==> (s.contains(y) && y != x),
{
    s.index_of_first_ensures(x);
    let i = s.index_of_first(x).unwrap();
    let r = s.remove_value(x);
    assert(r == s.remove(i));
    assert forall|y: A| r.contains(y) <==> (s.contains(y) && y != x) by {
        if r.contains(y) {
            let j = choose|j: int| 0 <= j < r.len() && r[j] == y;
            if j < i {
                assert(s[j] == y);
            } else {
                assert(s[j + 1] == y);
            }
        }
        if s.contains(y) && y != x {
            let j = choose|j: int| 0 <= j < s.len() && s[j] == y;
            if j < i {
                assert(r[j] == y);
            } else {
                assert(r[j - 1] == y);
            }
        }
    }
    assert forall|a: int, b: int| 0 <= a < r.len() && 0 <= b < r.len() && a != b implies r[a]
        != r[b] by {
        let a2 = if a < i {
            a
        } else {
            a + 1
        };
        let b2 = if b < i {
            b
        } else {
            b + 1
        };
        assert(r[a] == s[a2] && r[b] == s[b2]);
    }
}

struct Slot {
    key: SessionKey,
    ids: LinkedHashSet<Vec<u8>>,
}

struct Stored<H> {
    key: SessionKey,
    session: Session<H>,
}

/// A FIFO pool of resumable sessions per destination.
pub struct SessionCache<H> {
    sessions: Vec<Slot>,
    reverse: Vec<Stored<H>>,
    /// Maximum number of sessions kept per destination
    per_key_session_capacity: usize,
    order: Ghost<Map<KeyView, Seq<Seq<u8>>>>,
    entries: Ghost<Map<Seq<u8>, Entry<H>>>,
}

impl<H> SessionCache<H> {
    /// The most sessions kept for one destination.
    pub closed spec fn capacity(&self) -> nat {
        self.per_key_session_capacity as nat
    }

    /// For each destination with cached sessions, their identifiers, oldest first.
    pub closed spec fn order(&self) -> Map<KeyView, Seq<Seq<u8>>> {
        self.order@
    }

    /// For each cached session identifier, its destination, version and handle.
    pub closed spec fn entries(&self) -> Map<Seq<u8>, Entry<H>> {
        self.entries@
    }

    /// The vectors hold exactly what `order` and `entries` describe, each
    /// destination and each identifier once, and the two are `consistent`.
    pub closed spec fn wf(&self) -> bool {
        &&& forall|i: int|
            0 <= i < self.sessions.len() ==> self.order@.contains_key(
                #[trigger] self.sessions@[i].key@,
            ) && self.order@[self.sessions@[i].key@] == ordered_ids(self.sessions@[i].ids)
        &&& forall|k: KeyView| #[trigger]
            self.order@.contains_key(k) ==> exists|i: int|
                0 <= i < self.sessions.len() && #[trigger] self.sessions@[i].key@ == k
        &&& forall|i: int, j: int|
            0 <= i < j < self.sessions.len() ==> #[trigger] self.sessions@[i].key@
                != #[trigger] self.sessions@[j].key@
        &&& forall|i: int|
            0 <= i < self.reverse.len() ==> self.entries@.contains_key(
                #[trigger] self.reverse@[i].session.id@,
            ) && self.entries@[self.reverse@[i].session.id@] == (
                self.reverse@[i].key@,
                self.reverse@[i].session.version,
                self.reverse@[i].session.handle,
            )
        &&& forall|id: Seq<u8>| #[trigger]
            self.entries@.contains_key(id) ==> exists|i: int|
                0 <= i < self.reverse.len() && #[trigger] self.reverse@[i].session.id@ == id
        &&& forall|i: int, j: int|
            0 <= i < j < self.reverse.len() ==> #[trigger] self.reverse@[i].session.id@
                != #[trigger] self.reverse@[j].session.id@
        &&& consistent(self.order@, self.entries@, self.capacity())
    }

    /// A well-formed cache keeps its two indices consistent.
    pub proof fn lemma_consistent(&self)
        requires
            self.wf(),
        ensures
            consistent(self.order(), self.entries(), self.capacity()),
    {
    }

    /// An empty cache that keeps up to 8 sessions per destination.
    pub fn new() -> (r: SessionCache<H>)
        ensures
            r.wf(),
            r.capacity() == 8,
            r.order() == Map::<KeyView, Seq<Seq<u8>>>::empty(),
            r.entries() == Map::<Seq<u8>, Entry<H>>::empty(),
    {
        SessionCache::with_capacity(8)
    }

    /// An empty cache that keeps up to `per_key_session_capacity` sessions per
    /// destination.
    pub fn with_capacity(per_key_session_capacity: usize) -> (r: SessionCache<H>)
        ensures
            r.wf(),
            r.capacity() == per_key_session_capacity,
            r.order() == Map::<KeyView, Seq<Seq<u8>>>::empty(),
            r.entries() == Map::<Seq<u8>, Entry<H>>::empty(),
    {
        SessionCache {
            sessions: Vec::new(),
            reverse: Vec::new(),
            per_key_session_capacity,
            order: Ghost(Map::empty()),
            entries: Ghost(Map::empty()),
        }
    }

    fn find_slot(&self, key: &SessionKey) -> (r: Option<usize>)
        ensures
            r.is_some() ==> r.unwrap() < self.sessions.len() && self.sessions@[r.unwrap()
                as int].key@ == key@,
            r.is_none() ==> forall|i: int|
                0 <= i < self.sessions.len() ==> #[trigger] self.sessions@[i].key@ != key@,
    {
        let mut i: usize = 0;
        while i < self.sessions.len()
            invariant
                0 <= i <= self.sessions.len(),
                forall|j: int| 0 <= j < i ==> #[trigger] self.sessions@[j].key@ != key@,
            decreases self.sessions.len() - i,
        {
            let k = &self.sessions[i].key;
            if k.port == key.port && k.host == key.host {
                return Some(i);
            }
            i = i + 1;
        }
        None
    }

    fn find_stored(&self, id: &[u8]) -> (r: Option<usize>)
        ensures
            r.is_some() ==> r.unwrap() < self.reverse.len() && self.reverse@[r.unwrap()
                as int].session.id@ == id@,
            r.is_none() ==> forall|i: int|
                0 <= i < self.reverse.len() ==> #[trigger] self.reverse@[i].session.id@ != id@,
    {
        let mut i: usize = 0;
        while i < self.reverse.len()
            invariant
                0 <= i <= self.reverse.len(),
                forall|j: int| 0 <= j < i ==> #[trigger] self.reverse@[j].session.id@ != id@,
            decreases self.reverse.len() - i,
        {
            if same_bytes(self.reverse[i].session.id.as_slice(), id) {
                return Some(i);
            }
            i = i + 1;
        }
        None
    }
    /// Forgets the session with identifier `id`, if it is cached; a destination
    /// left with no sessions is dropped.
    pub fn remove(&mut self, id: &[u8])
        requires
            old(self).wf(),
        ensures
            final(self).wf(),
            final(self).capacity() == old(self).capacity(),
            final(self).order() == order_without(old(self).order(), old(self).entries(), id@),
            final(self).entries() == old(self).entries().remove(id@),
    {
        let _ = self.take_out(id);
    }

    /// Takes the session with identifier `id` out of both indices and hands it back.
    fn take_out(&mut self, id: &[u8]) -> (r: Option<Session<H>>)
        requires
            old(self).wf(),
        ensures
            final(self).wf(),
            final(self).capacity() == old(self).capacity(),
            final(self).order() == order_without(old(self).order(), old(self).entries(), id@),
            final(self).entries() == old(self).entries().remove(id@),
            r.is_some() == old(self).entries().contains_key(id@),
            r.is_some() ==> r.unwrap().id@ == id@ && old(self).entries()[id@] == (
                old(self).entries()[id@].0,
                r.unwrap().version,
                r.unwrap().handle,
            ),
    {
        let ri = match self.find_stored(id) {
            Some(ri) => ri,
            None => {
                proof {
                    if self.entries@.contains_key(id@) {
                        let i = choose|i: int|
                            0 <= i < self.reverse.len() && #[trigger] self.reverse@[i].session.id@
                                == id@;
                    }
                    assert(self.entries@.remove(id@) =~= self.entries@);
                }
                return None;
            },
        };
        let ghost old_sessions = self.sessions@;
        let ghost old_reverse = self.reverse@;
        let ghost old_order = self.order@;
        let ghost old_entries = self.entries@;
        let stored = self.reverse.swap_remove(ri);
        let ghost k = stored.key@;
        assert(old_entries.contains_key(id@) && old_entries[id@].0 == k);
        assert(old_order.contains_key(k));
        let si = match self.find_slot(&stored.key) {
            Some(si) => si,
            None => {
                proof {
                    let i = choose|i: int|
                        0 <= i < old_sessions.len() && #[trigger] old_sessions[i].key@ == k;
                    assert(self.sessions@[i].key@ == k);
                }
                return None;
            },
        };
        let mut slot = self.sessions.swap_remove(si);
        let ghost mid_sessions = self.sessions@;
        let _ = ids_remove(&mut slot.ids, id);
        proof {
            lemma_remove_value_no_dup(old_order[k], id@);
        }
        self.entries = Ghost(old_entries.remove(id@));
        self.order = Ghost(order_without(old_order, old_entries, id@));
        let kept = ids_len(&slot.ids) > 0;
        if kept {
            self.sessions.push(slot);
        }
        proof {
            let rest = old_order[k].remove_value(id@);
            let cap = self.capacity();
            let last_s = old_sessions.len() - 1;
            let last_r = old_reverse.len() - 1;
            assert(kept == (rest.len() > 0));
            assert(mid_sessions.len() == last_s);
            assert forall|i: int| 0 <= i < mid_sessions.len() implies #[trigger] mid_sessions[i]
                == old_sessions[if i == si {
                last_s
            } else {
                i
            }] && (if i == si {
                last_s
            } else {
                i
            }) != si by {}
            assert forall|i: int| 0 <= i < self.reverse.len() implies #[trigger] self.reverse@[i]
                == old_reverse[if i == ri {
                last_r
            } else {
                i
            }] && (if i == ri {
                last_r
            } else {
                i
            }) != ri by {}
            // forward index
            assert forall|i: int| 0 <= i < self.sessions.len() implies self.order@.contains_key(
                #[trigger] self.sessions@[i].key@,
            ) && self.order@[self.sessions@[i].key@] == ordered_ids(self.sessions@[i].ids) by {
                if i < mid_sessions.len() {
                    let i2 = if i == si {
                        last_s
                    } else {
                        i
                    };
                    assert(old_sessions[i2].key@ != old_sessions[si as int].key@);
                }
            }
            assert forall|kk: KeyView| #[trigger]
                self.order@.contains_key(kk) implies exists|i: int|
                0 <= i < self.sessions.len() && #[trigger] self.sessions@[i].key@ == kk by {
                if kk == k {
                    assert(self.sessions@[mid_sessions.len() as int].key@ == kk);
                } else {
                    let i = choose|i: int|
                        0 <= i < old_sessions.len() && #[trigger] old_sessions[i].key@ == kk;
                    let j = if i == last_s {
                        si as int
                    } else {
                        i
                    };
                    assert(self.sessions@[j].key@ == kk);
                }
            }
            assert forall|i: int, j: int|
                0 <= i < j < self.sessions.len() implies #[trigger] self.sessions@[i].key@
                != #[trigger] self.sessions@[j].key@ by {
                let i2 = if i == si {
                    last_s
                } else {
                    i
                };
                let j2 = if j == si {
                    last_s
                } else {
                    j
                };
                if j < mid_sessions.len() {
                    assert(old_sessions[i2].key@ != old_sessions[j2].key@);
                } else {
                    assert(old_sessions[i2].key@ != old_sessions[si as int].key@);
                }
            }
            // reverse index
            assert forall|i: int| 0 <= i < self.reverse.len() implies self.entries@.contains_key(
                #[trigger] self.reverse@[i].session.id@,
            ) && self.entries@[self.reverse@[i].session.id@] == (
                self.reverse@[i].key@,
                self.reverse@[i].session.version,
                self.reverse@[i].session.handle,
            ) by {
                let i2 = if i == ri {
                    last_r
                } else {
                    i
                };
                assert(old_reverse[i2].session.id@ != old_reverse[ri as int].session.id@);
            }
            assert forall|id2: Seq<u8>| #[trigger]
                self.entries@.contains_key(id2) implies exists|i: int|
                0 <= i < self.reverse.len() && #[trigger] self.reverse@[i].session.id@ == id2 by {
                let i = choose|i: int|
                    0 <= i < old_reverse.len() && #[trigger] old_reverse[i].session.id@ == id2;
                let j = if i == last_r {
                    ri as int
                } else {
                    i
                };
                assert(self.reverse@[j].session.id@ == id2);
            }
            assert forall|i: int, j: int|
                0 <= i < j < self.reverse.len() implies #[trigger] self.reverse@[i].session.id@
                != #[trigger] self.reverse@[j].session.id@ by {
                let i2 = if i == ri {
                    last_r
                } else {
                    i
                };
                let j2 = if j == ri {
                    last_r
                } else {
                    j
                };
                assert(old_reverse[i2].session.id@ != old_reverse[j2].session.id@);
            }
            // abstract consistency
            let order = self.order@;
            let entries = self.entries@;
            assert forall|kk: KeyView| #[trigger]
                order.contains_key(kk) implies 0 < order[kk].len() <= cap
                && order[kk].no_duplicates() by {
                if kk != k {
                    assert(old_order.contains_key(kk));
                }
            }
            assert forall|kk: KeyView, j: int|
                order.contains_key(kk) && 0 <= j < order[kk].len() implies entries.contains_key(
                #[trigger] order[kk][j],
            ) && entries[order[kk][j]].0 == kk by {
                if kk == k {
                    assert(rest.contains(rest[j]));
                    assert(old_order[k].contains(rest[j]));
                    let j2 = choose|j2: int|
                        0 <= j2 < old_order[k].len() && old_order[k][j2] == rest[j];
                    assert(old_entries.contains_key(old_order[k][j2]));
                } else {
                    assert(old_order.contains_key(kk));
                    assert(old_entries[old_order[kk][j]].0 == kk);
                }
            }
            assert forall|id2: Seq<u8>| #[trigger]
                entries.contains_key(id2) implies order.contains_key(entries[id2].0)
                && order[entries[id2].0].contains(id2) by {
                assert(old_entries.contains_key(id2));
                let kk = old_entries[id2].0;
                assert(old_order.contains_key(kk) && old_order[kk].contains(id2));
                if kk == k {
                    assert(rest.contains(id2));
                }
            }
        }
        Some(stored.session)
    }

    /// The oldest session cached for `key`, if any. A TLS 1.3 ticket serves one
    /// resumption only: it is taken out of the cache as it is handed back. Other
    /// sessions stay and are handed back as a clone of the cached handle.
    pub fn get(&mut self, key: &SessionKey) -> (r: Option<H>)
        where
            H: Clone,
        requires
            old(self).wf(),
        ensures
            final(self).wf(),
            final(self).capacity() == old(self).capacity(),
            r.is_some() == old(self).order().contains_key(key@),
            old(self).order().contains_key(key@) ==> {
                let e = old(self).entries()[old(self).order()[key@][0]];
                if e.1 == ProtocolVersion::Tls1_3 {
                    r.unwrap() == e.2
                } else {
                    cloned(e.2, r.unwrap())
                }
            },
            (final(self).order(), final(self).entries()) == after_get(
                old(self).order(),
                old(self).entries(),
                key@,
            ),
    {
        let si = match self.find_slot(key) {
            Some(si) => si,
            None => {
                proof {
                    if self.order@.contains_key(key@) {
                        let i = choose|i: int|
                            0 <= i < self.sessions.len() && #[trigger] self.sessions@[i].key@
                                == key@;
                    }
                }
                return None;
            },
        };
        let ghost k = key@;
        assert(self.order@.contains_key(k) && self.order@[k] == ordered_ids(
            self.sessions@[si as int].ids,
        ));
        assert(self.order@[k].len() > 0);
        let id = match ids_front(&self.sessions[si].ids) {
            Some(id) => id,
            None => {
                return None;
            },
        };
        assert(id@ == self.order@[k][0]);
        assert(self.entries@.contains_key(id@));
        let ri = match self.find_stored(id.as_slice()) {
            Some(ri) => ri,
            None => {
                proof {
                    let i = choose|i: int|
                        0 <= i < self.reverse.len() && #[trigger] self.reverse@[i].session.id@
                            == id@;
                }
                return None;
            },
        };
        if self.reverse[ri].session.single_use() {
            match self.take_out(id.as_slice()) {
                Some(taken) => Some(taken.handle),
                None => None,
            }
        } else {
            Some(self.reverse[ri].session.handle.clone())
        }
    }

    /// Appends `session` under `key`, unless its identifier is already cached
    /// there.
    fn add(&mut self, key: SessionKey, session: Session<H>)
        requires
            old(self).wf(),
            ids_under(old(self).order(), key@).len() < old(self).capacity(),
            old(self).entries().contains_key(session.id@) ==> old(self).entries()[session.id@].0
                == key@,
        ensures
            final(self).wf(),
            final(self).capacity() == old(self).capacity(),
            ids_under(old(self).order(), key@).contains(session.id@) ==> final(self).order()
                == old(self).order() && final(self).entries() == old(self).entries(),
            !ids_under(old(self).order(), key@).contains(session.id@) ==> final(self).order()
                == old(self).order().insert(
                key@,
                ids_under(old(self).order(), key@).push(session.id@),
            ) && final(self).entries() == old(self).entries().insert(
                session.id@,
                (key@, session.version, session.handle),
            ),
    {
        let ghost k = key@;
        let ghost id = session.id@;
        let ghost old_sessions = self.sessions@;
        let ghost old_reverse = self.reverse@;
        let ghost old_order = self.order@;
        let ghost old_entries = self.entries@;
        let ghost stored_entry = (key@, session.version, session.handle);
        let ghost under = ids_under(old_order, k);
        proof {
            if old_entries.contains_key(id) {
                assert(old_order[k].contains(id));
            }
            if under.contains(id) {
                let j = choose|j: int| 0 <= j < under.len() && under[j] == id;
                assert(old_entries.contains_key(old_order[k][j]));
            }
        }
        assert(old_entries.contains_key(id) == under.contains(id));
        let id_copy = copy_bytes(session.id.as_slice());
        let inserted;
        let ghost mut at: int = old_sessions.len() as int;
        match self.find_slot(&key) {
            Some(si) => {
                proof {
                    at = si as int;
                }
                assert(old_order.contains_key(k));
                inserted = ids_insert_if_absent(&mut self.sessions[si].ids, id_copy);
                assert(self.sessions@ == old_sessions.update(
                    si as int,
                    self.sessions@[si as int],
                ));
                assert(self.sessions@[si as int].key@ == k);
            },
            None => {
                proof {
                    if old_order.contains_key(k) {
                        let i = choose|i: int|
                            0 <= i < old_sessions.len() && #[trigger] old_sessions[i].key@ == k;
                    }
                }
                let mut ids = ids_new();
                inserted = ids_insert_if_absent(&mut ids, id_copy);
                assert(ordered_ids(ids) == under.push(id));
                let key_copy = key.duplicate();
                self.sessions.push(Slot { key: key_copy, ids });
            },
        }
        assert(inserted == !under.contains(id));
        if inserted {
            self.order = Ghost(old_order.insert(k, under.push(id)));
            self.entries = Ghost(old_entries.insert(id, stored_entry));
            self.reverse.push(Stored { key, session });
        }
        proof {
            let cap = self.capacity();
            let order = self.order@;
            let entries = self.entries@;
            if inserted {
                assert forall|i: int| 0 <= i < self.sessions.len() implies order.contains_key(
                    #[trigger] self.sessions@[i].key@,
                ) && order[self.sessions@[i].key@] == ordered_ids(self.sessions@[i].ids) by {
                    if i < old_sessions.len() && self.sessions@[i].key@ != k {
                        assert(self.sessions@[i] == old_sessions[i]);
                    }
                }
                assert forall|kk: KeyView| #[trigger]
                    order.contains_key(kk) implies exists|i: int|
                    0 <= i < self.sessions.len() && #[trigger] self.sessions@[i].key@ == kk by {
                    if kk != k {
                        let i = choose|i: int|
                            0 <= i < old_sessions.len() && #[trigger] old_sessions[i].key@ == kk;
                        assert(self.sessions@[i].key@ == kk);
                    } else {
                        let i = if old_order.contains_key(k) {
                            choose|i: int|
                                0 <= i < old_sessions.len() && #[trigger] old_sessions[i].key@ == k
                        } else {
                            old_sessions.len() as int
                        };
                        assert(self.sessions@[i].key@ == kk);
                    }
                }
                assert forall|i: int, j: int|
                    0 <= i < j < self.sessions.len() implies #[trigger] self.sessions@[i].key@
                    != #[trigger] self.sessions@[j].key@ by {
                    if j == old_sessions.len() {
                        assert(old_sessions[i].key@ != k) by {
                            if old_sessions[i].key@ == k {
                                assert(old_order.contains_key(k));
                            }
                        }
                    }
                }
                assert forall|i: int| 0 <= i < self.reverse.len() implies entries.contains_key(
                    #[trigger] self.reverse@[i].session.id@,
                ) && entries[self.reverse@[i].session.id@] == (
                    self.reverse@[i].key@,
                    self.reverse@[i].session.version,
                    self.reverse@[i].session.handle,
                ) by {
                    if i < old_reverse.len() {
                        assert(self.reverse@[i] == old_reverse[i]);
                        assert(old_entries.contains_key(old_reverse[i].session.id@));
                    }
                }
                assert forall|id2: Seq<u8>| #[trigger]
                    entries.contains_key(id2) implies exists|i: int|
                    0 <= i < self.reverse.len() && #[trigger] self.reverse@[i].session.id@
                        == id2 by {
                    if id2 == id {
                        assert(self.reverse@[old_reverse.len() as int].session.id@ == id2);
                    } else {
                        let i = choose|i: int|
                            0 <= i < old_reverse.len() && #[trigger] old_reverse[i].session.id@
                                == id2;
                        assert(self.reverse@[i].session.id@ == id2);
                    }
                }
                assert forall|i: int, j: int|
                    0 <= i < j < self.reverse.len() implies #[trigger] self.reverse@[i].session.id@
                    != #[trigger] self.reverse@[j].session.id@ by {
                    if j == old_reverse.len() {
                        assert(old_entries.contains_key(old_reverse[i].session.id@));
                    }
                }
                assert forall|kk: KeyView| #[trigger]
                    order.contains_key(kk) implies 0 < order[kk].len() <= cap
                    && order[kk].no_duplicates() by {
                    if kk != k {
                        assert(old_order.contains_key(kk));
                    }
                }
                assert forall|kk: KeyView, j: int|
                    order.contains_key(kk) && 0 <= j < order[kk].len() implies entries.contains_key(
                    #[trigger] order[kk][j],
                ) && entries[order[kk][j]].0 == kk by {
                    if kk != k {
                        assert(old_order.contains_key(kk));
                        assert(old_entries.contains_key(old_order[kk][j]));
                    } else if j < under.len() {
                        assert(old_order.contains_key(k));
                        assert(old_entries.contains_key(old_order[k][j]));
                    }
                }
                assert forall|id2: Seq<u8>| #[trigger]
                    entries.contains_key(id2) implies order.contains_key(entries[id2].0)
                    && order[entries[id2].0].contains(id2) by {
                    if id2 == id {
                        assert(order[k][under.len() as int] == id);
                    } else {
                        assert(old_entries.contains_key(id2));
                        let kk = old_entries[id2].0;
                        assert(old_order[kk].contains(id2));
                        if kk == k {
                            let j = choose|j: int|
                                0 <= j < old_order[k].len() && old_order[k][j] == id2;
                            assert(order[k][j] == id2);
                        }
                    }
                }
            } else {
                assert(old_order.contains_key(k));
                assert forall|i: int| 0 <= i < self.sessions.len() implies order.contains_key(
                    #[trigger] self.sessions@[i].key@,
                ) && order[self.sessions@[i].key@] == ordered_ids(self.sessions@[i].ids) by {
                    if i != at {
                        assert(self.sessions@[i] == old_sessions[i]);
                    }
                }
                assert forall|kk: KeyView| #[trigger]
                    order.contains_key(kk) implies exists|i: int|
                    0 <= i < self.sessions.len() && #[trigger] self.sessions@[i].key@ == kk by {
                    let i = choose|i: int|
                        0 <= i < old_sessions.len() && #[trigger] old_sessions[i].key@ == kk;
                    if i != at {
                        assert(self.sessions@[i] == old_sessions[i]);
                    }
                    assert(self.sessions@[i].key@ == kk);
                }
                assert forall|i: int, j: int|
                    0 <= i < j < self.sessions.len() implies #[trigger] self.sessions@[i].key@
                    != #[trigger] self.sessions@[j].key@ by {
                    if i != at {
                        assert(self.sessions@[i] == old_sessions[i]);
                    }
                    if j != at {
                        assert(self.sessions@[j] == old_sessions[j]);
                    }
                    assert(self.sessions@[i].key@ == old_sessions[i].key@);
                    assert(self.sessions@[j].key@ == old_sessions[j].key@);
                }
            }
        }
    }

    /// Caches `session` for `key`, as the oldest-first pool with a bound per
    /// destination that `after_insert` describes.
    pub fn insert(&mut self, key: SessionKey, session: Session<H>)
        requires
            old(self).wf(),
        ensures
            final(self).wf(),
            final(self).capacity() == old(self).capacity(),
            (final(self).order(), final(self).entries()) == after_insert(
                old(self).order(),
                old(self).entries(),
                old(self).capacity(),
                key@,
                session.id@,
                session.version,
                session.handle,
            ),
    {
        if self.per_key_session_capacity == 0 {
            return ;
        }
        match self.find_stored(session.id.as_slice()) {
            Some(ri) => {
                let owner = &self.reverse[ri].key;
                if !(owner.port == key.port && owner.host == key.host) {
                    let _ = self.take_out(session.id.as_slice());
                }
            },
            None => {
                proof {
                    if self.entries@.contains_key(session.id@) {
                        let i = choose|i: int|
                            0 <= i < self.reverse.len() && #[trigger] self.reverse@[i].session.id@
                                == session.id@;
                    }
                }
            },
        }
        let ghost k = key@;
        let ghost o1 = self.order@;
        let ghost e1 = self.entries@;
        assert(e1.contains_key(session.id@) ==> e1[session.id@].0 == k);
        if let Some(si) = self.find_slot(&key) {
            assert(self.order@[k] == ordered_ids(self.sessions@[si as int].ids));
            if ids_len(&self.sessions[si].ids) >= self.per_key_session_capacity {
                if let Some(oldest) = ids_front(&self.sessions[si].ids) {
                    assert(e1.contains_key(oldest@));
                    let _ = self.take_out(oldest.as_slice());
                }
            }
        } else {
            proof {
                if o1.contains_key(k) {
                    let i = choose|i: int|
                        0 <= i < self.sessions.len() && #[trigger] self.sessions@[i].key@ == k;
                }
            }
        }
        proof {
            let o2 = self.order@;
            if o2.contains_key(k) {
                assert(0 < o2[k].len() <= self.capacity());
            }
            if o1.contains_key(k) && ids_under(o1, k).len() >= self.capacity() {
                let under = ids_under(o1, k);
                let oldest = under[0];
                under.index_of_first_ensures(oldest);
                lemma_remove_value_no_dup(under, oldest);
                assert(under.remove_value(oldest).len() < self.capacity());
            }
        }
        self.add(key, session);
    }
}

} // verus!
