use crate::cache::{
    after_get, after_insert, consistent, ids_under, lemma_remove_value_no_dup, order_without,
    Entry, KeyView, SessionCache,
};
use crate::key::ProtocolVersion;
use vstd::prelude::*;

verus! {

/// Taking out an identifier cached under another destination leaves `k` as it was.
pub proof fn lemma_without_elsewhere<H>(
    order: Map<KeyView, Seq<Seq<u8>>>,
    entries: Map<Seq<u8>, Entry<H>>,
    id: Seq<u8>,
    k: KeyView,
)
    requires
        !(entries.contains_key(id) && entries[id].0 == k),
    ensures
        ids_under(order_without(order, entries, id), k) == ids_under(order, k),
{
}

/// Taking out the oldest identifier of `k` leaves the rest of `k`, in order.
pub proof fn lemma_without_oldest<H>(
    order: Map<KeyView, Seq<Seq<u8>>>,
    entries: Map<Seq<u8>, Entry<H>>,
    capacity: nat,
    k: KeyView,
)
    requires
        consistent(order, entries, capacity),
        order.contains_key(k),
    ensures
        entries.contains_key(order[k][0]),
        ids_under(order_without(order, entries, order[k][0]), k) == order[k].drop_first(),
{
    let s = order[k];
    let x = s[0];
    assert(entries.contains_key(s[0]) && entries[s[0]].0 == k);
    s.index_of_first_ensures(x);
    assert(s.index_of_first(x) == Some(0int));
    assert(s.remove(0) =~= s.drop_first());
}

/// Inserting under `k` an identifier not cached there appends it, after the
/// oldest has gone if `k` was full; the evicted identifier leaves the cache.
pub proof fn lemma_insert_new<H>(
    order: Map<KeyView, Seq<Seq<u8>>>,
    entries: Map<Seq<u8>, Entry<H>>,
    capacity: nat,
    k: KeyView,
    id: Seq<u8>,
    v: ProtocolVersion,
    h: H,
)
    requires
        consistent(order, entries, capacity),
        capacity > 0,
        !ids_under(order, k).contains(id),
    ensures
        ({
            let u = ids_under(order, k);
            let (o, e) = after_insert(order, entries, capacity, k, id, v, h);
            &&& ids_under(o, k) == if u.len() >= capacity {
                u.drop_first()
            } else {
                u
            }.push(id)
            &&& e.contains_key(id) && e[id] == (k, v, h)
            &&& u.len() >= capacity ==> !e.contains_key(u[0])
        }),
{
    let u = ids_under(order, k);
    if entries.contains_key(id) && entries[id].0 == k {
        assert(order[k].contains(id));
    }
    let moved = entries.contains_key(id) && entries[id].0 != k;
    let o1 = if moved {
        order_without(order, entries, id)
    } else {
        order
    };
    let e1 = if moved {
        entries.remove(id)
    } else {
        entries
    };
    lemma_without_elsewhere(order, entries, id, k);
    assert(ids_under(o1, k) == u);
    if u.len() >= capacity {
        lemma_without_oldest(order, entries, capacity, k);
        assert(u[0] != id);
        let o2 = order_without(o1, e1, u[0]);
        assert(e1.contains_key(u[0]) && e1[u[0]].0 == k);
        assert(o1[k] == u);
        assert(ids_under(o2, k) == u.remove_value(u[0]));
        u.index_of_first_ensures(u[0]);
        assert(u.remove(0) =~= u.drop_first());
        assert(!u.drop_first().contains(id)) by {
            if u.drop_first().contains(id) {
                let j = choose|j: int| 0 <= j < u.drop_first().len() && u.drop_first()[j] == id;
                assert(u[j + 1] == id);
            }
        }
    }
}

/// A session that is not a TLS 1.3 ticket, inserted under a destination that
/// held nothing, is what `get` hands back (its handle, cloned), and `get`
/// leaves the cache as it was, so a second `get` hands it back again.
pub proof fn law_round_trip<H>(
    before: SessionCache<H>,
    after: SessionCache<H>,
    k: KeyView,
    id: Seq<u8>,
    v: ProtocolVersion,
    h: H,
)
    requires
        before.wf(),
        before.capacity() > 0,
        !before.order().contains_key(k),
        v != ProtocolVersion::Tls1_3,
        (after.order(), after.entries()) == after_insert(
            before.order(),
            before.entries(),
            before.capacity(),
            k,
            id,
            v,
            h,
        ),
    ensures
        after.order().contains_key(k),
        after.order()[k][0] == id,
        after.entries()[id] == (k, v, h),
        after_get(after.order(), after.entries(), k) == (after.order(), after.entries()),
{
    before.lemma_consistent();
    lemma_insert_new(before.order(), before.entries(), before.capacity(), k, id, v, h);
    assert(ids_under(after.order(), k) =~= seq![id]);
}

/// A TLS 1.3 ticket, inserted under a destination that held nothing, is handed
/// back by the first `get` only: that `get` leaves nothing under the destination.
pub proof fn law_single_use<H>(
    before: SessionCache<H>,
    after: SessionCache<H>,
    k: KeyView,
    id: Seq<u8>,
    h: H,
)
    requires
        before.wf(),
        before.capacity() > 0,
        !before.order().contains_key(k),
        (after.order(), after.entries()) == after_insert(
            before.order(),
            before.entries(),
            before.capacity(),
            k,
            id,
            ProtocolVersion::Tls1_3,
            h,
        ),
    ensures
        after.order().contains_key(k),
        after.order()[k][0] == id,
        after.entries()[id] == (k, ProtocolVersion::Tls1_3, h),
        !after_get(after.order(), after.entries(), k).0.contains_key(k),
{
    before.lemma_consistent();
    lemma_insert_new(
        before.order(),
        before.entries(),
        before.capacity(),
        k,
        id,
        ProtocolVersion::Tls1_3,
        h,
    );
    assert(ids_under(after.order(), k) =~= seq![id]);
    let one = seq![id];
    assert(one[0] == id);
    one.index_of_first_ensures(id);
    assert(one.index_of_first(id) == Some(0int));
    assert(one.remove(0) =~= Seq::<Seq<u8>>::empty());
}

/// With room for two sessions per destination, inserting three distinct
/// sessions `a`, `b`, `c` under a destination that held nothing leaves exactly
/// `b` then `c` there; `a` is no longer cached anywhere.
pub proof fn law_capacity_bound<H>(
    c0: SessionCache<H>,
    c1: SessionCache<H>,
    c2: SessionCache<H>,
    c3: SessionCache<H>,
    k: KeyView,
    a: (Seq<u8>, ProtocolVersion, H),
    b: (Seq<u8>, ProtocolVersion, H),
    c: (Seq<u8>, ProtocolVersion, H),
)
    requires
        c0.wf(),
        c1.wf(),
        c2.wf(),
        c0.capacity() == 2,
        !c0.order().contains_key(k),
        a.0 != b.0,
        a.0 != c.0,
        b.0 != c.0,
        (c1.order(), c1.entries()) == after_insert(
            c0.order(),
            c0.entries(),
            2,
            k,
            a.0,
            a.1,
            a.2,
        ),
        c1.capacity() == 2,
        (c2.order(), c2.entries()) == after_insert(
            c1.order(),
            c1.entries(),
            2,
            k,
            b.0,
            b.1,
            b.2,
        ),
        c2.capacity() == 2,
        (c3.order(), c3.entries()) == after_insert(
            c2.order(),
            c2.entries(),
            2,
            k,
            c.0,
            c.1,
            c.2,
        ),
        c3.wf(),
    ensures
        c3.order()[k] == seq![b.0, c.0],
        !c3.entries().contains_key(a.0),
        forall|k2: KeyView| !(#[trigger] ids_under(c3.order(), k2)).contains(a.0),
{
    c0.lemma_consistent();
    c1.lemma_consistent();
    c2.lemma_consistent();
    c3.lemma_consistent();
    lemma_insert_new(c0.order(), c0.entries(), 2, k, a.0, a.1, a.2);
    assert(ids_under(c1.order(), k) =~= seq![a.0]);
    lemma_insert_new(c1.order(), c1.entries(), 2, k, b.0, b.1, b.2);
    assert(ids_under(c2.order(), k) =~= seq![a.0, b.0]);
    lemma_insert_new(c2.order(), c2.entries(), 2, k, c.0, c.1, c.2);
    assert(seq![a.0, b.0].drop_first().push(c.0) =~= seq![b.0, c.0]);
    assert forall|k2: KeyView| !(#[trigger] ids_under(c3.order(), k2)).contains(a.0) by {
        if ids_under(c3.order(), k2).contains(a.0) {
            let j = choose|j: int|
                0 <= j < c3.order()[k2].len() && c3.order()[k2][j] == a.0;
            assert(c3.entries().contains_key(c3.order()[k2][j]));
        }
    }
}

/// Sessions leave a destination oldest first: after `a` then `b` are inserted
/// under a destination that held nothing, `get` sees `a`; once `a` is removed,
/// it sees `b`.
pub proof fn law_fifo_order<H>(
    c0: SessionCache<H>,
    c1: SessionCache<H>,
    c2: SessionCache<H>,
    k: KeyView,
    a: (Seq<u8>, ProtocolVersion, H),
    b: (Seq<u8>, ProtocolVersion, H),
)
    requires
        c0.wf(),
        c1.wf(),
        c0.capacity() >= 2,
        c1.capacity() == c0.capacity(),
        !c0.order().contains_key(k),
        a.0 != b.0,
        (c1.order(), c1.entries()) == after_insert(
            c0.order(),
            c0.entries(),
            c0.capacity(),
            k,
            a.0,
            a.1,
            a.2,
        ),
        (c2.order(), c2.entries()) == after_insert(
            c1.order(),
            c1.entries(),
            c1.capacity(),
            k,
            b.0,
            b.1,
            b.2,
        ),
    ensures
        c2.order()[k][0] == a.0,
        ids_under(order_without(c2.order(), c2.entries(), a.0), k) == seq![b.0],
{
    c0.lemma_consistent();
    c1.lemma_consistent();
    lemma_insert_new(c0.order(), c0.entries(), c0.capacity(), k, a.0, a.1, a.2);
    assert(ids_under(c1.order(), k) =~= seq![a.0]);
    lemma_insert_new(c1.order(), c1.entries(), c1.capacity(), k, b.0, b.1, b.2);
    let u = seq![a.0, b.0];
    assert(ids_under(c2.order(), k) =~= u);
    assert(c2.entries()[a.0].0 == k);
    u.index_of_first_ensures(a.0);
    assert(u.index_of_first(a.0) == Some(0int));
    assert(u.remove_value(a.0) =~= seq![b.0]);
}

/// A session inserted under `k1` is listed under no other destination, so
/// `get` on another destination never hands it back.
pub proof fn law_cross_key_isolation<H>(
    before: SessionCache<H>,
    after: SessionCache<H>,
    k1: KeyView,
    k2: KeyView,
    id: Seq<u8>,
    v: ProtocolVersion,
    h: H,
)
    requires
        before.wf(),
        after.wf(),
        k1 != k2,
        (after.order(), after.entries()) == after_insert(
            before.order(),
            before.entries(),
            before.capacity(),
            k1,
            id,
            v,
            h,
        ),
    ensures
        !ids_under(after.order(), k2).contains(id),
{
    after.lemma_consistent();
    before.lemma_consistent();
    if ids_under(after.order(), k2).contains(id) {
        let j = choose|j: int|
            0 <= j < after.order()[k2].len() && after.order()[k2][j] == id;
        assert(after.entries().contains_key(after.order()[k2][j]));
        assert(after.entries()[id].0 == k2);
        if before.capacity() == 0 {
            assert(before.order()[k2].contains(id));
            assert(before.entries()[id].0 == k2);
            assert(false);
        }
    }
}

/// Removing the only session of a destination drops the destination.
pub proof fn law_removal_cleanup<H>(c: SessionCache<H>, k: KeyView, id: Seq<u8>)
    requires
        c.wf(),
        c.order().contains_key(k),
        c.order()[k] == seq![id],
    ensures
        !order_without(c.order(), c.entries(), id).contains_key(k),
        !c.entries().remove(id).contains_key(id),
{
    c.lemma_consistent();
    assert(c.entries().contains_key(c.order()[k][0]));
    let one = seq![id];
    assert(one[0] == id);
    one.index_of_first_ensures(id);
    assert(one.index_of_first(id) == Some(0int));
    assert(one.remove(0) =~= Seq::<Seq<u8>>::empty());
}

/// A second `remove` of the same identifier changes nothing.
pub proof fn law_idempotent_remove<H>(
    order: Map<KeyView, Seq<Seq<u8>>>,
    entries: Map<Seq<u8>, Entry<H>>,
    id: Seq<u8>,
)
    ensures
        order_without(order_without(order, entries, id), entries.remove(id), id) == order_without(
            order,
            entries,
            id,
        ),
        entries.remove(id).remove(id) == entries.remove(id),
{
    assert(entries.remove(id).remove(id) =~= entries.remove(id));
}

} // verus!
