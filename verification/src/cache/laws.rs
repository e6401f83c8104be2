//! What holds of the cache whatever is done with it: pinned entries stay,
//! erased keys are out of reach at once, and the least recently used
//! entries go first when room is wanted.

use vstd::prelude::*;
use crate::cache::model::{
    distinct_ids, first_where, lemma_erase_wf, lemma_first_where, lemma_first_where_is,
    lemma_insert_wf, lemma_look_up_wf, lemma_release_wf, lemma_remove_keeps,
    lemma_total_charge_push, lemma_total_charge_remove, lemma_without, shed, shrink,
    total_charge, unpinned, with_id, with_key, CacheModel, Slot,
};

verus! {

/// In a sound state no number names two living entries.
pub proof fn lemma_alive_distinct<V>(m: CacheModel<V>)
    requires
        m.wf(),
    ensures
        distinct_ids(m.alive()),
{
    let all = m.alive();
    let n = m.resident.len() as int;
    assert forall|i: int, j: int| 0 <= i < j < all.len() implies all[i].id != all[j].id by {
        if j < n {
            assert(all[i] == m.resident[i] && all[j] == m.resident[j]);
        } else if i >= n {
            assert(all[i] == m.detached[i - n] && all[j] == m.detached[j - n]);
        } else {
            assert(all[i] == m.resident[i] && all[j] == m.detached[j - n]);
        }
    }
}

/// A living entry is the one that its number names.
pub proof fn lemma_entry_of<V>(m: CacheModel<V>, e: Slot<V>)
    requires
        m.wf(),
        m.alive().contains(e),
    ensures
        m.entry(e.id) == Some(e),
{
    let all = m.alive();
    lemma_alive_distinct(m);
    lemma_first_where(all, with_id(e.id));
    let idx = choose|idx: int| 0 <= idx < all.len() && all[idx] == e;
    let k = first_where(all, with_id(e.id)) as int;
    if k > idx {
        assert(!with_id::<V>(e.id)(all[idx]));
    }
}

/// An entry that is not alive is named by no handle's number.
pub proof fn lemma_entry_none<V>(m: CacheModel<V>, id: u64)
    requires
        forall|k: int| 0 <= k < m.alive().len() ==> (#[trigger] m.alive()[k]).id != id,
    ensures
        m.entry(id).is_none(),
        m.pins(id) == 0,
{
    lemma_first_where(m.alive(), with_id(id));
    let k = first_where(m.alive(), with_id(id)) as int;
    if k < m.alive().len() {
        assert(with_id::<V>(id)(m.alive()[k]));
    }
}

/// Putting out entries for want of room leaves every pinned entry in.
pub proof fn lemma_shrink_keeps_pinned<V>(s: Seq<Slot<V>>, capacity: nat, e: Slot<V>)
    requires
        s.contains(e),
        e.pins > 0,
    ensures
        shrink(s, capacity).contains(e),
    decreases s.len(),
{
    let i = first_where(s, unpinned()) as int;
    lemma_first_where(s, unpinned());
    if total_charge(s) <= capacity || i >= s.len() {
    } else {
        let t = s.remove(i);
        let k = choose|k: int| 0 <= k < s.len() && s[k] == e;
        assert(unpinned::<V>()(s[i]));
        assert(k != i);
        if k < i {
            assert(t[k] == e);
        } else {
            assert(t[k - 1] == e);
        }
        lemma_shrink_keeps_pinned(t, capacity, e);
    }
}

/// **Pinned entries outlive `insert`.** An entry with a handle on it is
/// still alive, unchanged, after any `insert`, whether entries were put
/// out for want of room or the entry's own key was given a new value.
pub proof fn lemma_insert_keeps_pinned<V>(
    m: CacheModel<V>,
    key: Seq<u8>,
    value: V,
    charge: nat,
    e: Slot<V>,
)
    requires
        m.wf(),
        m.issued < u64::MAX,
        m.alive().contains(e),
        e.pins > 0,
    ensures
        m.insert(key, value, charge).alive().contains(e),
        m.insert(key, value, charge).entry(e.id) == Some(e),
{
    let after = m.insert(key, value, charge);
    let all = m.alive();
    let n = m.resident.len() as int;
    let i = m.index_of(key) as int;
    let k = choose|k: int| 0 <= k < all.len() && all[k] == e;
    lemma_first_where(m.resident, with_key(key));
    let d2 = m.detaching(key);
    if k >= n {
        assert(m.detached[k - n] == e);
        assert(d2[k - n] == e);
        assert(after.alive()[after.resident.len() + (k - n)] == e);
    } else {
        assert(m.resident[k] == e);
        if m.contains(key) && k == i {
            assert(d2[m.detached.len() as int] == e);
            assert(after.alive()[(after.resident.len() + m.detached.len()) as int] == e);
        } else {
            let base = m.without(key);
            if m.contains(key) {
                if k < i {
                    assert(base[k] == e);
                } else {
                    assert(base[k - 1] == e);
                }
            } else {
                assert(base[k] == e);
            }
            let full = m.admitted(key, value, charge);
            let kk = choose|kk: int| 0 <= kk < base.len() && base[kk] == e;
            assert(full[kk] == e);
            lemma_shrink_keeps_pinned(full, m.capacity, e);
            let r2 = after.resident;
            let j = choose|j: int| 0 <= j < r2.len() && r2[j] == e;
            assert(after.alive()[j] == e);
        }
    }
    lemma_insert_wf(m, key, value, charge);
    lemma_entry_of(after, e);
}

/// **The new entry is alive and pinned.** The handle that `insert` returns
/// names the entry just made, which no eviction of that `insert` took.
pub proof fn lemma_insert_entry<V>(m: CacheModel<V>, key: Seq<u8>, value: V, charge: nat)
    requires
        m.wf(),
        m.issued < u64::MAX,
    ensures
        m.insert(key, value, charge).entry(m.issued as u64) == Some(
            m.fresh(key, value, charge),
        ),
        m.insert(key, value, charge).contains(key),
{
    let after = m.insert(key, value, charge);
    let e = m.fresh(key, value, charge);
    let full = m.admitted(key, value, charge);
    assert(full[full.len() - 1] == e);
    lemma_shrink_keeps_pinned(full, m.capacity, e);
    let r2 = after.resident;
    let j = choose|j: int| 0 <= j < r2.len() && r2[j] == e;
    assert(after.alive()[j] == e);
    lemma_insert_wf(m, key, value, charge);
    lemma_entry_of(after, e);
    lemma_first_where(r2, with_key(key));
    if first_where(r2, with_key(key)) >= r2.len() {
        assert(!with_key::<V>(key)(r2[j]));
    }
}

/// **A hit pins the entry found.** After `look_up` finds `key`, the entry
/// is alive with one pin more, and is the most recently used.
pub proof fn lemma_look_up_entry<V>(m: CacheModel<V>, key: Seq<u8>)
    requires
        m.wf(),
        m.contains(key),
    ensures
        ({
            let found = m.resident[m.index_of(key) as int];
            &&& m.look_up(key).entry(found.id) == Some(found.pinned())
            &&& m.look_up(key).resident.last() == found.pinned()
            &&& m.look_up(key).contains(key)
        }),
{
    let after = m.look_up(key);
    let i = m.index_of(key) as int;
    let found = m.resident[i];
    lemma_first_where(m.resident, with_key(key));
    let r2 = after.resident;
    assert(r2[r2.len() - 1] == found.pinned());
    assert(after.alive()[r2.len() - 1] == found.pinned());
    lemma_look_up_wf(m, key);
    lemma_entry_of(after, found.pinned());
    lemma_first_where(r2, with_key(key));
    if first_where(r2, with_key(key)) >= r2.len() {
        assert(!with_key::<V>(key)(r2[r2.len() - 1]));
    }
}

/// **Pinned entries outlive `erase`, out of reach.** After `erase(key)`,
/// `look_up` no longer finds `key`; an entry with a handle on it is still
/// alive, unchanged, and nothing was dropped if the entry of `key` was
/// pinned.
pub proof fn lemma_erase_keeps_pinned<V>(m: CacheModel<V>, key: Seq<u8>, e: Slot<V>)
    requires
        m.wf(),
        m.alive().contains(e),
        e.pins > 0,
    ensures
        !m.erase(key).contains(key),
        m.erase(key).alive().contains(e),
        m.erase(key).entry(e.id) == Some(e),
        e.key == key && m.resident.contains(e) ==> m.dropping(key).is_none()
            && m.erase(key).detached.contains(e),
{
    let after = m.erase(key);
    lemma_erase_unreachable(m, key);
    let all = m.alive();
    let n = m.resident.len() as int;
    let i = m.index_of(key) as int;
    let k = choose|k: int| 0 <= k < all.len() && all[k] == e;
    lemma_first_where(m.resident, with_key(key));
    let d2 = m.detaching(key);
    let base = m.without(key);
    if k >= n {
        assert(m.detached[k - n] == e);
        assert(d2[k - n] == e);
        assert(after.alive()[base.len() + (k - n)] == e);
    } else {
        assert(m.resident[k] == e);
        if m.contains(key) && k == i {
            assert(d2[m.detached.len() as int] == e);
            assert(after.alive()[(base.len() + m.detached.len()) as int] == e);
        } else if m.contains(key) {
            if k < i {
                assert(base[k] == e);
                assert(after.alive()[k] == e);
            } else {
                assert(base[k - 1] == e);
                assert(after.alive()[k - 1] == e);
            }
        } else {
            assert(after.alive()[k] == e);
        }
    }
    lemma_erase_wf(m, key);
    lemma_entry_of(after, e);
    if e.key == key && m.resident.contains(e) {
        let kk = choose|kk: int| 0 <= kk < m.resident.len() && m.resident[kk] == e;
        if kk != i {
            if i < kk {
                assert(m.resident[i].key != m.resident[kk].key);
            } else {
                assert(!with_key::<V>(key)(m.resident[kk]));
            }
        }
        assert(d2[m.detached.len() as int] == e);
    }
}

/// After `erase(key)`, `look_up` does not find `key`.
pub proof fn lemma_erase_unreachable<V>(m: CacheModel<V>, key: Seq<u8>)
    requires
        m.wf(),
    ensures
        !m.erase(key).contains(key),
        m.erase(key).look_up(key) == m.erase(key),
{
    lemma_without(m, key);
    let base = m.without(key);
    lemma_first_where(base, with_key(key));
    let f = first_where(base, with_key(key)) as int;
    if f < base.len() {
        assert(with_key::<V>(key)(base[f]));
    }
}

/// **The last release drops an erased entry.** Releasing the only handle
/// left on a detached entry takes the entry out of the cache and hands its
/// value out; releasing one of several leaves it alive with one pin less.
pub proof fn lemma_release_detached<V>(m: CacheModel<V>, e: Slot<V>)
    requires
        m.wf(),
        m.detached.contains(e),
    ensures
        e.pins == 1 ==> m.dropped_by_release(e.id) == Some(e.value) && m.release(e.id).entry(
            e.id,
        ).is_none(),
        e.pins > 1 ==> m.dropped_by_release(e.id).is_none() && m.release(e.id).entry(e.id)
            == Some(e.released()),
        m.release(e.id).resident == m.resident,
{
    let id = e.id;
    let d = m.detached;
    let k = choose|k: int| 0 <= k < d.len() && d[k] == e;
    lemma_first_where(m.resident, with_id(id));
    lemma_first_where(d, with_id(id));
    let i = first_where(m.resident, with_id(id)) as int;
    let j = first_where(d, with_id(id)) as int;
    if i < m.resident.len() {
        assert(m.resident[i].id != d[k].id);
    }
    if j > k {
        assert(!with_id::<V>(id)(d[k]));
    }
    if j < k {
        assert(d[j].id != d[k].id);
    }
    assert(j == k);
    let after = m.release(id);
    lemma_release_wf(m, id);
    if e.pins > 1 {
        assert(after.detached[k] == e.released());
        assert(after.alive()[after.resident.len() + k] == e.released());
        lemma_entry_of(after, e.released());
    } else {
        lemma_remove_keeps(d, k, m.resident, m.issued);
        assert forall|x: int| 0 <= x < after.alive().len() implies (#[trigger] after.alive()[x]).id
            != id by {
            if x < after.resident.len() {
                assert(after.alive()[x] == m.resident[x]);
                assert(m.resident[x].id != d[k].id);
            } else {
                assert(after.alive()[x] == after.detached[x - after.resident.len()]);
            }
        }
        lemma_entry_none(after, id);
    }
}

/// **Releasing a resident entry keeps it.** A release takes one pin off a
/// resident entry and leaves it where it was; nothing is dropped.
pub proof fn lemma_release_resident<V>(m: CacheModel<V>, e: Slot<V>)
    requires
        m.wf(),
        m.resident.contains(e),
        e.pins > 0,
    ensures
        m.dropped_by_release(e.id).is_none(),
        m.release(e.id).entry(e.id) == Some(e.released()),
        m.release(e.id).resident.len() == m.resident.len(),
        m.release(e.id).detached == m.detached,
{
    let id = e.id;
    let r = m.resident;
    let k = choose|k: int| 0 <= k < r.len() && r[k] == e;
    lemma_first_where(r, with_id(id));
    let i = first_where(r, with_id(id)) as int;
    if i > k {
        assert(!with_id::<V>(id)(r[k]));
    }
    if i < k {
        assert(r[i].id != r[k].id);
    }
    let after = m.release(id);
    lemma_release_wf(m, id);
    assert(after.resident[k] == e.released());
    assert(after.alive()[k] == e.released());
    lemma_entry_of(after, e.released());
}

/// **A release takes one pin off.** Releasing a handle on a pinned entry
/// leaves the entry with one pin less; where that was its last pin and the
/// entry was out of reach already, the entry is gone.
pub proof fn lemma_release_unpins<V>(m: CacheModel<V>, id: u64)
    requires
        m.wf(),
        m.pins(id) > 0,
    ensures
        m.release(id).pins(id) == m.pins(id) - 1,
{
    let all = m.alive();
    let n = m.resident.len() as int;
    lemma_first_where(all, with_id(id));
    let k = first_where(all, with_id(id)) as int;
    let e = all[k];
    assert(with_id::<V>(id)(e));
    if k < n {
        assert(m.resident[k] == e);
        lemma_release_resident(m, e);
    } else {
        assert(m.detached[k - n] == e);
        lemma_release_detached(m, e);
    }
}

/// The state after each of `keys` has been inserted in turn, with the value
/// of the same index and charge 1, and its handle released right away.
pub open spec fn filled<V>(m: CacheModel<V>, keys: Seq<Seq<u8>>, values: Seq<V>) -> CacheModel<V>
    recommends
        keys.len() == values.len(),
    decreases keys.len(),
{
    if keys.len() == 0 {
        m
    } else {
        let prev = filled(m, keys.drop_last(), values.drop_last());
        prev.insert(keys.last(), values.last(), 1).release(prev.issued as u64)
    }
}

/// The entries put out for want of room in the course of `filled`, in the
/// order in which they went.
pub open spec fn put_out<V>(m: CacheModel<V>, keys: Seq<Seq<u8>>, values: Seq<V>) -> Seq<Slot<V>>
    recommends
        keys.len() == values.len(),
    decreases keys.len(),
{
    if keys.len() == 0 {
        Seq::empty()
    } else {
        let prev = filled(m, keys.drop_last(), values.drop_last());
        put_out(m, keys.drop_last(), values.drop_last()) + prev.evicted(
            keys.last(),
            values.last(),
            1,
        )
    }
}

/// The entry of the `i`-th key once its handle is released.
pub open spec fn settled<V>(keys: Seq<Seq<u8>>, values: Seq<V>, i: int) -> Slot<V> {
    Slot { id: i as u64, key: keys[i], value: values[i], charge: 1, pins: 0 }
}

/// The entries of the keys from index `from` up to `to`, in order.
pub open spec fn window<V>(keys: Seq<Seq<u8>>, values: Seq<V>, from: int, to: int) -> Seq<
    Slot<V>,
> {
    Seq::new((to - from) as nat, |j: int| settled(keys, values, from + j))
}

/// The number of keys that do not fit: those beyond the capacity.
pub open spec fn overflow(n: nat, capacity: nat) -> int {
    if n > capacity {
        n - capacity
    } else {
        0
    }
}

proof fn lemma_total_charge_window<V>(keys: Seq<Seq<u8>>, values: Seq<V>, from: int, to: int)
    requires
        from <= to,
    ensures
        total_charge(window(keys, values, from, to)) == to - from,
    decreases to - from,
{
    if from < to {
        lemma_total_charge_window(keys, values, from, to - 1);
        assert(window(keys, values, from, to).drop_last() =~= window(keys, values, from, to - 1));
    }
}

/// What one more key makes of a cache that holds the last keys before it,
/// unpinned: the state right after the `insert`.
proof fn lemma_fill_insert<V>(prev: CacheModel<V>, keys: Seq<Seq<u8>>, values: Seq<V>, k: int)
    requires
        prev.capacity >= 1,
        0 <= k < keys.len(),
        k < u64::MAX,
        forall|i: int, j: int| 0 <= i < j < keys.len() ==> keys[i] != keys[j],
        prev.issued == k,
        prev.detached.len() == 0,
        prev.resident == window(keys, values, overflow(k as nat, prev.capacity), k),
    ensures
        ({
            let after = prev.insert(keys[k], values[k], 1);
            let a = overflow((k + 1) as nat, prev.capacity);
            &&& after.resident == window(keys, values, a, k).push(
                prev.fresh(keys[k], values[k], 1),
            )
            &&& after.detached == prev.detached
            &&& prev.evicted(keys[k], values[k], 1) == window(
                keys,
                values,
                overflow(k as nat, prev.capacity),
                a,
            )
        }),
{
    let capacity = prev.capacity;
    let a1 = overflow(k as nat, capacity);
    let a = overflow((k + 1) as nat, capacity);
    let r = prev.resident;
    let key = keys[k];
    let value = values[k];
    assert forall|j: int| 0 <= j < r.len() implies !with_key::<V>(key)(#[trigger] r[j]) by {
        assert(r[j].key == keys[a1 + j]);
    }
    lemma_first_where_is(r, with_key(key), r.len() as int);
    let e = prev.fresh(key, value, 1);
    let full = prev.admitted(key, value, 1);
    assert(full == r.push(e));
    lemma_total_charge_window::<V>(keys, values, a1, k);
    lemma_total_charge_push(r, e);
    if r.len() + 1 <= capacity {
        assert(shrink(full, capacity) == full);
        assert(shed(full, capacity) =~= window(keys, values, a1, a));
        assert(full =~= window(keys, values, a, k).push(e));
    } else {
        assert(unpinned::<V>()(full[0]));
        lemma_first_where_is(full, unpinned(), 0);
        let t = full.remove(0);
        lemma_total_charge_remove(full, 0);
        assert(shrink(t, capacity) == t);
        assert(shed(t, capacity) =~= Seq::<Slot<V>>::empty());
        assert(shed(full, capacity) == seq![full[0]] + shed(t, capacity));
        assert(shrink(full, capacity) == t);
        assert(seq![full[0]] + Seq::<Slot<V>>::empty() =~= window(keys, values, a1, a));
        assert(t =~= window(keys, values, a, k).push(e));
    }
}

/// What the release of the new key's handle makes of that state.
proof fn lemma_fill_release<V>(
    after: CacheModel<V>,
    keys: Seq<Seq<u8>>,
    values: Seq<V>,
    k: int,
    a: int,
    e: Slot<V>,
)
    requires
        0 <= a <= k < keys.len(),
        k < u64::MAX,
        keys.len() == values.len(),
        e == (Slot { id: k as u64, key: keys[k], value: values[k], charge: 1, pins: 1 }),
        after.resident == window(keys, values, a, k).push(e),
    ensures
        after.release(k as u64).resident == window(keys, values, a, k + 1),
        after.release(k as u64).detached == after.detached,
        after.release(k as u64).issued == after.issued,
        after.release(k as u64).capacity == after.capacity,
{
    let r2 = after.resident;
    let last = (r2.len() - 1) as int;
    assert(r2[last] == e);
    assert forall|j: int| 0 <= j < last implies !with_id::<V>(e.id)(#[trigger] r2[j]) by {
        assert(r2[j] == settled::<V>(keys, values, a + j));
    }
    lemma_first_where_is(r2, with_id(e.id), last);
    assert(after.release(k as u64).resident =~= window(keys, values, a, k + 1));
}

/// **Capacity.** Into an empty cache of capacity `C`, at least 1, put `N`
/// different keys with charge 1 each, releasing every handle at once. Then
/// the cache holds the last `C` of them (all, if `N` is no more than `C`),
/// least recently used first, and those put out are the first `N - C`, in
/// the order in which they were inserted.
pub proof fn lemma_capacity<V>(capacity: nat, keys: Seq<Seq<u8>>, values: Seq<V>)
    requires
        capacity >= 1,
        keys.len() == values.len(),
        keys.len() < u64::MAX,
        forall|i: int, j: int| 0 <= i < j < keys.len() ==> keys[i] != keys[j],
    ensures
        ({
            let n = keys.len();
            let end = filled(CacheModel::<V>::empty(capacity), keys, values);
            let gone = put_out(CacheModel::<V>::empty(capacity), keys, values);
            &&& end.wf()
            &&& end.capacity == capacity
            &&& end.issued == n
            &&& end.detached.len() == 0
            &&& end.resident == window(keys, values, overflow(n, capacity), n as int)
            &&& gone == window(keys, values, 0, overflow(n, capacity))
            &&& gone.len() == overflow(n, capacity)
        }),
    decreases keys.len(),
{
    let m0 = CacheModel::<V>::empty(capacity);
    let n = keys.len();
    if n == 0 {
        assert(m0.resident =~= window(keys, values, 0, 0));
        assert(put_out(m0, keys, values) =~= window(keys, values, 0, 0));
    } else {
        let k = (n - 1) as int;
        let keys1 = keys.drop_last();
        let values1 = values.drop_last();
        assert(keys1.len() == values1.len());
        lemma_capacity(capacity, keys1, values1);
        let prev = filled(m0, keys1, values1);
        let a1 = overflow(k as nat, capacity);
        let a = overflow(n, capacity);
        assert(prev.resident =~= window(keys, values, a1, k));
        assert(put_out(m0, keys1, values1) =~= window(keys, values, 0, a1));
        lemma_fill_insert(prev, keys, values, k);
        let after = prev.insert(keys[k], values[k], 1);
        lemma_fill_release(after, keys, values, k, a, prev.fresh(keys[k], values[k], 1));
        lemma_insert_wf(prev, keys[k], values[k], 1);
        lemma_release_wf(after, k as u64);
        assert(window(keys, values, 0, a1) + window(keys, values, a1, a) =~= window(
            keys,
            values,
            0,
            a,
        ));
    }
}

} // verus!
