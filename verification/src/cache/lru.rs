//! The cache itself: entries kept in order of use, found by their key,
//! pinned through handles, and put out least recently used first when the
//! charges go over the capacity.

use vstd::prelude::*;
use crate::cache::model::{
    first_where, lemma_erase_wf, lemma_first_where, lemma_first_where_is, lemma_insert_wf,
    lemma_look_up_wf, lemma_release_wf, lemma_total_charge_remove, shed, shrink, total_charge,
    unpinned, values_of, with_id, with_key, CacheModel, Slot,
};

verus! {

/// A pin on an entry of the cache. It is handed out by `look_up` and
/// `insert` and given back, once, to `release`.
#[derive(Debug)]
pub struct Handle {
    id: u64,
}

impl Handle {
    /// The number of the entry that the handle pins.
    pub closed spec fn id(&self) -> u64 {
        self.id
    }
}

struct Entry<V> {
    id: u64,
    key: Vec<u8>,
    value: V,
    charge: usize,
    pins: u64,
}

impl<V> Entry<V> {
    spec fn model(self) -> Slot<V> {
        Slot {
            id: self.id,
            key: self.key@,
            value: self.value,
            charge: self.charge as nat,
            pins: self.pins as nat,
        }
    }
}

spec fn models<V>(s: Seq<Entry<V>>) -> Seq<Slot<V>> {
    Seq::new(s.len(), |i: int| s[i].model())
}

/// A cache of values of type `V` under byte-string keys, bounded by the sum
/// of its entries' charges.
pub struct LRUCache<V> {
    capacity: usize,
    // least recently used first
    resident: Vec<Entry<V>>,
    // erased or replaced while pinned
    detached: Vec<Entry<V>>,
    next_id: u64,
}

impl<V> View for LRUCache<V> {
    type V = CacheModel<V>;

    closed spec fn view(&self) -> CacheModel<V> {
        CacheModel {
            capacity: self.capacity as nat,
            resident: models(self.resident@),
            detached: models(self.detached@),
            issued: self.next_id as nat,
        }
    }
}

fn bytes_eq(a: &[u8], b: &[u8]) -> (r: bool)
    ensures
        r == (a@ == b@),
{
    if a.len() != b.len() {
        return false;
    }
    let mut i: usize = 0;
    while i < a.len()
        invariant
            i <= a.len(),
            a.len() == b.len(),
            forall|j: int| 0 <= j < i ==> a@[j] == b@[j],
        decreases a.len() - i,
    {
        if a[i] != b[i] {
            return false;
        }
        i += 1;
    }
    assert(a@ =~= b@);
    true
}

fn find_key<V>(entries: &Vec<Entry<V>>, key: &[u8]) -> (i: usize)
    ensures
        i == first_where(models(entries@), with_key(key@)),
        i <= entries@.len(),
{
    let mut i: usize = 0;
    while i < entries.len()
        invariant
            i <= entries.len(),
            forall|j: int| 0 <= j < i ==> !with_key::<V>(key@)(#[trigger] models(entries@)[j]),
        decreases entries.len() - i,
    {
        if bytes_eq(entries[i].key.as_slice(), key) {
            proof {
                lemma_first_where_is(models(entries@), with_key(key@), i as int);
            }
            return i;
        }
        i += 1;
    }
    proof {
        lemma_first_where_is(models(entries@), with_key(key@), i as int);
    }
    i
}

fn find_id<V>(entries: &Vec<Entry<V>>, id: u64) -> (i: usize)
    ensures
        i == first_where(models(entries@), with_id(id)),
        i <= entries@.len(),
{
    let mut i: usize = 0;
    while i < entries.len()
        invariant
            i <= entries.len(),
            forall|j: int| 0 <= j < i ==> !with_id::<V>(id)(#[trigger] models(entries@)[j]),
        decreases entries.len() - i,
    {
        if entries[i].id == id {
            proof {
                lemma_first_where_is(models(entries@), with_id(id), i as int);
            }
            return i;
        }
        i += 1;
    }
    proof {
        lemma_first_where_is(models(entries@), with_id(id), i as int);
    }
    i
}

fn find_unpinned<V>(entries: &Vec<Entry<V>>) -> (i: usize)
    ensures
        i == first_where(models(entries@), unpinned()),
        i <= entries@.len(),
{
    let mut i: usize = 0;
    while i < entries.len()
        invariant
            i <= entries.len(),
            forall|j: int| 0 <= j < i ==> !unpinned::<V>()(#[trigger] models(entries@)[j]),
        decreases entries.len() - i,
    {
        if entries[i].pins == 0 {
            proof {
                lemma_first_where_is(models(entries@), unpinned(), i as int);
            }
            return i;
        }
        i += 1;
    }
    proof {
        lemma_first_where_is(models(entries@), unpinned(), i as int);
    }
    i
}

fn usage<V>(entries: &Vec<Entry<V>>) -> (sum: u128)
    ensures
        sum == total_charge(models(entries@)),
{
    let mut sum: u128 = 0;
    let mut i: usize = 0;
    assert(models(entries@).take(0) =~= Seq::<Slot<V>>::empty());
    while i < entries.len()
        invariant
            i <= entries.len(),
            sum == total_charge(models(entries@).take(i as int)),
            sum <= i * usize::MAX,
        decreases entries.len() - i,
    {
        proof {
            let m = models(entries@);
            assert(m.take(i + 1).drop_last() =~= m.take(i as int));
            assert(m.take(i + 1).last() == m[i as int]);
            assert((i + 1) * usize::MAX == i * usize::MAX + usize::MAX) by (nonlinear_arith);
            assert(i * usize::MAX <= usize::MAX * usize::MAX) by (nonlinear_arith)
                requires
                    i <= usize::MAX,
            ;
            assert(usize::MAX * usize::MAX + usize::MAX <= u128::MAX) by {
                assert(usize::MAX <= 0xffff_ffff_ffff_ffff);
                assert(usize::MAX * usize::MAX <= 0xffff_ffff_ffff_ffff * 0xffff_ffff_ffff_ffff)
                    by (nonlinear_arith)
                    requires
                        0 <= usize::MAX <= 0xffff_ffff_ffff_ffff,
                ;
            }
        }
        sum = sum + (entries[i].charge as u128);
        i += 1;
    }
    assert(models(entries@).take(i as int) =~= models(entries@));
    sum
}

impl<V> LRUCache<V> {
    /// The state is sound: see `CacheModel::wf`.
    pub open spec fn wf(&self) -> bool {
        self@.wf()
    }

    /// An empty cache that holds entries up to a total charge of `capacity`.
    pub fn new(capacity: usize) -> (c: Self)
        ensures
            c.wf(),
            c@ == CacheModel::<V>::empty(capacity as nat),
    {
        let c = LRUCache { capacity, resident: Vec::new(), detached: Vec::new(), next_id: 0 };
        assert(c@.resident =~= Seq::<Slot<V>>::empty());
        assert(c@.detached =~= Seq::<Slot<V>>::empty());
        c
    }

    /// The number of resident entries.
    pub fn len(&self) -> (n: usize)
        ensures
            n == self@.resident.len(),
    {
        self.resident.len()
    }

    /// Whether another handle can be handed out: the count of handles is a
    /// 64-bit number.
    pub fn handles_left(&self) -> (b: bool)
        ensures
            b == (self@.issued < u64::MAX),
    {
        self.next_id < u64::MAX
    }

    /// Looks `key` up. On a hit the entry becomes the most recently used
    /// and the handle returned pins it.
    pub fn look_up(&mut self, key: &[u8]) -> (r: Option<Handle>)
        requires
            old(self).wf(),
            old(self)@.issued < u64::MAX,
        ensures
            final(self).wf(),
            final(self)@ == old(self)@.look_up(key@),
            r.is_some() == old(self)@.contains(key@),
            r matches Some(h) ==> h.id() == old(self)@.resident[old(self)@.index_of(key@) as int].id,
    {
        proof {
            lemma_look_up_wf(self@, key@);
        }
        let i = find_key(&self.resident, key);
        if i < self.resident.len() {
            let ghost before = self.resident@;
            let mut e = self.resident.remove(i);
            let id = e.id;
            proof {
                assert(models(before)[i as int] == e.model());
            }
            e.pins = e.pins + 1;
            self.resident.push(e);
            self.next_id = self.next_id + 1;
            proof {
                assert(models(self.resident@) =~= models(before).remove(i as int).push(
                    models(before)[i as int].pinned(),
                ));
            }
            Some(Handle { id })
        } else {
            None
        }
    }

    /// Takes `key` out of the reach of `look_up`. Its entry leaves the
    /// cache at once if no handle pins it, and its value is returned; else
    /// it lives on until its last handle is released.
    pub fn erase(&mut self, key: &[u8]) -> (dropped: Option<V>)
        requires
            old(self).wf(),
        ensures
            final(self).wf(),
            final(self)@ == old(self)@.erase(key@),
            dropped == old(self)@.dropping(key@),
    {
        proof {
            lemma_erase_wf(self@, key@);
        }
        let i = find_key(&self.resident, key);
        if i < self.resident.len() {
            let ghost before = self.resident@;
            let ghost kept = self.detached@;
            let e = self.resident.remove(i);
            proof {
                assert(models(before)[i as int] == e.model());
                assert(models(self.resident@) =~= models(before).remove(i as int));
            }
            if e.pins > 0 {
                self.detached.push(e);
                proof {
                    assert(models(self.detached@) =~= models(kept).push(e.model()));
                }
                None
            } else {
                Some(e.value)
            }
        } else {
            None
        }
    }

    /// Puts `value` in the cache under `key`, in place of any entry that
    /// `key` had, as the most recently used entry, and returns a handle that
    /// pins it. If the charges then exceed the capacity, unpinned entries are
    /// put out, least recently used first, until they fit or only pinned
    /// entries are left. The values that left the cache are returned.
    pub fn insert(&mut self, key: Vec<u8>, value: V, charge: usize) -> (r: (Handle, Vec<V>))
        requires
            old(self).wf(),
            old(self)@.issued < u64::MAX,
        ensures
            final(self).wf(),
            final(self)@ == old(self)@.insert(key@, value, charge as nat),
            r.0.id() == old(self)@.issued,
            r.1@ == old(self)@.dropped_by_insert(key@, value, charge as nat),
    {
        proof {
            lemma_insert_wf(self@, key@, value, charge as nat);
        }
        let mut dropped: Vec<V> = Vec::new();
        let i = find_key(&self.resident, key.as_slice());
        let ghost start = self@;
        if i < self.resident.len() {
            let ghost before = self.resident@;
            let ghost kept = self.detached@;
            let e = self.resident.remove(i);
            proof {
                assert(models(before)[i as int] == e.model());
                assert(models(self.resident@) =~= models(before).remove(i as int));
            }
            if e.pins > 0 {
                self.detached.push(e);
                proof {
                    assert(models(self.detached@) =~= models(kept).push(e.model()));
                }
            } else {
                dropped.push(e.value);
            }
        }
        let ghost first: Seq<V> = dropped@;
        proof {
            assert(first =~= match start.dropping(key@) {
                Some(v) => seq![v],
                None => Seq::<V>::empty(),
            });
            assert(models(self.resident@) == start.without(key@));
            assert(models(self.detached@) == start.detaching(key@));
        }
        let id = self.next_id;
        let entry = Entry { id, key, value, charge, pins: 1 };
        self.resident.push(entry);
        self.next_id = self.next_id + 1;
        let ghost full = models(self.resident@);
        proof {
            assert(full =~= start.admitted(key@, value, charge as nat));
        }
        let mut used: u128 = usage(&self.resident);
        let ghost gone: Seq<Slot<V>> = Seq::empty();
        proof {
            assert(gone + shed(full, self.capacity as nat) =~= shed(full, self.capacity as nat));
            assert(first + values_of(gone) =~= first);
        }
        loop
            invariant_except_break
                used == total_charge(models(self.resident@)),
                shrink(models(self.resident@), self.capacity as nat) == shrink(
                    full,
                    self.capacity as nat,
                ),
                gone + shed(models(self.resident@), self.capacity as nat) == shed(
                    full,
                    self.capacity as nat,
                ),
                dropped@ == first + values_of(gone),
            invariant
                self.capacity == old(self).capacity,
                models(self.detached@) == start.detaching(key@),
                self.next_id == start.issued + 1,
            ensures
                models(self.resident@) == shrink(full, self.capacity as nat),
                dropped@ == first + values_of(shed(full, self.capacity as nat)),
            decreases self.resident@.len(),
        {
            let ghost now = models(self.resident@);
            if used <= self.capacity as u128 {
                proof {
                    assert(gone + Seq::<Slot<V>>::empty() =~= gone);
                }
                break ;
            }
            let j = find_unpinned(&self.resident);
            if j >= self.resident.len() {
                proof {
                    assert(gone + Seq::<Slot<V>>::empty() =~= gone);
                }
                break ;
            }
            let e = self.resident.remove(j);
            proof {
                assert(now[j as int] == e.model());
                assert(models(self.resident@) =~= now.remove(j as int));
                lemma_total_charge_remove(now, j as int);
                let after = shed(now.remove(j as int), self.capacity as nat);
                assert((gone + seq![now[j as int]]) + after =~= gone + (seq![now[j as int]]
                    + after));
                assert(values_of(gone + seq![now[j as int]]) =~= values_of(gone).push(e.value));
                assert(first + values_of(gone).push(e.value) =~= (first + values_of(gone)).push(
                    e.value,
                ));
                gone = gone + seq![now[j as int]];
            }
            used = used - (e.charge as u128);
            dropped.push(e.value);
        }
        (Handle { id }, dropped)
    }

    /// Gives a handle back. If it was the last one on an entry that is out
    /// of the reach of `look_up`, the entry leaves the cache and its value
    /// is returned.
    pub fn release(&mut self, handle: Handle) -> (dropped: Option<V>)
        requires
            old(self).wf(),
        ensures
            final(self).wf(),
            final(self)@ == old(self)@.release(handle.id()),
            dropped == old(self)@.dropped_by_release(handle.id()),
    {
        proof {
            lemma_release_wf(self@, handle.id());
        }
        let i = find_id(&self.resident, handle.id);
        if i < self.resident.len() {
            if self.resident[i].pins > 0 {
                let ghost before = self.resident@;
                let mut e = self.resident.remove(i);
                proof {
                    assert(models(before)[i as int] == e.model());
                }
                e.pins = e.pins - 1;
                self.resident.insert(i, e);
                proof {
                    assert(models(self.resident@) =~= models(before).update(
                        i as int,
                        models(before)[i as int].released(),
                    ));
                }
            }
            return None;
        }
        let j = find_id(&self.detached, handle.id);
        if j < self.detached.len() {
            let ghost before = self.detached@;
            let mut e = self.detached.remove(j);
            proof {
                assert(models(before)[j as int] == e.model());
            }
            if e.pins > 1 {
                e.pins = e.pins - 1;
                self.detached.insert(j, e);
                proof {
                    assert(models(self.detached@) =~= models(before).update(
                        j as int,
                        models(before)[j as int].released(),
                    ));
                }
                None
            } else {
                proof {
                    assert(models(self.detached@) =~= models(before).remove(j as int));
                }
                Some(e.value)
            }
        } else {
            None
        }
    }

    /// The value of the entry that `handle` pins.
    pub fn value(&self, handle: &Handle) -> (r: Option<&V>)
        ensures
            match self@.entry(handle.id()) {
                Some(e) => r == Some(&e.value),
                None => r.is_none(),
            },
    {
        let ghost all = self@.alive();
        proof {
            lemma_first_where(self@.resident, with_id(handle.id()));
            lemma_first_where(self@.detached, with_id(handle.id()));
        }
        let i = find_id(&self.resident, handle.id);
        if i < self.resident.len() {
            proof {
                assert forall|k: int| 0 <= k < i implies !with_id::<V>(handle.id())(
                    #[trigger] all[k],
                ) by {
                    assert(all[k] == self@.resident[k]);
                }
                assert(all[i as int] == self@.resident[i as int]);
                lemma_first_where_is(all, with_id(handle.id()), i as int);
            }
            return Some(&self.resident[i].value);
        }
        let j = find_id(&self.detached, handle.id);
        proof {
            let n = self@.resident.len() as int;
            assert forall|k: int| 0 <= k < n + j implies !with_id::<V>(handle.id())(
                #[trigger] all[k],
            ) by {
                if k < n {
                    assert(all[k] == self@.resident[k]);
                } else {
                    assert(all[k] == self@.detached[k - n]);
                }
            }
            if j < self.detached.len() {
                assert(all[n + j] == self@.detached[j as int]);
            }
            lemma_first_where_is(all, with_id(handle.id()), n + j);
        }
        if j < self.detached.len() {
            Some(&self.detached[j].value)
        } else {
            None
        }
    }
}

} // verus!
