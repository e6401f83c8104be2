//! The cache as a mathematical object: its entries in order of use, those
//! that were erased while pinned, and what each operation makes of them.

use vstd::prelude::*;

verus! {

/// An entry of the cache.
pub struct Slot<V> {
    /// The number by which handles name the entry.
    pub id: u64,
    pub key: Seq<u8>,
    pub value: V,
    /// What the entry counts for against the capacity.
    pub charge: nat,
    /// The number of handles on the entry that are not yet released.
    pub pins: nat,
}

/// The state of a cache.
pub struct CacheModel<V> {
    pub capacity: nat,
    /// The entries that `look_up` finds, least recently used first.
    pub resident: Seq<Slot<V>>,
    /// The entries that were erased or replaced while pinned: out of reach
    /// of `look_up`, alive until their last handle is released.
    pub detached: Seq<Slot<V>>,
    /// The number of handles handed out so far.
    pub issued: nat,
}

/// The entries with key `key`.
pub open spec fn with_key<V>(key: Seq<u8>) -> spec_fn(Slot<V>) -> bool {
    |e: Slot<V>| e.key == key
}

/// The entry named `id`.
pub open spec fn with_id<V>(id: u64) -> spec_fn(Slot<V>) -> bool {
    |e: Slot<V>| e.id == id
}

/// The entries that no handle pins.
pub open spec fn unpinned<V>() -> spec_fn(Slot<V>) -> bool {
    |e: Slot<V>| e.pins == 0
}

/// The index of the first entry of `s` that meets `p`; the length of `s`
/// where none does.
pub open spec fn first_where<V>(s: Seq<Slot<V>>, p: spec_fn(Slot<V>) -> bool) -> nat
    decreases s.len(),
{
    if s.len() == 0 {
        0
    } else if p(s[0]) {
        0
    } else {
        1 + first_where(s.drop_first(), p)
    }
}

/// `first_where` is in range, points at an entry that meets `p`, and
/// passes over none that does.
pub proof fn lemma_first_where<V>(s: Seq<Slot<V>>, p: spec_fn(Slot<V>) -> bool)
    ensures
        first_where(s, p) <= s.len(),
        first_where(s, p) < s.len() ==> p(s[first_where(s, p) as int]),
        forall|j: int| 0 <= j < first_where(s, p) ==> !p(#[trigger] s[j]),
    decreases s.len(),
{
    if s.len() > 0 && !p(s[0]) {
        let t = s.drop_first();
        lemma_first_where(t, p);
        assert forall|j: int| 0 <= j < first_where(s, p) implies !p(#[trigger] s[j]) by {
            if j > 0 {
                assert(s[j] == t[j - 1]);
            }
        }
    }
}

/// The index that passes over no entry meeting `p`, and points at one that
/// does or at the end, is `first_where`.
pub proof fn lemma_first_where_is<V>(s: Seq<Slot<V>>, p: spec_fn(Slot<V>) -> bool, i: int)
    requires
        0 <= i <= s.len(),
        i < s.len() ==> p(s[i]),
        forall|j: int| 0 <= j < i ==> !p(#[trigger] s[j]),
    ensures
        first_where(s, p) == i,
{
    lemma_first_where(s, p);
    let f = first_where(s, p) as int;
    if f < i {
        assert(!p(s[f]));
    } else if i < f {
        assert(!p(s[i]));
    }
}

/// The sum of the entries' charges.
pub open spec fn total_charge<V>(s: Seq<Slot<V>>) -> nat
    decreases s.len(),
{
    if s.len() == 0 {
        0
    } else {
        total_charge(s.drop_last()) + s.last().charge
    }
}

/// Taking an entry out takes its charge off the sum.
pub proof fn lemma_total_charge_remove<V>(s: Seq<Slot<V>>, i: int)
    requires
        0 <= i < s.len(),
    ensures
        total_charge(s.remove(i)) + s[i].charge == total_charge(s),
    decreases s.len(),
{
    if i == s.len() - 1 {
        assert(s.remove(i) =~= s.drop_last());
    } else {
        lemma_total_charge_remove(s.drop_last(), i);
        assert(s.remove(i).drop_last() =~= s.drop_last().remove(i));
        assert(s.remove(i).last() == s.last());
    }
}

/// Adding an entry at the end adds its charge to the sum.
pub proof fn lemma_total_charge_push<V>(s: Seq<Slot<V>>, e: Slot<V>)
    ensures
        total_charge(s.push(e)) == total_charge(s) + e.charge,
{
    assert(s.push(e).drop_last() =~= s);
}

/// What is left of `s` once the least recently used unpinned entries have
/// gone, one by one, until the charges fit the capacity or every entry left
/// is pinned.
pub open spec fn shrink<V>(s: Seq<Slot<V>>, capacity: nat) -> Seq<Slot<V>>
    decreases s.len(),
{
    let i = first_where(s, unpinned());
    if total_charge(s) <= capacity || i >= s.len() {
        s
    } else {
        shrink(s.remove(i as int), capacity)
    }
}

/// The entries that `shrink` takes out, in the order in which they go.
pub open spec fn shed<V>(s: Seq<Slot<V>>, capacity: nat) -> Seq<Slot<V>>
    decreases s.len(),
{
    let i = first_where(s, unpinned());
    if total_charge(s) <= capacity || i >= s.len() {
        Seq::empty()
    } else {
        seq![s[i as int]] + shed(s.remove(i as int), capacity)
    }
}

/// The values of some entries.
pub open spec fn values_of<V>(s: Seq<Slot<V>>) -> Seq<V> {
    Seq::new(s.len(), |i: int| s[i].value)
}

/// No two entries have the same key.
pub open spec fn distinct_keys<V>(s: Seq<Slot<V>>) -> bool {
    forall|i: int, j: int| 0 <= i < j < s.len() ==> s[i].key != s[j].key
}

/// No two entries have the same number.
pub open spec fn distinct_ids<V>(s: Seq<Slot<V>>) -> bool {
    forall|i: int, j: int| 0 <= i < j < s.len() ==> s[i].id != s[j].id
}

/// No entry of `a` has the number of an entry of `b`.
pub open spec fn disjoint_ids<V>(a: Seq<Slot<V>>, b: Seq<Slot<V>>) -> bool {
    forall|i: int, j: int| 0 <= i < a.len() && 0 <= j < b.len() ==> a[i].id != b[j].id
}

/// Every entry's number is below `issued`, and its pin count is at most
/// `issued`.
pub open spec fn bounded<V>(s: Seq<Slot<V>>, issued: nat) -> bool {
    forall|i: int| 0 <= i < s.len() ==> (#[trigger] s[i]).id < issued && s[i].pins <= issued
}

/// Every entry is pinned.
pub open spec fn all_pinned<V>(s: Seq<Slot<V>>) -> bool {
    forall|i: int| 0 <= i < s.len() ==> (#[trigger] s[i]).pins > 0
}

/// What holds of all entries, or of any two, still holds when one is taken
/// out.
pub proof fn lemma_remove_keeps<V>(s: Seq<Slot<V>>, i: int, other: Seq<Slot<V>>, issued: nat)
    requires
        0 <= i < s.len(),
    ensures
        distinct_keys(s) ==> distinct_keys(s.remove(i)),
        distinct_ids(s) ==> distinct_ids(s.remove(i)),
        bounded(s, issued) ==> bounded(s.remove(i), issued),
        all_pinned(s) ==> all_pinned(s.remove(i)),
        disjoint_ids(s, other) ==> disjoint_ids(s.remove(i), other),
        disjoint_ids(other, s) ==> disjoint_ids(other, s.remove(i)),
        distinct_keys(s) ==> forall|k: int|
            0 <= k < s.remove(i).len() ==> (#[trigger] s.remove(i)[k]).key != s[i].key,
        distinct_ids(s) ==> forall|k: int|
            0 <= k < s.remove(i).len() ==> (#[trigger] s.remove(i)[k]).id != s[i].id,
{
    let t = s.remove(i);
    assert forall|k: int| 0 <= k < t.len() implies #[trigger] t[k] == s[if k < i {
        k
    } else {
        k + 1
    }] by {}
    if distinct_keys(s) {
        assert forall|a: int, b: int| 0 <= a < b < t.len() implies t[a].key != t[b].key by {
            let a2 = if a < i { a } else { a + 1 };
            let b2 = if b < i { b } else { b + 1 };
            assert(t[a] == s[a2] && t[b] == s[b2]);
        }
        assert forall|k: int| 0 <= k < t.len() implies (#[trigger] t[k]).key != s[i].key by {
            let k2 = if k < i { k } else { k + 1 };
            assert(t[k] == s[k2]);
        }
    }
    if distinct_ids(s) {
        assert forall|a: int, b: int| 0 <= a < b < t.len() implies t[a].id != t[b].id by {
            let a2 = if a < i { a } else { a + 1 };
            let b2 = if b < i { b } else { b + 1 };
            assert(t[a] == s[a2] && t[b] == s[b2]);
        }
        assert forall|k: int| 0 <= k < t.len() implies (#[trigger] t[k]).id != s[i].id by {
            let k2 = if k < i { k } else { k + 1 };
            assert(t[k] == s[k2]);
        }
    }
    if bounded(s, issued) {
        assert forall|k: int| 0 <= k < t.len() implies (#[trigger] t[k]).id < issued
            && t[k].pins <= issued by {
            let k2 = if k < i { k } else { k + 1 };
            assert(t[k] == s[k2]);
        }
    }
    if all_pinned(s) {
        assert forall|k: int| 0 <= k < t.len() implies (#[trigger] t[k]).pins > 0 by {
            let k2 = if k < i { k } else { k + 1 };
            assert(t[k] == s[k2]);
        }
    }
    if disjoint_ids(s, other) {
        assert forall|a: int, b: int| 0 <= a < t.len() && 0 <= b < other.len() implies t[a].id
            != other[b].id by {
            let a2 = if a < i { a } else { a + 1 };
            assert(t[a] == s[a2]);
        }
    }
    if disjoint_ids(other, s) {
        assert forall|a: int, b: int| 0 <= a < other.len() && 0 <= b < t.len() implies other[a].id
            != t[b].id by {
            let b2 = if b < i { b } else { b + 1 };
            assert(t[b] == s[b2]);
        }
    }
}

/// Putting out entries for want of room takes out unpinned entries only,
/// keeps the order of the rest, and ends with the charges within the
/// capacity or with pinned entries alone.
pub proof fn lemma_shrink<V>(s: Seq<Slot<V>>, capacity: nat, other: Seq<Slot<V>>, issued: nat)
    ensures
        distinct_keys(s) ==> distinct_keys(shrink(s, capacity)),
        distinct_ids(s) ==> distinct_ids(shrink(s, capacity)),
        bounded(s, issued) ==> bounded(shrink(s, capacity), issued),
        disjoint_ids(s, other) ==> disjoint_ids(shrink(s, capacity), other),
        total_charge(shrink(s, capacity)) <= capacity || all_pinned(shrink(s, capacity)),
        shrink(s, capacity).len() + shed(s, capacity).len() == s.len(),
        all_unpinned(shed(s, capacity)),
        total_charge(shrink(s, capacity)) + total_charge(shed(s, capacity)) == total_charge(s),
    decreases s.len(),
{
    let i = first_where(s, unpinned());
    lemma_first_where(s, unpinned());
    if total_charge(s) <= capacity {
    } else if i >= s.len() {
        assert forall|k: int| 0 <= k < s.len() implies (#[trigger] s[k]).pins > 0 by {
            assert(!unpinned::<V>()(s[k]));
        }
    } else {
        let t = s.remove(i as int);
        lemma_remove_keeps(s, i as int, other, issued);
        lemma_shrink(t, capacity, other, issued);
        lemma_total_charge_remove(s, i as int);
        let rest = shed(t, capacity);
        let gone = seq![s[i as int]] + rest;
        assert forall|k: int| 0 <= k < gone.len() implies (#[trigger] gone[k]).pins == 0 by {
            if k > 0 {
                assert(gone[k] == rest[k - 1]);
            }
        }
        lemma_total_charge_concat(seq![s[i as int]], rest);
        lemma_total_charge_push(Seq::<Slot<V>>::empty(), s[i as int]);
        assert(Seq::<Slot<V>>::empty().push(s[i as int]) =~= seq![s[i as int]]);
        assert(shed(s, capacity) == gone);
        assert(shrink(s, capacity) == shrink(t, capacity));
    }
}

/// No entry is pinned.
pub open spec fn all_unpinned<V>(s: Seq<Slot<V>>) -> bool {
    forall|i: int| 0 <= i < s.len() ==> (#[trigger] s[i]).pins == 0
}

/// The charges of two runs of entries add up.
pub proof fn lemma_total_charge_concat<V>(a: Seq<Slot<V>>, b: Seq<Slot<V>>)
    ensures
        total_charge(a + b) == total_charge(a) + total_charge(b),
    decreases b.len(),
{
    if b.len() == 0 {
        assert(a + b =~= a);
    } else {
        lemma_total_charge_concat(a, b.drop_last());
        assert((a + b).drop_last() =~= a + b.drop_last());
        assert((a + b).last() == b.last());
    }
}

impl<V> Slot<V> {
    /// The entry with one handle more on it.
    pub open spec fn pinned(self) -> Slot<V> {
        Slot { pins: self.pins + 1, ..self }
    }

    /// The entry with one handle less on it.
    pub open spec fn released(self) -> Slot<V> {
        Slot { pins: (self.pins - 1) as nat, ..self }
    }
}

impl<V> CacheModel<V> {
    /// An empty cache.
    pub open spec fn empty(capacity: nat) -> Self {
        CacheModel { capacity, resident: Seq::empty(), detached: Seq::empty(), issued: 0 }
    }

    /// All entries that are alive, resident or not.
    pub open spec fn alive(self) -> Seq<Slot<V>> {
        self.resident + self.detached
    }

    /// No key is resident twice, no number names two entries, every number
    /// and pin count is below the count of handles handed out, and what is
    /// detached is pinned.
    pub open spec fn wf(self) -> bool {
        &&& distinct_keys(self.resident)
        &&& distinct_ids(self.resident)
        &&& distinct_ids(self.detached)
        &&& disjoint_ids(self.resident, self.detached)
        &&& bounded(self.resident, self.issued)
        &&& bounded(self.detached, self.issued)
        &&& all_pinned(self.detached)
    }

    /// Where `key` is resident; the number of resident entries if it is not.
    pub open spec fn index_of(self, key: Seq<u8>) -> nat {
        first_where(self.resident, with_key(key))
    }

    /// Whether `look_up` finds `key`.
    pub open spec fn contains(self, key: Seq<u8>) -> bool {
        self.index_of(key) < self.resident.len()
    }

    /// The state after `look_up(key)`: on a hit the entry is the most
    /// recently used and carries one pin more.
    pub open spec fn look_up(self, key: Seq<u8>) -> Self {
        let i = self.index_of(key) as int;
        if self.contains(key) {
            CacheModel {
                resident: self.resident.remove(i).push(self.resident[i].pinned()),
                issued: self.issued + 1,
                ..self
            }
        } else {
            self
        }
    }

    /// The resident entries once `key` has left them.
    pub open spec fn without(self, key: Seq<u8>) -> Seq<Slot<V>> {
        if self.contains(key) {
            self.resident.remove(self.index_of(key) as int)
        } else {
            self.resident
        }
    }

    /// The detached entries once the resident entry of `key`, if it is
    /// pinned, has joined them.
    pub open spec fn detaching(self, key: Seq<u8>) -> Seq<Slot<V>> {
        let i = self.index_of(key) as int;
        if self.contains(key) && self.resident[i].pins > 0 {
            self.detached.push(self.resident[i])
        } else {
            self.detached
        }
    }

    /// The value that leaves the cache at once when `key` is erased or
    /// replaced: that of its resident entry, if no handle pins it.
    pub open spec fn dropping(self, key: Seq<u8>) -> Option<V> {
        let i = self.index_of(key) as int;
        if self.contains(key) && self.resident[i].pins == 0 {
            Some(self.resident[i].value)
        } else {
            None
        }
    }

    /// The state after `erase(key)`.
    pub open spec fn erase(self, key: Seq<u8>) -> Self {
        CacheModel { resident: self.without(key), detached: self.detaching(key), ..self }
    }

    /// The entry that `insert` makes.
    pub open spec fn fresh(self, key: Seq<u8>, value: V, charge: nat) -> Slot<V> {
        Slot { id: self.issued as u64, key, value, charge, pins: 1 }
    }

    /// The resident entries right after a new entry has come in, before any
    /// is put out for want of room.
    pub open spec fn admitted(self, key: Seq<u8>, value: V, charge: nat) -> Seq<Slot<V>> {
        self.without(key).push(self.fresh(key, value, charge))
    }

    /// The state after `insert(key, value, charge)`.
    pub open spec fn insert(self, key: Seq<u8>, value: V, charge: nat) -> Self {
        CacheModel {
            resident: shrink(self.admitted(key, value, charge), self.capacity),
            detached: self.detaching(key),
            issued: self.issued + 1,
            ..self
        }
    }

    /// The entries that `insert(key, value, charge)` puts out for want of
    /// room, least recently used first.
    pub open spec fn evicted(self, key: Seq<u8>, value: V, charge: nat) -> Seq<Slot<V>> {
        shed(self.admitted(key, value, charge), self.capacity)
    }

    /// The values that leave the cache in `insert(key, value, charge)`: that
    /// of the entry replaced, if it was not pinned, then those put out for
    /// want of room.
    pub open spec fn dropped_by_insert(self, key: Seq<u8>, value: V, charge: nat) -> Seq<V> {
        let gone = values_of(self.evicted(key, value, charge));
        match self.dropping(key) {
            Some(v) => seq![v] + gone,
            None => gone,
        }
    }

    /// The state after the handle `id` is released.
    pub open spec fn release(self, id: u64) -> Self {
        let i = first_where(self.resident, with_id(id)) as int;
        let j = first_where(self.detached, with_id(id)) as int;
        if i < self.resident.len() {
            if self.resident[i].pins > 0 {
                CacheModel {
                    resident: self.resident.update(i, self.resident[i].released()),
                    ..self
                }
            } else {
                self
            }
        } else if j < self.detached.len() {
            if self.detached[j].pins > 1 {
                CacheModel {
                    detached: self.detached.update(j, self.detached[j].released()),
                    ..self
                }
            } else {
                CacheModel { detached: self.detached.remove(j), ..self }
            }
        } else {
            self
        }
    }

    /// The value that leaves the cache when the handle `id` is released: that
    /// of a detached entry whose last handle it is.
    pub open spec fn dropped_by_release(self, id: u64) -> Option<V> {
        let i = first_where(self.resident, with_id(id)) as int;
        let j = first_where(self.detached, with_id(id)) as int;
        if i >= self.resident.len() && j < self.detached.len() && self.detached[j].pins <= 1 {
            Some(self.detached[j].value)
        } else {
            None
        }
    }

    /// The entry named `id`, if it is alive.
    pub open spec fn entry(self, id: u64) -> Option<Slot<V>> {
        let k = first_where(self.alive(), with_id(id)) as int;
        if k < self.alive().len() {
            Some(self.alive()[k])
        } else {
            None
        }
    }

    /// The number of pins on the entry named `id`; none where it is gone.
    pub open spec fn pins(self, id: u64) -> nat {
        match self.entry(id) {
            Some(e) => e.pins,
            None => 0,
        }
    }
}

/// What holds of a sound state's resident entries still holds once `key`
/// has left them, and its pinned entry fits among the detached.
pub proof fn lemma_without<V>(m: CacheModel<V>, key: Seq<u8>)
    requires
        m.wf(),
    ensures
        distinct_keys(m.without(key)),
        distinct_ids(m.without(key)),
        bounded(m.without(key), m.issued),
        distinct_ids(m.detaching(key)),
        bounded(m.detaching(key), m.issued),
        all_pinned(m.detaching(key)),
        disjoint_ids(m.without(key), m.detaching(key)),
        forall|k: int| 0 <= k < m.without(key).len() ==> (#[trigger] m.without(key)[k]).key != key,
{
    let r = m.resident;
    let d = m.detached;
    let i = m.index_of(key) as int;
    lemma_first_where(r, with_key(key));
    if m.contains(key) {
        lemma_remove_keeps(r, i, d, m.issued);
        let t = r.remove(i);
        if r[i].pins > 0 {
            let d2 = d.push(r[i]);
            assert forall|a: int, b: int| 0 <= a < t.len() && 0 <= b < d2.len() implies t[a].id
                != d2[b].id by {
                if b < d.len() {
                    assert(d2[b] == d[b]);
                }
            }
        }
    } else {
        assert forall|k: int| 0 <= k < r.len() implies (#[trigger] r[k]).key != key by {
            assert(!with_key::<V>(key)(r[k]));
        }
    }
}

/// `look_up` keeps a sound state sound.
pub proof fn lemma_look_up_wf<V>(m: CacheModel<V>, key: Seq<u8>)
    requires
        m.wf(),
    ensures
        m.look_up(key).wf(),
{
    let r = m.resident;
    let i = m.index_of(key) as int;
    lemma_first_where(r, with_key(key));
    if m.contains(key) {
        lemma_remove_keeps(r, i, m.detached, m.issued);
        let t = r.remove(i);
        let r2 = t.push(r[i].pinned());
        assert forall|a: int, b: int| 0 <= a < r2.len() && 0 <= b < m.detached.len() implies r2[a].id
            != m.detached[b].id by {
            if a < t.len() {
                assert(r2[a] == t[a]);
            }
        }
        assert forall|a: int| 0 <= a < r2.len() implies (#[trigger] r2[a]).id < m.issued + 1
            && r2[a].pins <= m.issued + 1 by {
            if a < t.len() {
                assert(r2[a] == t[a]);
            }
        }
    }
}

/// `erase` keeps a sound state sound.
pub proof fn lemma_erase_wf<V>(m: CacheModel<V>, key: Seq<u8>)
    requires
        m.wf(),
    ensures
        m.erase(key).wf(),
{
    lemma_without(m, key);
}

/// `insert` keeps a sound state sound, and leaves the charges within the
/// capacity unless every resident entry is pinned.
pub proof fn lemma_insert_wf<V>(m: CacheModel<V>, key: Seq<u8>, value: V, charge: nat)
    requires
        m.wf(),
        m.issued < u64::MAX,
    ensures
        m.insert(key, value, charge).wf(),
        total_charge(m.insert(key, value, charge).resident) <= m.capacity || all_pinned(
            m.insert(key, value, charge).resident,
        ),
{
    lemma_without(m, key);
    let base = m.without(key);
    let e = m.fresh(key, value, charge);
    let full = base.push(e);
    let d2 = m.detaching(key);
    assert(distinct_keys(full));
    assert(distinct_ids(full));
    assert(bounded(full, m.issued + 1)) by {
        assert forall|a: int| 0 <= a < full.len() implies (#[trigger] full[a]).id < m.issued + 1
            && full[a].pins <= m.issued + 1 by {
            if a < base.len() {
                assert(full[a] == base[a]);
            }
        }
    }
    assert(disjoint_ids(full, d2)) by {
        assert forall|a: int, b: int| 0 <= a < full.len() && 0 <= b < d2.len() implies full[a].id
            != d2[b].id by {
            if a < base.len() {
                assert(full[a] == base[a]);
            }
        }
    }
    lemma_shrink(full, m.capacity, d2, m.issued + 1);
}

/// `release` keeps a sound state sound.
pub proof fn lemma_release_wf<V>(m: CacheModel<V>, id: u64)
    requires
        m.wf(),
    ensures
        m.release(id).wf(),
{
    let i = first_where(m.resident, with_id(id)) as int;
    let j = first_where(m.detached, with_id(id)) as int;
    lemma_first_where(m.resident, with_id(id));
    lemma_first_where(m.detached, with_id(id));
    if i < m.resident.len() {
    } else if j < m.detached.len() {
        if m.detached[j].pins <= 1 {
            lemma_remove_keeps(m.detached, j, m.resident, m.issued);
        }
    }
}

} // verus!
