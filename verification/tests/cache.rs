use std::cell::Cell;
use std::rc::Rc;
use wickdb::cache::lru::LRUCache;
use wickdb::db::format::{ParsedInternalKey, ValueType};
use wickdb::options::ReadOptions;
use wickdb::table_cache::{Storage, Table, TableCache};
use wickdb::util::coding::encode_varint64;
use wickdb::util::status::{Status, WickErr};

fn key(n: u64) -> Vec<u8> {
    encode_varint64(n)
}

// inserts and releases at once, and returns what was put out
fn put(cache: &mut LRUCache<u64>, n: u64) -> Vec<u64> {
    let (handle, dropped) = cache.insert(key(n), n * 100, 1);
    assert!(cache.release(handle).is_none());
    dropped
}

fn present(cache: &mut LRUCache<u64>, n: u64) -> bool {
    match cache.look_up(&key(n)) {
        Some(handle) => {
            assert_eq!(cache.value(&handle), Some(&(n * 100)));
            cache.release(handle);
            true
        }
        None => false,
    }
}

#[test]
fn third_insert_puts_out_the_first() {
    let mut cache: LRUCache<u64> = LRUCache::new(2);
    assert!(put(&mut cache, 1).is_empty());
    assert!(put(&mut cache, 2).is_empty());
    assert_eq!(put(&mut cache, 3), vec![100]);
    assert_eq!(cache.len(), 2);
    assert!(cache.look_up(&key(1)).is_none());
    assert!(present(&mut cache, 2));
    assert!(present(&mut cache, 3));
}

#[test]
fn entries_go_least_recently_used_first() {
    let capacity = 3;
    let n = 10;
    let mut cache: LRUCache<u64> = LRUCache::new(capacity);
    let mut gone = Vec::new();
    for i in 0..n {
        gone.extend(put(&mut cache, i));
    }
    assert_eq!(gone, vec![0, 100, 200, 300, 400, 500, 600]);
    assert_eq!(gone.len(), n as usize - capacity);
    assert_eq!(cache.len(), capacity);
    for i in 0..7 {
        assert!(!present(&mut cache, i));
    }
    for i in 7..10 {
        assert!(present(&mut cache, i));
    }
}

#[test]
fn look_up_makes_an_entry_the_most_recently_used() {
    let mut cache: LRUCache<u64> = LRUCache::new(2);
    put(&mut cache, 1);
    put(&mut cache, 2);
    assert!(present(&mut cache, 1));
    // 2 is now the least recently used
    assert_eq!(put(&mut cache, 3), vec![200]);
    assert!(present(&mut cache, 1));
    assert!(!present(&mut cache, 2));
    assert!(present(&mut cache, 3));
}

#[test]
fn pinned_entry_is_not_put_out() {
    let mut cache: LRUCache<u64> = LRUCache::new(2);
    let (h1, _) = cache.insert(key(1), 100, 1);
    put(&mut cache, 2);
    // 1 is the least recently used, and pinned: 2 goes
    assert_eq!(put(&mut cache, 3), vec![200]);
    assert_eq!(cache.value(&h1), Some(&100));
    assert!(cache.release(h1).is_none());
    assert!(present(&mut cache, 1));
    assert!(present(&mut cache, 3));
}

#[test]
fn pinned_entries_may_exceed_the_capacity() {
    let mut cache: LRUCache<u64> = LRUCache::new(1);
    let (h1, d1) = cache.insert(key(1), 100, 1);
    let (h2, d2) = cache.insert(key(2), 200, 1);
    let (h3, d3) = cache.insert(key(3), 300, 1);
    assert!(d1.is_empty() && d2.is_empty() && d3.is_empty());
    assert_eq!(cache.len(), 3);
    cache.release(h1);
    cache.release(h2);
    cache.release(h3);
    // the next insert brings the cache back within its capacity
    assert_eq!(put(&mut cache, 4), vec![100, 200, 300]);
    assert_eq!(cache.len(), 1);
}

#[test]
fn large_charge_puts_out_several() {
    let mut cache: LRUCache<u64> = LRUCache::new(10);
    for i in 0..10 {
        put(&mut cache, i);
    }
    let (h, dropped) = cache.insert(key(50), 5000, 4);
    assert_eq!(dropped, vec![0, 100, 200, 300]);
    cache.release(h);
    assert_eq!(cache.len(), 7);
}

#[test]
fn erased_entry_lives_until_its_last_release() {
    let mut cache: LRUCache<u64> = LRUCache::new(4);
    let (h1, _) = cache.insert(key(7), 700, 1);
    let h2 = cache.look_up(&key(7)).unwrap();
    // pinned: nothing leaves yet
    assert!(cache.erase(&key(7)).is_none());
    // out of reach at once
    assert!(cache.look_up(&key(7)).is_none());
    assert_eq!(cache.len(), 0);
    // the handles still serve the value
    assert_eq!(cache.value(&h1), Some(&700));
    assert_eq!(cache.value(&h2), Some(&700));
    assert!(cache.release(h1).is_none());
    assert_eq!(cache.value(&h2), Some(&700));
    // the last release hands the value out
    assert_eq!(cache.release(h2), Some(700));
}

#[test]
fn erasing_an_unpinned_entry_drops_it_at_once() {
    let mut cache: LRUCache<u64> = LRUCache::new(4);
    put(&mut cache, 1);
    put(&mut cache, 2);
    assert_eq!(cache.erase(&key(1)), Some(100));
    assert!(cache.erase(&key(1)).is_none());
    assert!(cache.erase(&key(9)).is_none());
    assert!(!present(&mut cache, 1));
    assert!(present(&mut cache, 2));
    assert_eq!(cache.len(), 1);
}

#[test]
fn insert_replaces_the_entry_of_its_key() {
    let mut cache: LRUCache<u64> = LRUCache::new(4);
    put(&mut cache, 1);
    let (h, dropped) = cache.insert(key(1), 111, 1);
    assert_eq!(dropped, vec![100]);
    assert_eq!(cache.value(&h), Some(&111));
    assert_eq!(cache.len(), 1);
    // replacing a pinned entry keeps the old value for its handle
    let (h2, dropped) = cache.insert(key(1), 222, 1);
    assert!(dropped.is_empty());
    assert_eq!(cache.value(&h), Some(&111));
    assert_eq!(cache.value(&h2), Some(&222));
    assert_eq!(cache.release(h), Some(111));
    assert!(cache.release(h2).is_none());
    let found = cache.look_up(&key(1)).unwrap();
    assert_eq!(cache.value(&found), Some(&222));
    cache.release(found);
}

#[test]
fn handle_of_another_cache_names_nothing() {
    let mut a: LRUCache<u64> = LRUCache::new(2);
    let mut b: LRUCache<u64> = LRUCache::new(2);
    let (h, _) = a.insert(key(1), 100, 1);
    assert!(b.value(&h).is_none());
    assert!(b.release(h).is_none());
    assert_eq!(b.len(), 0);
    assert_eq!(a.len(), 1);
}

struct MemTable {
    number: u64,
}

impl Table for MemTable {
    fn internal_get(
        &self,
        _options: &ReadOptions,
        key: &[u8],
    ) -> Result<Option<ParsedInternalKey>, WickErr> {
        if key == b"missing" {
            Ok(None)
        } else if key == b"broken" {
            Err(WickErr::new(Status::Corruption, Some("bad block")))
        } else {
            Ok(Some(ParsedInternalKey::new(key.to_vec(), self.number, ValueType::Value)))
        }
    }

    fn entry(
        &self,
        _options: &ReadOptions,
        index: usize,
    ) -> Result<Option<(Vec<u8>, Vec<u8>)>, WickErr> {
        if index < 3 {
            Ok(Some((vec![index as u8], vec![self.number as u8, index as u8])))
        } else {
            Ok(None)
        }
    }
}

struct MemStorage {
    opened: Rc<Cell<u32>>,
    last_name: Rc<Cell<u64>>,
}

impl Storage for MemStorage {
    type Table = MemTable;

    fn open_table(&self, file_name: &str, file_size: u64) -> Result<MemTable, WickErr> {
        if file_size == 0 {
            return Err(WickErr::new(Status::InvalidArgument, Some("empty table file")));
        }
        let stem = file_name
            .strip_prefix("testdb/")
            .and_then(|s| s.strip_suffix(".ldb"));
        match stem.and_then(|s| s.parse::<u64>().ok()) {
            Some(number) => {
                self.opened.set(self.opened.get() + 1);
                self.last_name.set(number);
                Ok(MemTable { number })
            }
            None => Err(WickErr::new(Status::NotFound, Some("no such table"))),
        }
    }
}

fn table_cache(size: usize) -> (TableCache<MemStorage>, Rc<Cell<u32>>) {
    let opened = Rc::new(Cell::new(0));
    let env = MemStorage { opened: opened.clone(), last_name: Rc::new(Cell::new(0)) };
    (TableCache::new(String::from("testdb"), env, size), opened)
}

#[test]
fn table_is_opened_once_and_found_again() {
    let (mut cache, opened) = table_cache(4);
    let h1 = cache.find_table(12, 1000).unwrap();
    assert_eq!(opened.get(), 1);
    let h2 = cache.find_table(12, 1000).unwrap();
    assert_eq!(opened.get(), 1);
    let it = cache.new_iter(ReadOptions::new(), 12, 1000);
    assert_eq!(opened.get(), 1);
    cache.close_iter(it);
    drop((h1, h2));
}

#[test]
fn table_cache_of_two_puts_out_the_first_of_three() {
    let (mut cache, opened) = table_cache(2);
    let options = ReadOptions::new();
    for n in [1u64, 2, 3] {
        let found = cache.get(&options, b"k", n, 10).unwrap().unwrap();
        assert_eq!(found.seq, n);
    }
    assert_eq!(opened.get(), 3);
    // 2 and 3 are still held
    cache.get(&options, b"k", 3, 10).unwrap();
    cache.get(&options, b"k", 2, 10).unwrap();
    assert_eq!(opened.get(), 3);
    // 1 was put out, and is opened anew
    cache.get(&options, b"k", 1, 10).unwrap();
    assert_eq!(opened.get(), 4);
}

#[test]
fn get_reports_what_the_table_finds() {
    let (mut cache, _) = table_cache(2);
    let options = ReadOptions::new();
    let found = cache.get(&options, b"apple", 9, 10).unwrap().unwrap();
    assert_eq!(found.user_key, b"apple".to_vec());
    assert_eq!(found.seq, 9);
    assert!(cache.get(&options, b"missing", 9, 10).unwrap().is_none());
    let e = cache.get(&options, b"broken", 9, 10).unwrap_err();
    assert_eq!(e.status(), Status::Corruption);
    // the table was released each time: evict drops it at once
    let (mut cache, opened) = table_cache(2);
    cache.get(&options, b"broken", 9, 10).unwrap_err();
    cache.evict(9);
    cache.get(&options, b"apple", 9, 10).unwrap();
    assert_eq!(opened.get(), 2);
}

#[test]
fn failure_to_open_leaves_no_entry() {
    let (mut cache, opened) = table_cache(2);
    let options = ReadOptions::new();
    let e = cache.get(&options, b"k", 5, 0).unwrap_err();
    assert_eq!(e.status(), Status::InvalidArgument);
    assert_eq!(e.to_string(), "WickDB error [InvalidArgumentError] : empty table file");
    assert!(cache.find_table(5, 0).is_err());
    assert_eq!(opened.get(), 0);
    // the next lookup tries again
    assert!(cache.get(&options, b"k", 5, 10).is_ok());
    assert_eq!(opened.get(), 1);
}

#[test]
fn install_takes_in_what_was_opened() {
    let (mut cache, opened) = table_cache(2);
    let h = cache.install(4, Ok(MemTable { number: 4 })).unwrap();
    drop(h);
    let options = ReadOptions::new();
    assert_eq!(cache.get(&options, b"k", 4, 10).unwrap().unwrap().seq, 4);
    assert_eq!(opened.get(), 0);
    let e = cache
        .install(6, Err(WickErr::new(Status::IOError, Some("read failed"))))
        .unwrap_err();
    assert_eq!(e.status(), Status::IOError);
    cache.get(&options, b"k", 6, 10).unwrap();
    assert_eq!(opened.get(), 1);
}

#[test]
fn file_name_is_made_of_the_database_and_the_number() {
    let opened = Rc::new(Cell::new(0));
    let last_name = Rc::new(Cell::new(0));
    let env = MemStorage { opened: opened.clone(), last_name: last_name.clone() };
    let mut cache = TableCache::new(String::from("testdb"), env, 2);
    cache.find_table(123_456_789, 10).unwrap();
    assert_eq!(last_name.get(), 123_456_789);
    // a storage that expects another directory finds nothing
    let env = MemStorage { opened: opened.clone(), last_name };
    let mut other = TableCache::new(String::from("elsewhere"), env, 2);
    let e = other.find_table(1, 10).unwrap_err();
    assert_eq!(e.status(), Status::NotFound);
}

#[test]
fn iterator_outlives_evict() {
    let (mut cache, opened) = table_cache(2);
    let mut it = cache.new_iter(ReadOptions::new(), 5, 10);
    assert_eq!(opened.get(), 1);
    assert_eq!(cache.next_entry(&mut it).unwrap(), Some((vec![0], vec![5, 0])));
    cache.evict(5);
    // the iterator goes on
    assert_eq!(cache.next_entry(&mut it).unwrap(), Some((vec![1], vec![5, 1])));
    assert_eq!(cache.next_entry(&mut it).unwrap(), Some((vec![2], vec![5, 2])));
    assert_eq!(cache.next_entry(&mut it).unwrap(), None);
    assert_eq!(cache.next_entry(&mut it).unwrap(), None);
    cache.close_iter(it);
    // the table is gone: it is opened anew
    let h = cache.find_table(5, 10).unwrap();
    assert_eq!(opened.get(), 2);
    drop(h);
}

#[test]
fn closing_an_iterator_releases_its_table() {
    let (mut cache, opened) = table_cache(1);
    let it = cache.new_iter(ReadOptions::new(), 1, 10);
    // 1 is pinned by the iterator: opening 2 cannot put it out
    let options = ReadOptions::new();
    cache.get(&options, b"k", 2, 10).unwrap();
    cache.get(&options, b"k", 1, 10).unwrap();
    assert_eq!(opened.get(), 2);
    cache.close_iter(it);
    // unpinned now: opening 3 puts out the least recently used
    cache.get(&options, b"k", 3, 10).unwrap();
    cache.get(&options, b"k", 3, 10).unwrap();
    assert_eq!(opened.get(), 3);
}

#[test]
fn iterator_without_a_table_reports_why() {
    let (mut cache, _) = table_cache(2);
    let mut it = cache.new_iter(ReadOptions::new(), 5, 0);
    let e = cache.next_entry(&mut it).unwrap_err();
    assert_eq!(e.status(), Status::InvalidArgument);
    assert_eq!(cache.next_entry(&mut it).unwrap(), None);
    cache.close_iter(it);
}

#[test]
fn evict_of_an_unknown_table_does_nothing() {
    let (mut cache, opened) = table_cache(2);
    cache.evict(77);
    let options = ReadOptions::new();
    cache.get(&options, b"k", 1, 10).unwrap();
    cache.evict(77);
    cache.get(&options, b"k", 1, 10).unwrap();
    assert_eq!(opened.get(), 1);
}

#[test]
fn new_caches_have_handles_left() {
    let mut cache: LRUCache<u64> = LRUCache::new(2);
    assert!(cache.handles_left());
    put(&mut cache, 1);
    assert!(cache.handles_left());
    let (tables, _) = table_cache(2);
    assert!(tables.handles_left());
}

#[test]
fn iterator_steps_by_one_on_each_entry() {
    let (mut cache, _) = table_cache(2);
    let mut it = cache.new_iter(ReadOptions::new(), 8, 10);
    assert_eq!(it.index(), 0);
    let mut keys = Vec::new();
    for place in 0..3 {
        assert_eq!(it.index(), place);
        let (key, value) = cache.next_entry(&mut it).unwrap().unwrap();
        assert_eq!(value, vec![8, place as u8]);
        keys.push(key);
    }
    // each entry once, in the table's order
    assert_eq!(keys, vec![vec![0], vec![1], vec![2]]);
    assert_eq!(it.index(), 3);
    // at the end the iterator stays
    assert_eq!(cache.next_entry(&mut it).unwrap(), None);
    assert_eq!(it.index(), 3);
    cache.close_iter(it);
}

#[test]
fn iterator_reads_with_the_callers_options() {
    let (mut cache, _) = table_cache(2);
    let options = ReadOptions { verify_checksums: true, fill_cache: false };
    let it = cache.new_iter(options, 8, 10);
    assert!(it.options().verify_checksums);
    assert!(!it.options().fill_cache);
    cache.close_iter(it);
}

#[test]
fn step_hands_on_what_the_table_gave() {
    let (mut cache, _) = table_cache(2);
    let mut it = cache.new_iter(ReadOptions::new(), 8, 10);
    let entry = (vec![1u8], vec![2u8]);
    assert_eq!(it.stepped(Ok(Some(entry.clone()))).unwrap(), Some(entry));
    assert_eq!(it.index(), 1);
    assert_eq!(it.stepped(Ok(None)).unwrap(), None);
    assert_eq!(it.index(), 1);
    let e = it
        .stepped(Err(WickErr::new(Status::Corruption, Some("bad block"))))
        .unwrap_err();
    assert_eq!(e.status(), Status::Corruption);
    assert_eq!(it.index(), 1);
    cache.close_iter(it);
}

#[test]
fn iterator_made_of_what_was_found() {
    let (mut cache, opened) = table_cache(2);
    let found = cache.find_table(3, 10);
    let mut it = wickdb::table_cache::TableIter::opened(found, ReadOptions::new());
    assert_eq!(it.index(), 0);
    assert_eq!(cache.next_entry(&mut it).unwrap(), Some((vec![0], vec![3, 0])));
    cache.close_iter(it);
    // the pin is gone: evict drops the table at once
    cache.evict(3);
    cache.get(&ReadOptions::new(), b"k", 3, 10).unwrap();
    assert_eq!(opened.get(), 2);
    let failure = Err(WickErr::new(Status::IOError, Some("read failed")));
    let mut it = wickdb::table_cache::TableIter::opened(failure, ReadOptions::new());
    let e = cache.next_entry(&mut it).unwrap_err();
    assert_eq!(e.status(), Status::IOError);
    assert_eq!(e.to_string(), "WickDB error [IOError] : read failed");
    assert_eq!(it.index(), 0);
    cache.close_iter(it);
}

#[test]
fn handle_of_find_table_can_be_given_back() {
    let (mut cache, opened) = table_cache(1);
    let handle = cache.find_table(1, 10).unwrap();
    // pinned: a second table cannot put it out
    cache.get(&ReadOptions::new(), b"k", 2, 10).unwrap();
    cache.get(&ReadOptions::new(), b"k", 1, 10).unwrap();
    assert_eq!(opened.get(), 2);
    cache.release(handle);
    // released: now it can
    cache.get(&ReadOptions::new(), b"k", 3, 10).unwrap();
    cache.get(&ReadOptions::new(), b"k", 1, 10).unwrap();
    assert_eq!(opened.get(), 4);
}

#[test]
fn lookup_hands_on_the_answer_and_releases() {
    let (mut cache, opened) = table_cache(2);
    let handle = cache.find_table(1, 10).unwrap();
    let answer = Ok(Some(ParsedInternalKey::new(b"a".to_vec(), 5, ValueType::Deletion)));
    let r = cache.answered(handle, answer).unwrap().unwrap();
    assert_eq!(r.user_key, b"a".to_vec());
    assert_eq!(r.seq, 5);
    assert_eq!(r.value_type, ValueType::Deletion);
    let handle = cache.find_table(1, 10).unwrap();
    let e = cache
        .answered(handle, Err(WickErr::new(Status::CompressionError, None)))
        .unwrap_err();
    assert_eq!(e.status(), Status::CompressionError);
    // both handles were released: evict drops the table at once
    cache.evict(1);
    cache.find_table(1, 10).unwrap();
    assert_eq!(opened.get(), 2);
}

#[test]
fn lookup_in_what_was_found() {
    let (mut cache, opened) = table_cache(2);
    let options = ReadOptions::new();
    let found = cache.find_table(4, 10);
    let r = cache.get_from(found, &options, b"pear").unwrap().unwrap();
    assert_eq!(r.user_key, b"pear".to_vec());
    assert_eq!(r.seq, 4);
    // a failure to find the table comes back as it was
    let found = cache.find_table(5, 0);
    let e = cache.get_from(found, &options, b"pear").unwrap_err();
    assert_eq!(e.status(), Status::InvalidArgument);
    assert_eq!(e.to_string(), "WickDB error [InvalidArgumentError] : empty table file");
    let e = cache
        .get_from(Err(WickErr::new_from_raw(Status::IOError, None, String::from("disk gone"))), &options, b"k")
        .unwrap_err();
    assert_eq!(e.to_string(), "WickDB error [IOError] , raw : disk gone");
    assert_eq!(opened.get(), 1);
}
