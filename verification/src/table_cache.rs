//! The cache of opened tables: each table file is opened once, kept under
//! its file number, and pinned while a lookup or an iterator uses it.

use vstd::prelude::*;
use crate::cache::laws::{lemma_insert_entry, lemma_look_up_entry, lemma_release_unpins};
use crate::cache::lru::{Handle, LRUCache};
use crate::cache::model::CacheModel;
use crate::db::filename::{file_name, generate_filename, FileType};
use crate::db::format::ParsedInternalKey;
use crate::options::ReadOptions;
use crate::util::coding::{encode_varint64, varint64};
use crate::util::status::WickErr;

verus! {

/// An opened table, as far as the cache of tables uses it.
pub trait Table {
    /// Seeks `key` in the table.
    fn internal_get(&self, options: &ReadOptions, key: &[u8]) -> Result<
        Option<ParsedInternalKey>,
        WickErr,
    >;

    /// The entry at place `index` in the table's order, key and value;
    /// nothing beyond the last entry.
    fn entry(&self, options: &ReadOptions, index: usize) -> Result<
        Option<(Vec<u8>, Vec<u8>)>,
        WickErr,
    >;
}

/// Whether `name` is the name of a table file of some database.
pub open spec fn is_table_file_name(name: Seq<char>) -> bool {
    exists|db_name: Seq<char>, number: u64|
        name == #[trigger] file_name(db_name, FileType::Table, number)
}

/// Where the table files are kept.
pub trait Storage {
    type Table: Table;

    /// Opens the table in the file `file_name`, whose length is `file_size`.
    /// The cache asks for table files only, by the names that
    /// `generate_filename` gives them.
    fn open_table(&self, file_name: &str, file_size: u64) -> Result<Self::Table, WickErr>
        requires
            is_table_file_name(file_name@),
    ;
}

/// The key under which the table with number `file_number` is cached.
pub open spec fn table_key(file_number: u64) -> Seq<u8> {
    varint64(file_number)
}

/// A cursor over the entries of a cached table. It pins the table from
/// `new_iter` until it is handed to `close_iter`.
pub struct TableIter {
    handle: Option<Handle>,
    err: Option<WickErr>,
    index: usize,
    options: ReadOptions,
}

impl TableIter {
    /// The number of the cache entry that the iterator pins, if any.
    pub closed spec fn pinned(&self) -> Option<u64> {
        match self.handle {
            Some(h) => Some(h.id()),
            None => None,
        }
    }

    /// The error that the iterator has yet to report.
    pub closed spec fn failed(&self) -> Option<WickErr> {
        self.err
    }

    /// The place of the entry that comes next.
    pub closed spec fn position(&self) -> nat {
        self.index as nat
    }

    /// The choices with which the iterator reads.
    pub closed spec fn read_options(&self) -> ReadOptions {
        self.options
    }

    /// An iterator at the start of the table that `found` pins, reading
    /// with `options`; where `found` is a failure, an iterator with no
    /// table, which has that failure to report.
    pub fn opened(found: Result<Handle, WickErr>, options: ReadOptions) -> (it: TableIter)
        ensures
            it.position() == 0,
            it.read_options() == options,
            match found {
                Ok(handle) => it.pinned() == Some(handle.id()) && it.failed().is_none(),
                Err(e) => it.pinned().is_none() && it.failed() == Some(e),
            },
    {
        match found {
            Ok(handle) => TableIter { handle: Some(handle), err: None, index: 0, options },
            Err(e) => TableIter { handle: None, err: Some(e), index: 0, options },
        }
    }

    /// The place of the entry that comes next.
    pub fn index(&self) -> (i: usize)
        ensures
            i == self.position(),
    {
        self.index
    }

    /// The choices with which the iterator reads.
    pub fn options(&self) -> (o: &ReadOptions)
        ensures
            *o == self.read_options(),
    {
        &self.options
    }

    /// Takes in what the table gave for the place where the iterator
    /// stands, and hands it on unchanged. On an entry the iterator moves
    /// to the next place; at the table's end and on a failure it stays.
    pub fn stepped(&mut self, found: Result<Option<(Vec<u8>, Vec<u8>)>, WickErr>) -> (r: Result<
        Option<(Vec<u8>, Vec<u8>)>,
        WickErr,
    >)
        ensures
            r == found,
            final(self).pinned() == old(self).pinned(),
            final(self).failed() == old(self).failed(),
            final(self).read_options() == old(self).read_options(),
            found matches Ok(Some(_)) && old(self).position() < usize::MAX
                ==> final(self).position() == old(self).position() + 1,
            !(found matches Ok(Some(_))) || old(self).position() == usize::MAX
                ==> final(self).position() == old(self).position(),
    {
        match &found {
            Ok(Some(_)) => {
                if self.index < usize::MAX {
                    self.index = self.index + 1;
                }
            },
            _ => {},
        }
        found
    }
}

/// The cache of the tables of one database.
pub struct TableCache<S: Storage> {
    env: S,
    db_name: String,
    // keyed by the table's file number
    cache: LRUCache<S::Table>,
}

impl<S: Storage> View for TableCache<S> {
    type V = CacheModel<S::Table>;

    closed spec fn view(&self) -> CacheModel<S::Table> {
        self.cache@
    }
}

impl<S: Storage> TableCache<S> {
    /// The state of the cache is sound.
    pub open spec fn wf(&self) -> bool {
        self@.wf()
    }

    /// The directory of the database.
    pub closed spec fn db_name(&self) -> Seq<char> {
        self.db_name@
    }

    /// A cache for up to `size` opened tables of the database `db_name`,
    /// whose files `env` opens.
    pub fn new(db_name: String, env: S, size: usize) -> (c: Self)
        ensures
            c.wf(),
            c@ == CacheModel::<S::Table>::empty(size as nat),
            c.db_name() == db_name@,
    {
        TableCache { env, db_name, cache: LRUCache::new(size) }
    }

    /// Whether another handle can be handed out, as `find_table`, `get` and
    /// `new_iter` need it.
    pub fn handles_left(&self) -> (b: bool)
        ensures
            b == (self@.issued < u64::MAX),
    {
        self.cache.handles_left()
    }

    /// Takes in the outcome of opening the table file `file_number`: an
    /// opened table enters the cache with charge 1 and is pinned by the
    /// handle returned; a failure is handed on and leaves the cache as it
    /// was.
    pub fn install(&mut self, file_number: u64, opened: Result<S::Table, WickErr>) -> (r: Result<
        Handle,
        WickErr,
    >)
        requires
            old(self).wf(),
            old(self)@.issued < u64::MAX,
        ensures
            final(self).wf(),
            final(self).db_name() == old(self).db_name(),
            match opened {
                Ok(table) => {
                    &&& final(self)@ == old(self)@.insert(table_key(file_number), table, 1)
                    &&& r matches Ok(h) && h.id() == old(self)@.issued
                },
                Err(e) => r == Err::<Handle, WickErr>(e) && final(self)@ == old(self)@,
            },
    {
        match opened {
            Ok(table) => {
                let key = encode_varint64(file_number);
                let (handle, _) = self.cache.insert(key, table, 1);
                Ok(handle)
            },
            Err(e) => Err(e),
        }
    }

    /// Finds the table with number `file_number`, opening its file if the
    /// cache does not hold it, and returns a handle that pins it.
    pub fn find_table(&mut self, file_number: u64, file_size: u64) -> (r: Result<Handle, WickErr>)
        requires
            old(self).wf(),
            old(self)@.issued < u64::MAX,
        ensures
            final(self).wf(),
            final(self).db_name() == old(self).db_name(),
            old(self)@.contains(table_key(file_number)) ==> {
                &&& final(self)@ == old(self)@.look_up(table_key(file_number))
                &&& r matches Ok(h) && h.id() == old(self)@.resident[old(self)@.index_of(
                    table_key(file_number),
                ) as int].id
            },
            !old(self)@.contains(table_key(file_number)) ==> match r {
                Ok(h) => {
                    &&& h.id() == old(self)@.issued
                    &&& exists|table: S::Table|
                        final(self)@ == #[trigger] old(self)@.insert(
                            table_key(file_number),
                            table,
                            1,
                        )
                },
                Err(_) => final(self)@ == old(self)@,
            },
    {
        let key = encode_varint64(file_number);
        match self.cache.look_up(key.as_slice()) {
            Some(handle) => Ok(handle),
            None => {
                let name = generate_filename(self.db_name.as_str(), FileType::Table, file_number);
                let opened = self.env.open_table(name.as_str(), file_size);
                self.install(file_number, opened)
            },
        }
    }

    /// Drops the table with number `file_number` from the cache. While an
    /// iterator or a lookup still pins it, it lives on out of reach and
    /// goes when the last handle on it is released.
    pub fn evict(&mut self, file_number: u64)
        requires
            old(self).wf(),
        ensures
            final(self).wf(),
            final(self).db_name() == old(self).db_name(),
            final(self)@ == old(self)@.erase(table_key(file_number)),
    {
        let key = encode_varint64(file_number);
        let _ = self.cache.erase(key.as_slice());
    }

    /// Gives a handle back that `find_table` returned.
    pub fn release(&mut self, handle: Handle)
        requires
            old(self).wf(),
        ensures
            final(self).wf(),
            final(self).db_name() == old(self).db_name(),
            final(self)@ == old(self)@.release(handle.id()),
    {
        let _ = self.cache.release(handle);
    }

    /// Ends a lookup: releases the table that `handle` pins, and hands on
    /// what the table answered.
    pub fn answered(
        &mut self,
        handle: Handle,
        found: Result<Option<ParsedInternalKey>, WickErr>,
    ) -> (r: Result<Option<ParsedInternalKey>, WickErr>)
        requires
            old(self).wf(),
        ensures
            r == found,
            final(self).wf(),
            final(self).db_name() == old(self).db_name(),
            final(self)@ == old(self)@.release(handle.id()),
    {
        self.release(handle);
        found
    }

    /// Seeks `key` in the table that `found` pins and releases the table,
    /// whatever the table answers. Where `found` is a failure to get the
    /// table, that failure is the result, and the cache stays as it was.
    pub fn get_from(
        &mut self,
        found: Result<Handle, WickErr>,
        options: &ReadOptions,
        key: &[u8],
    ) -> (r: Result<Option<ParsedInternalKey>, WickErr>)
        requires
            old(self).wf(),
            found matches Ok(handle) ==> old(self)@.entry(handle.id()).is_some(),
        ensures
            final(self).wf(),
            final(self).db_name() == old(self).db_name(),
            match found {
                Ok(handle) => final(self)@ == old(self)@.release(handle.id()),
                Err(e) => {
                    &&& r == Err::<Option<ParsedInternalKey>, WickErr>(e)
                    &&& final(self)@ == old(self)@
                },
            },
    {
        match found {
            Ok(handle) => {
                let answer = self.cache.value(&handle).unwrap().internal_get(options, key);
                self.answered(handle, answer)
            },
            Err(e) => Err(e),
        }
    }

    /// Seeks `key` in the table with number `file_number`. The table is
    /// pinned for the time of the lookup and released before the result is
    /// returned, whatever the result.
    pub fn get(
        &mut self,
        options: &ReadOptions,
        key: &[u8],
        file_number: u64,
        file_size: u64,
    ) -> (r: Result<Option<ParsedInternalKey>, WickErr>)
        requires
            old(self).wf(),
            old(self)@.issued < u64::MAX,
        ensures
            final(self).wf(),
            final(self).db_name() == old(self).db_name(),
            old(self)@.contains(table_key(file_number)) ==> final(self)@ == old(self)@.look_up(
                table_key(file_number),
            ).release(
                old(self)@.resident[old(self)@.index_of(table_key(file_number)) as int].id,
            ),
            !old(self)@.contains(table_key(file_number)) ==> {
                ||| r is Err && final(self)@ == old(self)@
                ||| exists|table: S::Table|
                    final(self)@ == (#[trigger] old(self)@.insert(
                        table_key(file_number),
                        table,
                        1,
                    )).release(old(self)@.issued as u64)
            },
    {
        let ghost key_model = table_key(file_number);
        let found = self.find_table(file_number, file_size);
        proof {
            if found.is_ok() {
                if old(self)@.contains(key_model) {
                    lemma_look_up_entry(old(self)@, key_model);
                } else {
                    let table = choose|table: S::Table|
                        self@ == #[trigger] old(self)@.insert(key_model, table, 1);
                    lemma_insert_entry(old(self)@, key_model, table, 1);
                }
            }
        }
        self.get_from(found, options, key)
    }

    /// An iterator over the entries of the table with number
    /// `file_number`. The table stays pinned until the iterator is handed
    /// to `close_iter`. Where the table cannot be had, the iterator is
    /// empty and reports the failure at its first use.
    pub fn new_iter(&mut self, options: ReadOptions, file_number: u64, file_size: u64) -> (it:
        TableIter)
        requires
            old(self).wf(),
            old(self)@.issued < u64::MAX,
        ensures
            final(self).wf(),
            final(self).db_name() == old(self).db_name(),
            it.position() == 0,
            it.read_options() == options,
            it.pinned().is_some() != it.failed().is_some(),
            old(self)@.contains(table_key(file_number)) ==> {
                &&& final(self)@ == old(self)@.look_up(table_key(file_number))
                &&& it.pinned() == Some(
                    old(self)@.resident[old(self)@.index_of(table_key(file_number)) as int].id,
                )
            },
            !old(self)@.contains(table_key(file_number)) ==> {
                if it.failed().is_some() {
                    final(self)@ == old(self)@
                } else {
                    &&& it.pinned() == Some(old(self)@.issued as u64)
                    &&& exists|table: S::Table|
                        final(self)@ == #[trigger] old(self)@.insert(
                            table_key(file_number),
                            table,
                            1,
                        )
                }
            },
            it.pinned() matches Some(id) ==> final(self)@.pins(id) > 0,
    {
        let ghost key_model = table_key(file_number);
        let found = self.find_table(file_number, file_size);
        proof {
            if found.is_ok() {
                if old(self)@.contains(key_model) {
                    lemma_look_up_entry(old(self)@, key_model);
                } else {
                    let table = choose|table: S::Table|
                        self@ == #[trigger] old(self)@.insert(key_model, table, 1);
                    lemma_insert_entry(old(self)@, key_model, table, 1);
                }
            }
        }
        TableIter::opened(found, options)
    }

    /// The next entry of the iterator's table, key and value, or nothing
    /// at the table's end. The table is asked for the entry at the
    /// iterator's place, with the iterator's choices; on an entry the
    /// iterator moves on by one, else it stays. An iterator that was made
    /// without its table reports why, once, and is empty from then on.
    pub fn next_entry(&self, it: &mut TableIter) -> (r: Result<Option<(Vec<u8>, Vec<u8>)>, WickErr>)
        ensures
            final(it).pinned() == old(it).pinned(),
            final(it).read_options() == old(it).read_options(),
            final(it).failed().is_none(),
            old(it).failed() matches Some(e) ==> r == Err::<Option<(Vec<u8>, Vec<u8>)>, WickErr>(e),
            old(it).failed().is_none() && (old(it).pinned().is_none() || self@.entry(
                old(it).pinned().unwrap(),
            ).is_none()) ==> r == Ok::<Option<(Vec<u8>, Vec<u8>)>, WickErr>(None),
            r matches Ok(Some(_)) && old(it).position() < usize::MAX ==> final(it).position()
                == old(it).position() + 1,
            !(r matches Ok(Some(_))) || old(it).position() == usize::MAX
                ==> final(it).position() == old(it).position(),
    {
        match it.err.take() {
            Some(e) => {
                return Err(e);
            },
            None => {},
        }
        let table = match &it.handle {
            Some(handle) => match self.cache.value(handle) {
                Some(table) => table,
                None => {
                    return Ok(None);
                },
            },
            None => {
                return Ok(None);
            },
        };
        let found = table.entry(it.options(), it.index());
        it.stepped(found)
    }

    /// Ends an iterator: the pin it held on its table is released, once.
    pub fn close_iter(&mut self, it: TableIter)
        requires
            old(self).wf(),
        ensures
            final(self).wf(),
            final(self).db_name() == old(self).db_name(),
            match it.pinned() {
                Some(id) => {
                    &&& final(self)@ == old(self)@.release(id)
                    &&& old(self)@.pins(id) > 0 ==> final(self)@.pins(id) == old(self)@.pins(id)
                        - 1
                },
                None => final(self)@ == old(self)@,
            },
    {
        match it.handle {
            Some(handle) => {
                proof {
                    if self@.pins(handle.id()) > 0 {
                        lemma_release_unpins(self@, handle.id());
                    }
                }
                let _ = self.cache.release(handle);
            },
            None => {},
        }
    }
}

} // verus!
