//! The store: the index, the memtable of the active log and the page cache,
//! and the rules that route every operation between them.
//!
//! The store works in memory. Where an operation needs a file it reads it
//! from the [`Disk`] that the caller hands in, and what has to be written it
//! returns as a run of [`FileAction`]s. What every operation does is said by
//! the functions on [`StoreState`] in [`crate::model`].

use vstd::prelude::*;
use vstd::string::StringExecFns;
use crate::cache::Cache;
use crate::cky_map::CkyMap;
use crate::constants::{
    lemma_separator_literals, token_separator_chars, DATA_FILE_EXT, DEL_FILENAME, INDEX_FILENAME,
    KEY_VALUE_SEPARATOR, LOG_FILE_EXT, TOKEN_SEPARATOR,
};
use crate::disk::{action_views, content_of, ActionView, Disk, FileAction};
use crate::entries::{
    has_key, lemma_upsert, parse_entries, serialize, token_of, upsert, value_of, without, Pair,
};
use crate::errors::{option_view, Error};
use crate::model::{
    after_clear, after_delete, after_get, after_load, after_memtable_save, after_save, after_set,
    cache_covers, cache_save_actions, can_save, clear_actions, data_name, delete_actions,
    get_failure, get_value, in_memtable, index_actions, index_after_set, insert_sorted, largest,
    lemma_load_succeeds_on_empty, load_actions, load_succeeds, loaded_files, log_name,
    memtable_save_actions, names_of, needed_file, page_available, range_from, roll_actions,
    rolled, save_actions, scaffold_actions, segment_range, segment_rewrites, set_actions,
    set_succeeds, sort_names, stamped, timestamped_key_of, tombstones, vacuum_actions,
    with_file_props, with_page, StoreState,
};
use crate::text::{append_chars, byte_len, chars_of, str_le, str_lt, string_of};
use crate::tokens::{string_views, tokens};
use crate::utils::{
    all_pairs, base_name_with_extension, base_names_with_extension, bases_with_extension,
    delete_key_values_from_str, extract_key_values_from_str, extract_tokens_from_str, file_name,
    get_current_timestamp_str, is_decimal, without_keys,
};

verus! {

/// The store: what the engine holds in memory.
#[derive(Debug)]
pub struct Store {
    max_file_size: u64,
    cache: Cache,
    memtable: CkyMap,
    index: CkyMap,
    data_files: Vec<String>,
    current_log_file: String,
}

/// The timestamped key made of a timestamp and a user key.
pub fn stamp(timestamp: &str, key: &str) -> (tk: String)
    ensures
        tk@ == stamped(timestamp@, key@),
{
    let mut chars = chars_of(timestamp);
    chars.push('-');
    let k = chars_of(key);
    append_chars(&mut chars, &k);
    assert(chars@ =~= stamped(timestamp@, key@));
    string_of(&chars)
}

/// Puts `name` into the sorted names, behind the last name that does not
/// come after it.
pub fn insert_name_sorted(names: &mut Vec<String>, name: String)
    ensures
        string_views(final(names)@) == insert_sorted(string_views(old(names)@), name@),
{
    let ghost before = string_views(names@);
    let mut i: usize = names.len();
    assert(before.take(i as int) =~= before);
    assert(before.skip(i as int) =~= Seq::<Seq<char>>::empty());
    assert(insert_sorted(before.take(i as int), name@) + before.skip(i as int) =~= insert_sorted(
        before,
        name@,
    ));
    let mut placed = false;
    while i > 0 && !placed
        invariant
            i <= names.len(),
            names@ == old(names)@,
            before == string_views(names@),
            insert_sorted(before, name@) == insert_sorted(before.take(i as int), name@)
                + before.skip(i as int),
            placed ==> insert_sorted(before.take(i as int), name@) == before.take(i as int).push(
                name@,
            ),
        decreases i + if placed { 0int } else { 1int },
    {
        let ghost upto = before.take(i as int);
        assert(upto.last() == names@[i - 1]@);
        if str_le(names[i - 1].as_str(), name.as_str()) {
            placed = true;
        } else {
            assert(upto.drop_last() =~= before.take(i - 1));
            assert(insert_sorted(before.take(i - 1), name@).push(upto.last()) + before.skip(
                i as int,
            ) =~= insert_sorted(before.take(i - 1), name@) + before.skip(i - 1));
            i -= 1;
        }
    }
    assert(insert_sorted(before.take(i as int), name@) == before.take(i as int).push(name@));
    names.insert(i, name);
    assert(string_views(names@) =~= before.take(i as int).push(name@) + before.skip(i as int));
}

impl Store {
    /// What the store holds.
    pub closed spec fn state(&self) -> StoreState {
        StoreState {
            index: self.index.entries(),
            memtable: self.memtable.entries(),
            cache: self.cache.data.entries(),
            cache_start: self.cache.start@,
            cache_end: self.cache.end@,
            data_files: string_views(self.data_files@),
            current_log_file: self.current_log_file@,
            max_file_size: self.max_file_size as nat,
        }
    }

    /// The containers of the store are coherent.
    pub closed spec fn wf(&self) -> bool {
        self.index.wf() && self.memtable.wf() && self.cache.wf()
    }

    /// A store that holds nothing yet. `max_file_size` is the size in bytes
    /// from which on the active log is rolled.
    pub fn new(max_file_size: u64) -> (store: Store)
        ensures
            store.wf(),
            store.state() == (StoreState {
                index: Seq::empty(),
                memtable: Seq::empty(),
                cache: Seq::empty(),
                cache_start: "0"@,
                cache_end: "0"@,
                data_files: Seq::empty(),
                current_log_file: Seq::empty(),
                max_file_size: max_file_size as nat,
            }),
    {
        let store = Store {
            max_file_size,
            cache: Cache::new_empty(),
            memtable: CkyMap::new(),
            index: CkyMap::new(),
            data_files: Vec::new(),
            current_log_file: String::new(),
        };
        assert(string_views(store.data_files@) =~= Seq::<Seq<char>>::empty());
        store
    }

    /// The cached page.
    pub fn cache(&self) -> (cache: &Cache)
        ensures
            cache.data.entries() == self.state().cache,
            cache.start@ == self.state().cache_start,
            cache.end@ == self.state().cache_end,
            self.wf() ==> cache.wf(),
    {
        &self.cache
    }

    /// The memtable.
    pub fn memtable(&self) -> (memtable: &CkyMap)
        ensures
            memtable.entries() == self.state().memtable,
            self.wf() ==> memtable.wf(),
    {
        &self.memtable
    }

    /// The index.
    pub fn index(&self) -> (index: &CkyMap)
        ensures
            index.entries() == self.state().index,
            self.wf() ==> index.wf(),
    {
        &self.index
    }

    /// The base names of the immutable segments.
    pub fn data_files(&self) -> (names: &Vec<String>)
        ensures
            string_views(names@) == self.state().data_files,
    {
        &self.data_files
    }

    /// The base name of the active log.
    pub fn current_log_file(&self) -> (name: &String)
        ensures
            name@ == self.state().current_log_file,
    {
        &self.current_log_file
    }

    /// The size in bytes from which on the active log is rolled.
    pub fn max_file_size(&self) -> (size: u64)
        ensures
            size == self.state().max_file_size,
    {
        self.max_file_size
    }

    /// Returns the bounds of the immutable segment that holds the
    /// timestamped key: the names of two neighbouring segments between which
    /// the key lies, the active log counted as the last segment.
    pub fn get_timestamp_range_for_key(&self, key: &str) -> (range: Option<(String, String)>)
        ensures
            match range {
                Some((start, end)) => segment_range(self.state(), key@) == Some((start@, end@)),
                None => segment_range(self.state(), key@) is None,
            },
    {
        let ghost timestamps = self.state().data_files.push(self.state().current_log_file);
        let n = self.data_files.len();
        let mut i: usize = 0;
        while i < n
            invariant
                n == self.data_files.len(),
                i <= n,
                timestamps == self.state().data_files.push(self.state().current_log_file),
                segment_range(self.state(), key@) == range_from(timestamps, key@, i as int),
            decreases n - i,
        {
            assert(timestamps[i as int] == self.data_files[i as int]@);
            let start = &self.data_files[i];
            let end = if i + 1 < n {
                assert(timestamps[i + 1] == self.data_files[i + 1]@);
                &self.data_files[i + 1]
            } else {
                assert(timestamps[i + 1] == self.current_log_file@);
                &self.current_log_file
            };
            if str_le(start.as_str(), key) && str_lt(key, end.as_str()) {
                return Some((start.clone(), end.clone()));
            }
            i += 1;
        }
        None
    }

    /// Loads the cache with the data file of the segment that holds the
    /// timestamped key, read from the folder.
    ///
    /// Fails with `CorruptedDataError`, which names the key, where no
    /// segment holds the key or the folder does not hold the data file;
    /// nothing is changed then.
    pub fn load_cache_containing_key(&mut self, key: &str, disk: &Disk) -> (result: Result<
        (),
        Error,
    >)
        requires
            old(self).wf(),
            disk.wf(),
        ensures
            final(self).wf(),
            match result {
                Ok(_) => segment_range(old(self).state(), key@) matches Some(range) && has_key(
                    disk@,
                    data_name(range.0),
                ) && final(self).state() == (StoreState {
                    cache: parse_entries(value_of(disk@, data_name(range.0))),
                    cache_start: range.0,
                    cache_end: range.1,
                    ..old(self).state()
                }),
                Err(e) => !(segment_range(old(self).state(), key@) matches Some(range) && has_key(
                    disk@,
                    data_name(range.0),
                )) && final(self).state() == old(self).state() && e is CorruptedDataError
                    && e.data_view() == Some(key@),
            },
    {
        match self.get_timestamp_range_for_key(key) {
            Some((start, end)) => {
                let name = file_name(start.as_str(), DATA_FILE_EXT);
                match disk.read(name.as_str()) {
                    Some(content) => {
                        self.cache = Cache::new(content, start, end);
                        Ok(())
                    },
                    None => Err(Error::corrupted(key)),
                }
            },
            None => Err(Error::corrupted(key)),
        }
    }

    /// Brings the page of the timestamped key into the cache, unless the
    /// cached page covers the key already.
    fn bring_page(&mut self, key: &str, disk: &Disk) -> (result: Result<(), Error>)
        requires
            old(self).wf(),
            disk.wf(),
        ensures
            final(self).wf(),
            final(self).state() == with_page(old(self).state(), key@, disk@),
            match result {
                Ok(_) => page_available(old(self).state(), key@, disk@),
                Err(e) => !page_available(old(self).state(), key@, disk@) && e
                    is CorruptedDataError && e.data_view() == Some(key@),
            },
    {
        if self.cache.is_in_range(key) {
            Ok(())
        } else {
            self.load_cache_containing_key(key, disk)
        }
    }

    /// Gets the value that belongs to a timestamped key: from the memtable
    /// where the key does not come before the name of the active log, else
    /// from the page of the key's segment, which is brought into the cache.
    ///
    /// Fails with `NotFoundError` where the memtable or the page lacks the
    /// key, and with `CorruptedDataError` where the page cannot be had.
    pub fn get_value_for_key(&mut self, timestamped_key: String, disk: &Disk) -> (result: Result<
        String,
        Error,
    >)
        requires
            old(self).wf(),
            disk.wf(),
        ensures
            final(self).wf(),
            final(self).state() == if in_memtable(old(self).state(), timestamped_key@) {
                old(self).state()
            } else {
                with_page(old(self).state(), timestamped_key@, disk@)
            },
            match result {
                Ok(value) => if in_memtable(old(self).state(), timestamped_key@) {
                    has_key(old(self).state().memtable, timestamped_key@) && value@ == value_of(
                        old(self).state().memtable,
                        timestamped_key@,
                    )
                } else {
                    page_available(old(self).state(), timestamped_key@, disk@) && has_key(
                        final(self).state().cache,
                        timestamped_key@,
                    ) && value@ == value_of(final(self).state().cache, timestamped_key@)
                },
                Err(e) => if in_memtable(old(self).state(), timestamped_key@) {
                    !has_key(old(self).state().memtable, timestamped_key@) && e is NotFoundError
                        && e.data_view() == Some(timestamped_key@)
                } else if page_available(old(self).state(), timestamped_key@, disk@) {
                    !has_key(final(self).state().cache, timestamped_key@) && e is NotFoundError
                        && e.data_view() == Some(timestamped_key@)
                } else {
                    e is CorruptedDataError && e.data_view() == Some(timestamped_key@)
                },
            },
    {
        if str_le(self.current_log_file.as_str(), timestamped_key.as_str()) {
            return self.memtable.get(timestamped_key.as_str());
        }
        match self.bring_page(timestamped_key.as_str(), disk) {
            Ok(_) => {},
            Err(e) => {
                return Err(e);
            },
        }
        self.cache.get(timestamped_key.as_str())
    }

    /// Retrieves the value of the key.
    ///
    /// Fails with `NotFoundError`, with an empty payload, where the index
    /// does not hold the key, and with `CorruptedDataError` where the index
    /// holds the key and its value cannot be found.
    pub fn get(&mut self, key: &str, disk: &Disk) -> (result: Result<String, Error>)
        requires
            old(self).wf(),
            disk.wf(),
        ensures
            final(self).wf(),
            final(self).state() == after_get(old(self).state(), key@, disk@),
            match result {
                Ok(value) => get_value(old(self).state(), key@, disk@) == Some(value@),
                Err(e) => get_value(old(self).state(), key@, disk@) is None && if has_key(
                    old(self).state().index,
                    key@,
                ) {
                    e is CorruptedDataError && e.data_view() == Some(
                        get_failure(old(self).state(), key@, disk@),
                    )
                } else {
                    e is NotFoundError && e.data_view() == Some(Seq::<char>::empty())
                },
            },
    {
        let timestamped_key = match self.index.get(key) {
            Ok(tk) => tk,
            Err(_) => {
                let e = Error::NotFoundError { key: String::new() };
                return Err(e);
            },
        };
        match self.get_value_for_key(timestamped_key, disk) {
            Ok(value) => Ok(value),
            Err(err) => {
                let text = String::from_str("error getting value: ").concat(
                    err.to_string().as_str(),
                );
                Err(Error::CorruptedDataError { data: Some(text) })
            },
        }
    }

    /// Gets the timestamped key of the user key from the index, or makes a
    /// new one of the timestamp `now`. Says with the key whether it is new.
    pub fn get_timestamped_key(&self, key: &str, now: &str) -> (result: (String, bool))
        requires
            self.wf(),
        ensures
            result.0@ == timestamped_key_of(self.state(), key@, now@),
            result.1 == !has_key(self.state().index, key@),
    {
        match self.index.get(key) {
            Ok(tk) => (tk, false),
            Err(_) => (stamp(now, key), true),
        }
    }

    /// Makes the log with the base name `now` the active log, and returns
    /// the action that creates its file.
    pub fn create_new_log_file(&mut self, now: &str) -> (action: FileAction)
        ensures
            final(self).wf() == old(self).wf(),
            final(self).state() == (StoreState { current_log_file: now@, ..old(self).state() }),
            action@ == (ActionView::Create { name: log_name(now@) }),
    {
        let name = file_name(now, LOG_FILE_EXT);
        self.current_log_file = now.to_owned();
        FileAction::Create { name }
    }

    /// Rolls the active log where its file has reached the maximum size:
    /// the log file becomes a data file, the memtable is emptied, and a new
    /// log with the base name `later` becomes the active log.
    pub fn roll_log_file_if_too_big(&mut self, log_file_size: u64, later: &str) -> (actions: Vec<
        FileAction,
    >)
        requires
            old(self).wf(),
        ensures
            final(self).wf(),
            log_file_size >= old(self).state().max_file_size ==> final(self).state() == rolled(
                old(self).state(),
                later@,
            ) && action_views(actions@) == roll_actions(old(self).state(), later@),
            log_file_size < old(self).state().max_file_size ==> final(self).state() == old(
                self,
            ).state() && action_views(actions@) == Seq::<ActionView>::empty(),
    {
        let mut actions: Vec<FileAction> = Vec::new();
        if log_file_size >= self.max_file_size {
            let from = file_name(self.current_log_file.as_str(), LOG_FILE_EXT);
            let to = file_name(self.current_log_file.as_str(), DATA_FILE_EXT);
            actions.push(FileAction::Rename { from, to });
            self.memtable = CkyMap::new();
            let old_log = self.current_log_file.clone();
            insert_name_sorted(&mut self.data_files, old_log);
            let create = self.create_new_log_file(later);
            actions.push(create);
            assert(action_views(actions@) =~= roll_actions(old(self).state(), later@));
        } else {
            assert(action_views(actions@) =~= Seq::<ActionView>::empty());
        }
        actions
    }

    /// Saves the key-value pair to the memtable, writes the memtable to the
    /// log file, and rolls the log where it has grown too big.
    pub fn save_key_value_pair_to_memtable(
        &mut self,
        timestamped_key: &str,
        value: &str,
        later: &str,
    ) -> (actions: Vec<FileAction>)
        requires
            old(self).wf(),
        ensures
            final(self).wf(),
            final(self).state() == after_memtable_save(
                old(self).state(),
                timestamped_key@,
                value@,
                later@,
            ),
            action_views(actions@) == memtable_save_actions(
                old(self).state(),
                timestamped_key@,
                value@,
                later@,
            ),
    {
        let ghost s = self.state();
        match self.memtable.insert(timestamped_key, value) {
            Ok(_) => {},
            Err(_) => {},
        }
        let content = self.memtable.to_string();
        let size = content.as_str().as_bytes().len();
        assert(size == byte_len(content@));
        let name = file_name(self.current_log_file.as_str(), LOG_FILE_EXT);
        let mut actions: Vec<FileAction> = Vec::new();
        actions.push(FileAction::Write { name, content });
        let ghost write = action_views(actions@);
        assert(write =~= seq![
            ActionView::Write {
                name: log_name(s.current_log_file),
                content: serialize(upsert(s.memtable, timestamped_key@, value@)),
            },
        ]);
        let mut roll = self.roll_log_file_if_too_big(size as u64, later);
        let ghost rolling = action_views(roll@);
        actions.append(&mut roll);
        assert(action_views(actions@) =~= write + rolling);
        assert(write + Seq::<ActionView>::empty() =~= write);
        actions
    }

    /// The action that writes the cached page to its data file.
    pub fn persist_cache_to_disk(&self) -> (action: FileAction)
        requires
            self.wf(),
        ensures
            action@ == (ActionView::Write {
                name: data_name(self.state().cache_start),
                content: serialize(self.state().cache),
            }),
    {
        let name = file_name(self.cache.start.as_str(), DATA_FILE_EXT);
        FileAction::Write { name, content: self.cache.data.to_string() }
    }

    /// Saves the key-value pair to the cached page and returns the action
    /// that writes the page to its data file.
    pub fn save_key_value_pair_to_cache(&mut self, timestamped_key: &str, value: &str) -> (action:
        FileAction)
        requires
            old(self).wf(),
        ensures
            final(self).wf(),
            final(self).state() == (StoreState {
                cache: upsert(old(self).state().cache, timestamped_key@, value@),
                ..old(self).state()
            }),
            action@ == (ActionView::Write {
                name: data_name(old(self).state().cache_start),
                content: serialize(upsert(old(self).state().cache, timestamped_key@, value@)),
            }),
    {
        match self.cache.update(timestamped_key, value) {
            Ok(_) => {},
            Err(_) => {},
        }
        self.persist_cache_to_disk()
    }

    /// Saves the key-value pair in the memtable and the log file where the
    /// timestamped key does not come before the name of the active log, else
    /// in the page of the key's segment and its data file.
    ///
    /// Fails with `CorruptedDataError`, without payload, where the page
    /// cannot be had; nothing is changed then.
    pub fn save_key_value_pair(
        &mut self,
        timestamped_key: &str,
        value: &str,
        later: &str,
        disk: &Disk,
    ) -> (result: Result<Vec<FileAction>, Error>)
        requires
            old(self).wf(),
            disk.wf(),
        ensures
            final(self).wf(),
            final(self).state() == after_save(
                old(self).state(),
                timestamped_key@,
                value@,
                later@,
                disk@,
            ),
            match result {
                Ok(actions) => can_save(old(self).state(), timestamped_key@, disk@)
                    && action_views(actions@) == save_actions(
                    old(self).state(),
                    timestamped_key@,
                    value@,
                    later@,
                    disk@,
                ),
                Err(e) => !can_save(old(self).state(), timestamped_key@, disk@) && e
                    is CorruptedDataError && e.data_view() is None,
            },
    {
        if str_le(self.current_log_file.as_str(), timestamped_key) {
            return Ok(self.save_key_value_pair_to_memtable(timestamped_key, value, later));
        }
        match self.bring_page(timestamped_key, disk) {
            Ok(_) => {},
            Err(_) => {
                return Err(Error::CorruptedDataError { data: None });
            },
        }
        let action = self.save_key_value_pair_to_cache(timestamped_key, value);
        let mut actions: Vec<FileAction> = Vec::new();
        actions.push(action);
        assert(action_views(actions@) =~= cache_save_actions(
            old(self).state(),
            timestamped_key@,
            value@,
            disk@,
        ));
        Ok(actions)
    }

    /// Adds or updates the value of the key, with `now` as the timestamp of
    /// a key that is new and `later` as the name of a log that a roll
    /// creates.
    ///
    /// Fails with `CorruptedDataError` where the key lives in an immutable
    /// segment whose page cannot be had; neither the memory nor the index
    /// file is changed then.
    pub fn set_at(&mut self, key: &str, value: &str, now: &str, later: &str, disk: &Disk) -> (result:
        Result<Vec<FileAction>, Error>)
        requires
            old(self).wf(),
            disk.wf(),
        ensures
            final(self).wf(),
            final(self).state() == after_set(old(self).state(), key@, value@, now@, later@, disk@),
            match result {
                Ok(actions) => set_succeeds(old(self).state(), key@, now@, disk@) && action_views(
                    actions@,
                ) == set_actions(old(self).state(), key@, value@, now@, later@, disk@),
                Err(e) => !set_succeeds(old(self).state(), key@, now@, disk@) && e
                    is CorruptedDataError && e.data_view() is None,
            },
    {
        let ghost s = self.state();
        let (timestamped_key, is_new_key) = self.get_timestamped_key(key, now);
        let mut saved = match self.save_key_value_pair(timestamped_key.as_str(), value, later, disk) {
            Ok(actions) => actions,
            Err(err) => {
                return Err(err);
            },
        };
        let ghost saving = action_views(saved@);
        let mut actions: Vec<FileAction> = Vec::new();
        if is_new_key {
            let mut entry = chars_of(key);
            append_chars(&mut entry, &chars_of(KEY_VALUE_SEPARATOR));
            append_chars(&mut entry, &chars_of(timestamped_key.as_str()));
            append_chars(&mut entry, &chars_of(TOKEN_SEPARATOR));
            proof {
                lemma_separator_literals();
            }
            assert(entry@ =~= token_of(Pair { key: key@, value: stamped(now@, key@) }));
            actions.push(
                FileAction::Append {
                    name: String::from_str(INDEX_FILENAME),
                    content: string_of(&entry),
                },
            );
            let ghost before = self.index.entries();
            proof {
                lemma_upsert(before, key@, timestamped_key@);
            }
            match self.index.insert(key, timestamped_key.as_str()) {
                Ok(_) => {},
                Err(_) => {},
            }
            assert(self.index.entries() =~= index_after_set(s, key@, now@));
        }
        let ghost indexing = action_views(actions@);
        assert(indexing =~= index_actions(s, key@, now@));
        actions.append(&mut saved);
        assert(action_views(actions@) =~= indexing + saving);
        Ok(actions)
    }

    /// Removes the key from the index, so that it can be read no longer,
    /// and marks its timestamped key for removal from the segments.
    ///
    /// Fails with `NotFoundError`, which names the key, where the index
    /// does not hold the key; nothing is changed then.
    pub fn delete(&mut self, key: &str) -> (result: Result<Vec<FileAction>, Error>)
        requires
            old(self).wf(),
        ensures
            final(self).wf(),
            match result {
                Ok(actions) => has_key(old(self).state().index, key@) && final(self).state()
                    == after_delete(old(self).state(), key@) && action_views(actions@)
                    == delete_actions(old(self).state(), key@),
                Err(e) => !has_key(old(self).state().index, key@) && final(self).state() == old(
                    self,
                ).state() && e is NotFoundError && e.data_view() == Some(key@),
            },
    {
        let ghost s = self.state();
        let timestamped_key = match self.index.delete(key) {
            Ok(tk) => tk,
            Err(_) => {
                return Err(Error::not_found(key));
            },
        };
        let mut entry = chars_of(timestamped_key.as_str());
        let tok = token_separator_chars();
        append_chars(&mut entry, &tok);
        let mut actions: Vec<FileAction> = Vec::new();
        actions.push(
            FileAction::Write {
                name: String::from_str(INDEX_FILENAME),
                content: self.index.to_string(),
            },
        );
        actions.push(
            FileAction::Append { name: String::from_str(DEL_FILENAME), content: string_of(&entry) },
        );
        assert(action_views(actions@) =~= delete_actions(s, key@));
        Ok(actions)
    }

    /// The action that creates a log file named after the timestamp `now`,
    /// where none of the names of the folder is that of a log file.
    pub fn create_log_file_if_not_exists(names: &Vec<String>, now: &str) -> (action: Option<
        FileAction,
    >)
        ensures
            match action {
                Some(a) => bases_with_extension(string_views(names@), LOG_FILE_EXT@).len() == 0
                    && a@ == (ActionView::Create { name: log_name(now@) }),
                None => bases_with_extension(string_views(names@), LOG_FILE_EXT@).len() > 0,
            },
    {
        let log_files = base_names_with_extension(names, LOG_FILE_EXT);
        assert(string_views(log_files@).len() == log_files.len());
        if log_files.len() > 0 {
            return None;
        }
        Some(FileAction::Create { name: file_name(now, LOG_FILE_EXT) })
    }

    /// Reads the names of the files of the folder: the files with the data
    /// extension are the immutable segments, and the file with the log
    /// extension is the active log.
    pub fn load_file_props_from_disk(&mut self, files_in_folder: &Vec<String>)
        ensures
            final(self).wf() == old(self).wf(),
            final(self).state() == with_file_props(
                old(self).state(),
                string_views(files_in_folder@),
            ),
    {
        let data = base_names_with_extension(files_in_folder, DATA_FILE_EXT);
        let mut sorted: Vec<String> = Vec::new();
        let mut i: usize = 0;
        assert(string_views(data@).take(0) =~= Seq::<Seq<char>>::empty());
        assert(string_views(sorted@) =~= Seq::<Seq<char>>::empty());
        while i < data.len()
            invariant
                i <= data.len(),
                string_views(sorted@) == sort_names(string_views(data@).take(i as int)),
            decreases data.len() - i,
        {
            let ghost next = string_views(data@).take(i as int + 1);
            assert(next.drop_last() =~= string_views(data@).take(i as int));
            assert(next.last() == data@[i as int]@);
            insert_name_sorted(&mut sorted, data[i].clone());
            i += 1;
        }
        assert(string_views(data@).take(data.len() as int) =~= string_views(data@));
        self.data_files = sorted;
        let logs = base_names_with_extension(files_in_folder, LOG_FILE_EXT);
        assert(string_views(logs@).len() == logs.len());
        if logs.len() > 0 {
            let mut best: usize = 0;
            let mut j: usize = 1;
            assert(string_views(logs@).take(1) =~= seq![logs@[0]@]);
            while j < logs.len()
                invariant
                    1 <= j <= logs.len(),
                    best < j,
                    logs@[best as int]@ == largest(string_views(logs@).take(j as int)),
                decreases logs.len() - j,
            {
                let ghost next = string_views(logs@).take(j as int + 1);
                assert(next.drop_last() =~= string_views(logs@).take(j as int));
                assert(next.last() == logs@[j as int]@);
                if str_le(logs[best].as_str(), logs[j].as_str()) {
                    best = j;
                }
                j += 1;
            }
            assert(string_views(logs@).take(logs.len() as int) =~= string_views(logs@));
            self.current_log_file = logs[best].clone();
        }
    }

    /// Loads the index from the content of the index file.
    ///
    /// Fails with `CorruptedDataError` where some token of the content is
    /// not a key-value pair; nothing is changed then.
    pub fn load_index_from_disk(&mut self, content: &str) -> (result: Result<(), Error>)
        requires
            old(self).wf(),
        ensures
            final(self).wf(),
            match result {
                Ok(_) => all_pairs(tokens(content@)) && final(self).state() == (StoreState {
                    index: parse_entries(content@),
                    ..old(self).state()
                }),
                Err(e) => !all_pairs(tokens(content@)) && final(self).state() == old(self).state()
                    && e is CorruptedDataError && e.data_view() == Some(
                    "key-value pair not separated on file"@,
                ),
            },
    {
        match extract_key_values_from_str(content) {
            Ok(index) => {
                self.index = index;
                Ok(())
            },
            Err(e) => Err(e),
        }
    }

    /// Loads the memtable from the content of the file of the active log.
    pub fn load_memtable_from_disk(&mut self, content: &str)
        requires
            old(self).wf(),
        ensures
            final(self).wf(),
            final(self).state() == (StoreState {
                memtable: parse_entries(content@),
                ..old(self).state()
            }),
    {
        self.memtable = CkyMap::from(content);
    }

    /// Reads the tombstone file of the folder and gets the timestamped keys
    /// that are to be removed from the segments.
    pub fn get_keys_to_delete(disk: &Disk) -> (keys: Vec<String>)
        requires
            disk.wf(),
        ensures
            string_views(keys@) == tombstones(disk@),
    {
        match disk.read(DEL_FILENAME) {
            Some(content) => extract_tokens_from_str(content.as_str()),
            None => {
                let keys = extract_tokens_from_str("");
                proof {
                    reveal_strlit("");
                }
                assert(""@ =~= Seq::<char>::empty());
                keys
            },
        }
    }

    /// One compaction cycle on the folder, without regard to who else works
    /// on it: the actions that remove the tombstoned keys from every segment
    /// and empty the tombstone file.
    pub fn unlocked_vacuum(disk: &Disk) -> (actions: Vec<FileAction>)
        requires
            disk.wf(),
        ensures
            action_views(actions@) == vacuum_actions(disk@),
    {
        let keys_to_delete = Store::get_keys_to_delete(disk);
        let mut actions: Vec<FileAction> = Vec::new();
        assert(string_views(keys_to_delete@).len() == keys_to_delete.len());
        if keys_to_delete.len() == 0 {
            assert(action_views(actions@) =~= Seq::<ActionView>::empty());
            return actions;
        }
        let ghost keys = tombstones(disk@);
        let mut i: usize = 0;
        let n = disk.len();
        assert(disk@.take(0) =~= Seq::<Pair>::empty());
        assert(action_views(actions@) =~= Seq::<ActionView>::empty());
        while i < n
            invariant
                i <= n,
                n == disk@.len(),
                string_views(keys_to_delete@) == keys,
                action_views(actions@) == segment_rewrites(disk@.take(i as int), keys),
            decreases n - i,
        {
            let ghost next = disk@.take(i as int + 1);
            assert(next.drop_last() =~= disk@.take(i as int));
            assert(next.last() == disk@[i as int]);
            let ghost before = action_views(actions@);
            let name = disk.name_at(i);
            let is_log = base_name_with_extension(name.as_str(), LOG_FILE_EXT).is_some();
            let is_data = base_name_with_extension(name.as_str(), DATA_FILE_EXT).is_some();
            if is_log || is_data {
                let content = delete_key_values_from_str(
                    disk.content_at(i).as_str(),
                    &keys_to_delete,
                );
                actions.push(FileAction::Write { name: name.clone(), content });
                assert(action_views(actions@) =~= before.push(
                    ActionView::Write {
                        name: disk@[i as int].key,
                        content: without_keys(disk@[i as int].value, keys),
                    },
                ));
            } else {
                assert(action_views(actions@) =~= before);
            }
            i += 1;
        }
        assert(disk@.take(n as int) =~= disk@);
        let ghost rewrites = action_views(actions@);
        actions.push(FileAction::Write { name: String::from_str(DEL_FILENAME), content: String::new() });
        assert(action_views(actions@) =~= rewrites.push(
            ActionView::Write { name: DEL_FILENAME@, content: Seq::empty() },
        ));
        actions
    }

    /// One compaction cycle: the actions that remove from every segment of
    /// the folder the keys that have been marked for removal, and empty the
    /// tombstone file. The caller holds whatever guards the folder.
    pub fn vacuum(&self, disk: &Disk) -> (actions: Vec<FileAction>)
        requires
            disk.wf(),
        ensures
            action_views(actions@) == vacuum_actions(disk@),
    {
        Store::unlocked_vacuum(disk)
    }

    /// Loads the store from the folder, with `now` as the name of a log
    /// that has to be created: the folder gets the files that it lacks, one
    /// compaction cycle runs, and segments, active log, index and memtable
    /// are read. Returns the file actions that do to the folder what
    /// the load has done to its picture of it.
    ///
    /// Fails with `CorruptedDataError` where some token of the index file is
    /// not a key-value pair; the store is not changed then.
    pub fn load_at(&mut self, disk: &Disk, now: &str) -> (result: Result<Vec<FileAction>, Error>)
        requires
            old(self).wf(),
            disk.wf(),
        ensures
            final(self).wf(),
            match result {
                Ok(actions) => load_succeeds(disk@, now@) && final(self).state() == after_load(
                    old(self).state(),
                    disk@,
                    now@,
                ) && action_views(actions@) == load_actions(disk@, now@),
                Err(e) => !load_succeeds(disk@, now@) && final(self).state() == old(self).state()
                    && e is CorruptedDataError && e.data_view() == Some(
                    "key-value pair not separated on file"@,
                ),
            },
    {
        let mut folder = disk.copy();
        let mut actions: Vec<FileAction> = Vec::new();
        actions.push(FileAction::Create { name: String::from_str(INDEX_FILENAME) });
        actions.push(FileAction::Create { name: String::from_str(DEL_FILENAME) });
        let names = disk.names();
        assert(string_views(names@) =~= names_of(disk@));
        match Store::create_log_file_if_not_exists(&names, now) {
            Some(a) => {
                actions.push(a);
            },
            None => {},
        }
        assert(action_views(actions@) =~= scaffold_actions(disk@, now@));
        folder.apply_all(&actions);
        let ghost scaffold = action_views(actions@);
        let mut compaction = Store::unlocked_vacuum(&folder);
        folder.apply_all(&compaction);
        let ghost compacting = action_views(compaction@);
        actions.append(&mut compaction);
        assert(action_views(actions@) =~= scaffold + compacting);
        assert(folder@ == loaded_files(disk@, now@));
        let index_content = match folder.read(INDEX_FILENAME) {
            Some(c) => c,
            None => String::new(),
        };
        assert(index_content@ == content_of(folder@, INDEX_FILENAME@));
        match self.load_index_from_disk(index_content.as_str()) {
            Ok(_) => {},
            Err(e) => {
                return Err(e);
            },
        }
        let found = folder.names();
        assert(string_views(found@) =~= names_of(folder@));
        self.load_file_props_from_disk(&found);
        let log = file_name(self.current_log_file.as_str(), LOG_FILE_EXT);
        let log_content = match folder.read(log.as_str()) {
            Some(c) => c,
            None => String::new(),
        };
        assert(log_content@ == content_of(folder@, log@));
        self.load_memtable_from_disk(log_content.as_str());
        Ok(actions)
    }

    /// Removes the key from the index where the index holds it, and returns
    /// the action that writes the index file anew. This takes back what
    /// `set` has done to the index for a key that was new.
    pub fn remove_timestamped_key_for_key_if_exists(&mut self, key: &str) -> (actions: Vec<
        FileAction,
    >)
        requires
            old(self).wf(),
        ensures
            final(self).wf(),
            final(self).state() == after_delete(old(self).state(), key@),
            action_views(actions@) == if has_key(old(self).state().index, key@) {
                seq![
                    ActionView::Write {
                        name: INDEX_FILENAME@,
                        content: serialize(without(old(self).state().index, key@)),
                    },
                ]
            } else {
                Seq::empty()
            },
    {
        let mut actions: Vec<FileAction> = Vec::new();
        match self.index.delete(key) {
            Ok(_) => {
                actions.push(
                    FileAction::Write {
                        name: String::from_str(INDEX_FILENAME),
                        content: self.index.to_string(),
                    },
                );
                assert(action_views(actions@) =~= seq![
                    ActionView::Write {
                        name: INDEX_FILENAME@,
                        content: serialize(without(old(self).state().index, key@)),
                    },
                ]);
            },
            Err(_) => {
                assert(action_views(actions@) =~= Seq::<ActionView>::empty());
            },
        }
        actions
    }

    /// Removes the timestamped key and its value from the cached page, where
    /// the page covers the key, or else from the memtable, where the key
    /// lives there, and returns the action that writes the data file or the
    /// log file anew. This takes back what `set` has saved for a key that
    /// was new.
    ///
    /// Fails with `NotFoundError`, which names the key, where the page or
    /// the memtable that should hold the key lacks it.
    pub fn delete_key_value_pair_if_exists(&mut self, key: &str) -> (result: Result<
        Vec<FileAction>,
        Error,
    >)
        requires
            old(self).wf(),
        ensures
            final(self).wf(),
            ({
                let s = old(self).state();
                if cache_covers(s, key@) {
                    &&& final(self).state() == (StoreState { cache: without(s.cache, key@), ..s })
                    &&& match result {
                        Ok(actions) => has_key(s.cache, key@) && action_views(actions@) == seq![
                            ActionView::Write {
                                name: data_name(s.cache_start),
                                content: serialize(without(s.cache, key@)),
                            },
                        ],
                        Err(e) => !has_key(s.cache, key@) && e is NotFoundError && e.data_view()
                            == Some(key@),
                    }
                } else if in_memtable(s, key@) {
                    &&& final(self).state() == (StoreState {
                        memtable: without(s.memtable, key@),
                        ..s
                    })
                    &&& match result {
                        Ok(actions) => has_key(s.memtable, key@) && action_views(actions@) == seq![
                            ActionView::Write {
                                name: log_name(s.current_log_file),
                                content: serialize(without(s.memtable, key@)),
                            },
                        ],
                        Err(e) => !has_key(s.memtable, key@) && e is NotFoundError && e.data_view()
                            == Some(key@),
                    }
                } else {
                    &&& final(self).state() == s
                    &&& result matches Ok(actions) && action_views(actions@) == Seq::<
                        ActionView,
                    >::empty()
                }
            }),
    {
        let ghost s = self.state();
        let mut actions: Vec<FileAction> = Vec::new();
        if self.cache.is_in_range(key) {
            match self.cache.remove(key) {
                Ok(_) => {},
                Err(e) => {
                    return Err(e);
                },
            }
            actions.push(self.persist_cache_to_disk());
            assert(action_views(actions@) =~= seq![
                ActionView::Write {
                    name: data_name(s.cache_start),
                    content: serialize(without(s.cache, key@)),
                },
            ]);
            return Ok(actions);
        }
        if str_le(self.current_log_file.as_str(), key) {
            match self.memtable.delete(key) {
                Ok(_) => {},
                Err(e) => {
                    return Err(e);
                },
            }
            actions.push(
                FileAction::Write {
                    name: file_name(self.current_log_file.as_str(), LOG_FILE_EXT),
                    content: self.memtable.to_string(),
                },
            );
            assert(action_views(actions@) =~= seq![
                ActionView::Write {
                    name: log_name(s.current_log_file),
                    content: serialize(without(s.memtable, key@)),
                },
            ]);
            return Ok(actions);
        }
        assert(action_views(actions@) =~= Seq::<ActionView>::empty());
        Ok(actions)
    }

    /// Resets the store and the folder to an empty database, with `now` as
    /// the name of the new log: the index is emptied, every file is removed,
    /// and the store is loaded from the empty folder.
    pub fn clear_at(&mut self, now: &str) -> (actions: Vec<FileAction>)
        requires
            old(self).wf(),
        ensures
            final(self).wf(),
            final(self).state() == after_clear(old(self).state(), now@),
            action_views(actions@) == clear_actions(now@),
    {
        self.index.clear();
        let empty = Disk::new();
        let mut actions: Vec<FileAction> = Vec::new();
        actions.push(FileAction::RemoveAll);
        let ghost removing = action_views(actions@);
        assert(removing =~= seq![ActionView::RemoveAll]);
        proof {
            lemma_load_succeeds_on_empty(now@);
        }
        match self.load_at(&empty, now) {
            Ok(mut loaded) => {
                let ghost loading = action_views(loaded@);
                actions.append(&mut loaded);
                assert(action_views(actions@) =~= removing + loading);
            },
            Err(_) => {
                assert(false);
            },
        }
        actions
    }

    /// Loads the store from the folder, as [`Store::load_at`] does, with
    /// the current time as the name of a log that has to be created.
    ///
    /// Fails with `CorruptedDataError` where the system clock gives no
    /// timestamp, or where some token of the index file is not a key-value
    /// pair; the store is not changed then.
    pub fn load(&mut self, disk: &Disk) -> (result: Result<Vec<FileAction>, Error>)
        requires
            old(self).wf(),
            disk.wf(),
        ensures
            final(self).wf(),
            match result {
                Ok(actions) => exists|now: Seq<char>|
                    is_decimal(now) && load_succeeds(disk@, now) && final(self).state()
                        == #[trigger] after_load(old(self).state(), disk@, now) && action_views(
                        actions@,
                    ) == load_actions(disk@, now),
                Err(e) => final(self).state() == old(self).state() && e is CorruptedDataError && (
                e.data_view() == Some("second time provided was later than self"@) || (
                e.data_view() == Some("key-value pair not separated on file"@) && exists|
                    now: Seq<char>,
                |
                    is_decimal(now) && !#[trigger] load_succeeds(disk@, now))),
            },
    {
        let now = match get_current_timestamp_str() {
            Ok(t) => t,
            Err(e) => {
                return Err(e);
            },
        };
        self.load_at(disk, now.as_str())
    }

    /// Resets the store and the folder to an empty database, as
    /// [`Store::clear_at`] does, with the current time as the name of the new
    /// log.
    ///
    /// Fails with `CorruptedDataError` where the system clock gives no
    /// timestamp; nothing is changed then.
    pub fn clear(&mut self) -> (result: Result<Vec<FileAction>, Error>)
        requires
            old(self).wf(),
        ensures
            final(self).wf(),
            match result {
                Ok(actions) => exists|now: Seq<char>|
                    is_decimal(now) && final(self).state() == #[trigger] after_clear(
                        old(self).state(),
                        now,
                    ) && action_views(actions@) == clear_actions(now),
                Err(e) => final(self).state() == old(self).state() && e is CorruptedDataError
                    && e.data_view() == Some("second time provided was later than self"@),
            },
    {
        let now = match get_current_timestamp_str() {
            Ok(t) => t,
            Err(e) => {
                return Err(e);
            },
        };
        Ok(self.clear_at(now.as_str()))
    }

    /// Adds or updates the value of the key, as [`Store::set_at`] does, with
    /// two readings of the current time: the first as the timestamp of a key
    /// that is new, the second as the name of a log that a roll creates.
    ///
    /// Fails with `CorruptedDataError` where the system clock gives no
    /// timestamp, or where the key lives in an immutable segment whose page
    /// cannot be had; nothing is changed then.
    pub fn set(&mut self, key: &str, value: &str, disk: &Disk) -> (result: Result<
        Vec<FileAction>,
        Error,
    >)
        requires
            old(self).wf(),
            disk.wf(),
        ensures
            final(self).wf(),
            match result {
                Ok(actions) => exists|now: Seq<char>, later: Seq<char>|
                    is_decimal(now) && is_decimal(later) && set_succeeds(
                        old(self).state(),
                        key@,
                        now,
                        disk@,
                    ) && final(self).state() == #[trigger] after_set(
                        old(self).state(),
                        key@,
                        value@,
                        now,
                        later,
                        disk@,
                    ) && action_views(actions@) == set_actions(
                        old(self).state(),
                        key@,
                        value@,
                        now,
                        later,
                        disk@,
                    ),
                Err(e) => final(self).state() == old(self).state() && e is CorruptedDataError && (
                e.data_view() == Some("second time provided was later than self"@) || (
                e.data_view() is None && exists|now: Seq<char>|
                    is_decimal(now) && !#[trigger] set_succeeds(
                        old(self).state(),
                        key@,
                        now,
                        disk@,
                    ))),
            },
    {
        let now = match get_current_timestamp_str() {
            Ok(t) => t,
            Err(e) => {
                return Err(e);
            },
        };
        let later = match get_current_timestamp_str() {
            Ok(t) => t,
            Err(e) => {
                return Err(e);
            },
        };
        self.set_at(key, value, now.as_str(), later.as_str(), disk)
    }

    /// The name of the file that `get` and `set` read from the folder for
    /// the key, where they read one: the data file of the segment of the
    /// key's timestamped key, which for a key that is new is made of the
    /// timestamp `now`. A folder that holds this file is all that the two
    /// need to be handed.
    pub fn file_needed_for(&self, key: &str, now: &str) -> (name: Option<String>)
        requires
            self.wf(),
        ensures
            option_view(name) == needed_file(
                self.state(),
                timestamped_key_of(self.state(), key@, now@),
            ),
    {
        let (timestamped_key, _) = self.get_timestamped_key(key, now);
        if str_le(self.current_log_file.as_str(), timestamped_key.as_str()) {
            return None;
        }
        if self.cache.is_in_range(timestamped_key.as_str()) {
            return None;
        }
        match self.get_timestamp_range_for_key(timestamped_key.as_str()) {
            Some((start, _)) => Some(file_name(start.as_str(), DATA_FILE_EXT)),
            None => None,
        }
    }
}

} // verus!
