//! The face of the database: open, set, get, delete, clear and close, and a
//! database over a folder in memory that has it.
//!
//! The [`Database`] carries out on its folder every file action that its
//! store hands back, and looks at every timestamp before it uses it. So it is
//! sound from the beginning to the end, and what [`crate::guarantees`]
//! promises holds of it without condition: it is a mapping from keys to
//! values.

use vstd::prelude::*;
use crate::cache::in_range;
use crate::compaction::among;
use crate::constants::{
    key_value_separator_chars, kv_sep, token_sep, token_separator_chars, LOG_FILE_EXT,
};
use crate::disk::{apply_actions, lemma_apply_concat, lemma_apply_few, ActionView, Disk};
use crate::entries::{distinct_keys, has_key, lemma_position, position_of, value_of, Pair};
use crate::errors::Error;
use crate::guarantees::{
    contents, later_is_later, lemma_contents_are_kept, lemma_delete_is_remove,
    lemma_delete_keeps_readable, lemma_empty_database_holds_nothing, lemma_get_keeps_readable,
    lemma_restart_keeps_contents, lemma_restart_keeps_readable, lemma_set_is_insert,
    lemma_set_keeps_readable, lemma_vacuum_keeps_readable, readable,
};
use crate::model::{
    after_clear, after_set, cache_covers, get_value, load_actions, loaded_files, scaffold_actions,
    set_succeeds, stamped, timestamped_key_of, tombstones, vacuum_actions, StoreState,
};
use crate::soundness::{
    clean_text, lemma_clear_keeps_sound, lemma_delete_keeps_listed, lemma_delete_keeps_sound,
    lemma_empty_database_is_sound, lemma_get_keeps_sound, lemma_loaded_state,
    lemma_restart_keeps_sound, lemma_set_keeps_listed, lemma_set_keeps_sound,
    lemma_vacuum_keeps_listed, lemma_vacuum_keeps_sound, listed, live, roll_is_proper,
    set_is_proper, sound,
};
use crate::store::Store;
use crate::text::{chars_of, lemma_lex_strict, lex_lt, str_eq, str_le, str_lt};
use crate::tokens::{matches_at, matches_at_chars, string_views};
use crate::utils::{file_name, get_current_timestamp_str};

verus! {

/// What a database can be asked to do, and what it answers: it is a mapping
/// from keys to values.
pub trait Controller {
    /// The database is coherent.
    spec fn wf(&self) -> bool;

    /// The mapping from keys to values that the database holds.
    spec fn contents(&self) -> Map<Seq<char>, Seq<char>>;

    /// Whether the database is open.
    spec fn opened(&self) -> bool;

    /// Opens the database.
    fn open(&mut self) -> (result: Result<(), Error>)
        requires
            old(self).wf(),
        ensures
            final(self).wf(),
            final(self).contents() == old(self).contents(),
            result is Ok,
            final(self).opened(),
    ;

    /// Closes the database.
    fn close(&mut self) -> (result: Result<(), Error>)
        requires
            old(self).wf(),
        ensures
            final(self).wf(),
            final(self).contents() == old(self).contents(),
            result is Ok,
            !final(self).opened(),
    ;

    /// Adds or updates the value of the key.
    ///
    /// Fails with `CorruptedDataError`, and changes nothing that can be
    /// read, where the value cannot be stored.
    fn set(&mut self, key: &str, value: &str) -> (result: Result<(), Error>)
        requires
            old(self).wf(),
        ensures
            final(self).wf(),
            final(self).opened() == old(self).opened(),
            match result {
                Ok(_) => final(self).contents() == old(self).contents().insert(key@, value@),
                Err(e) => final(self).contents() == old(self).contents() && e
                    is CorruptedDataError,
            },
    ;

    /// Retrieves the value of the key.
    ///
    /// Fails with `NotFoundError`, with an empty payload, where the database
    /// does not hold the key.
    fn get(&mut self, key: &str) -> (result: Result<String, Error>)
        requires
            old(self).wf(),
        ensures
            final(self).wf(),
            final(self).opened() == old(self).opened(),
            final(self).contents() == old(self).contents(),
            match result {
                Ok(value) => old(self).contents().contains_key(key@) && value@ == old(
                    self,
                ).contents()[key@],
                Err(e) => !old(self).contents().contains_key(key@) && e is NotFoundError
                    && e.data_view() == Some(Seq::<char>::empty()),
            },
    ;

    /// Removes the key and its value.
    ///
    /// Fails with `NotFoundError`, and changes nothing, where the database
    /// does not hold the key.
    fn delete(&mut self, key: &str) -> (result: Result<(), Error>)
        requires
            old(self).wf(),
        ensures
            final(self).wf(),
            final(self).opened() == old(self).opened(),
            match result {
                Ok(_) => old(self).contents().contains_key(key@) && final(self).contents() == old(
                    self,
                ).contents().remove(key@),
                Err(e) => !old(self).contents().contains_key(key@) && final(self).contents()
                    == old(self).contents() && e is NotFoundError && e.data_view() == Some(key@),
            },
    ;

    /// Removes every key and every value.
    ///
    /// Fails with `CorruptedDataError`, and changes nothing that can be
    /// read, where the database cannot be emptied.
    fn clear(&mut self) -> (result: Result<(), Error>)
        requires
            old(self).wf(),
        ensures
            final(self).wf(),
            final(self).opened() == old(self).opened(),
            match result {
                Ok(_) => final(self).contents() == Map::<Seq<char>, Seq<char>>::empty(),
                Err(e) => final(self).contents() == old(self).contents() && e
                    is CorruptedDataError,
            },
    ;
}

/// What a `set` must meet for the database to stay sound: the key and the
/// value hold no separator, the timestamped key of a key that is new is
/// fresh, the name of the log that a roll creates is fresh, and every
/// timestamped key comes before that name.
pub open spec fn acceptable(
    s: StoreState,
    files: Seq<Pair>,
    key: Seq<char>,
    value: Seq<char>,
    now: Seq<char>,
    later: Seq<char>,
) -> bool {
    &&& set_is_proper(s, files, key, value, now)
    &&& roll_is_proper(s, files, later)
    &&& later_is_later(s, later)
    &&& lex_lt(timestamped_key_of(s, key, now), later)
}

/// Checks whether the text holds no separator.
pub fn is_clean(text: &str) -> (r: bool)
    ensures
        r == clean_text(text@),
{
    let chars = chars_of(text);
    let kv = key_value_separator_chars();
    let tok = token_separator_chars();
    let mut at: usize = 0;
    while at < chars.len()
        invariant
            at <= chars.len(),
            chars@ == text@,
            kv@ == kv_sep(),
            tok@ == token_sep(),
            forall|p: int| 0 <= p < at ==> !matches_at(text@, kv_sep(), p),
            forall|p: int| 0 <= p < at ==> !matches_at(text@, token_sep(), p),
        decreases chars.len() - at,
    {
        if matches_at_chars(&chars, &kv, at) || matches_at_chars(&chars, &tok, at) {
            return false;
        }
        at += 1;
    }
    assert forall|p: int| !matches_at(text@, kv_sep(), p) by {
        assert(kv_sep().len() == 7);
    }
    assert forall|p: int| !matches_at(text@, token_sep(), p) by {
        assert(token_sep().len() == 8);
    }
    true
}

/// A timestamped key is live just where it is the value of an entry of the
/// index.
pub proof fn lemma_live_is_a_value(s: StoreState, tk: Seq<char>)
    requires
        distinct_keys(s.index),
    ensures
        live(s, tk) == exists|i: int| 0 <= i < s.index.len() && (#[trigger] s.index[i]).value == tk,
{
    if live(s, tk) {
        let k = choose|k: Seq<char>| has_key(s.index, k) && #[trigger] value_of(s.index, k) == tk;
        let i = position_of(s.index, k);
        assert(s.index[i].value == tk);
    }
    if exists|i: int| 0 <= i < s.index.len() && (#[trigger] s.index[i]).value == tk {
        let i = choose|i: int| 0 <= i < s.index.len() && (#[trigger] s.index[i]).value == tk;
        lemma_position(s.index, s.index[i].key, i);
    }
}

/// Every timestamped key comes before a name just where every value of the
/// index does.
pub proof fn lemma_later_is_later(s: StoreState, later: Seq<char>)
    requires
        distinct_keys(s.index),
    ensures
        later_is_later(s, later) == forall|i: int|
            0 <= i < s.index.len() ==> lex_lt((#[trigger] s.index[i]).value, later),
{
    if later_is_later(s, later) {
        assert forall|i: int| 0 <= i < s.index.len() implies lex_lt(
            (#[trigger] s.index[i]).value,
            later,
        ) by {
            lemma_position(s.index, s.index[i].key, i);
        }
    }
    if forall|i: int| 0 <= i < s.index.len() ==> lex_lt((#[trigger] s.index[i]).value, later) {
        assert forall|key: Seq<char>| #[trigger] has_key(s.index, key) implies lex_lt(
            value_of(s.index, key),
            later,
        ) by {
            let i = position_of(s.index, key);
            assert(lex_lt(s.index[i].value, later));
        }
    }
}

/// A database over a folder in memory.
#[derive(Debug)]
pub struct Database {
    store: Store,
    disk: Disk,
    is_open: bool,
}

impl Database {
    /// What the store of the database holds.
    pub closed spec fn state(&self) -> StoreState {
        self.store.state()
    }

    /// The files of the folder of the database.
    pub closed spec fn files(&self) -> Seq<Pair> {
        self.disk@
    }

    /// The store and the folder are coherent.
    pub closed spec fn coherent(&self) -> bool {
        self.store.wf() && self.disk.wf()
    }

    /// Whether the database is open.
    pub closed spec fn is_opened(&self) -> bool {
        self.is_open
    }

    /// The database is sound, its files are listed, and every key of its
    /// index can be read.
    pub open spec fn intact(&self) -> bool {
        &&& self.coherent()
        &&& sound(self.state(), self.files())
        &&& listed(self.state(), self.files())
        &&& readable(self.state(), self.files())
    }

    /// Whether the database is open.
    pub fn is_open(&self) -> (r: bool)
        ensures
            r == self.is_opened(),
    {
        self.is_open
    }

    /// The store of the database.
    pub fn store(&self) -> (store: &Store)
        ensures
            store.state() == self.state(),
            self.intact() ==> store.wf(),
    {
        &self.store
    }

    /// The folder of the database.
    pub fn disk(&self) -> (disk: &Disk)
        ensures
            disk@ == self.files(),
            self.intact() ==> disk.wf(),
    {
        &self.disk
    }

    /// Makes an empty database whose active log is rolled once it has
    /// reached `max_file_size` bytes, with `now` as the name of its log.
    ///
    /// Fails with `CorruptedDataError` where `now` is empty.
    pub fn connect_at(max_file_size: u64, now: &str) -> (result: Result<Database, Error>)
        ensures
            match result {
                Ok(db) => now@.len() > 0 && db.intact() && db.is_opened() && db.state().max_file_size
                    == max_file_size && contents(db.state(), db.files()) == Map::<
                    Seq<char>,
                    Seq<char>,
                >::empty(),
                Err(e) => now@.len() == 0 && e is CorruptedDataError && e.data_view() == Some(
                    "the time is not fit to name a log"@,
                ),
            },
    {
        let name = chars_of(now);
        if name.len() == 0 {
            return Err(Error::corrupted("the time is not fit to name a log"));
        }
        let mut store = Store::new(max_file_size);
        let mut disk = Disk::new();
        let ghost fresh = store.state();
        proof {
            assert forall|k: Seq<char>| #[trigger]
                in_range(fresh.cache_start, fresh.cache_end, k) implies lex_lt(k, now@) by {}
            lemma_empty_database_is_sound(fresh, now@);
            lemma_empty_database_holds_nothing(fresh, now@);
        }
        let actions = match store.load_at(&disk, now) {
            Ok(actions) => actions,
            Err(e) => {
                return Err(e);
            },
        };
        disk.apply_all(&actions);
        proof {
            lemma_apply_concat(
                Seq::empty(),
                scaffold_actions(Seq::empty(), now@),
                vacuum_actions(apply_actions(Seq::empty(), scaffold_actions(Seq::empty(), now@))),
            );
            assert forall|key: Seq<char>| !has_key(store.state().index, key) by {
                if has_key(store.state().index, key) {
                    let i = position_of(store.state().index, key);
                }
            }
        }
        Ok(Database { store, disk, is_open: true })
    }

    /// Makes an empty database, as [`Database::connect_at`] does, with the
    /// current time as the name of its log.
    ///
    /// Fails with `CorruptedDataError` where the system clock gives no
    /// timestamp.
    pub fn connect(max_file_size: u64) -> (result: Result<Database, Error>)
        ensures
            match result {
                Ok(db) => db.intact() && db.is_opened() && db.state().max_file_size
                    == max_file_size && contents(db.state(), db.files()) == Map::<
                    Seq<char>,
                    Seq<char>,
                >::empty(),
                Err(e) => e is CorruptedDataError,
            },
    {
        let now = match get_current_timestamp_str() {
            Ok(t) => t,
            Err(e) => {
                return Err(e);
            },
        };
        Database::connect_at(max_file_size, now.as_str())
    }

    /// Checks whether a `set` of the key and the value, with `now` as the
    /// timestamp of a key that is new and `later` as the name of a log that a
    /// roll creates, keeps the database sound.
    pub fn accepts(&self, key: &str, value: &str, now: &str, later: &str) -> (r: bool)
        requires
            self.intact(),
        ensures
            r == acceptable(self.state(), self.files(), key@, value@, now@, later@),
    {
        let ghost s = self.state();
        let ghost files = self.files();
        let (timestamped_key, is_new_key) = self.store.get_timestamped_key(key, now);
        let tk = timestamped_key.as_str();
        if !is_clean(key) || !is_clean(value) {
            return false;
        }
        let pairs = self.store.index().map();
        proof {
            lemma_live_is_a_value(s, tk@);
            lemma_later_is_later(s, later@);
        }
        // every timestamped key comes before the name of the new log, and none is the new one
        let mut live_already = false;
        let mut all_before = true;
        let mut i: usize = 0;
        while i < pairs.len()
            invariant
                i <= pairs.len(),
                pairs.len() == s.index.len(),
                forall|j: int|
                    0 <= j < pairs.len() ==> (#[trigger] pairs[j]).0@ == s.index[j].key
                        && pairs[j].1@ == s.index[j].value,
                live_already == exists|j: int| 0 <= j < i && (#[trigger] s.index[j]).value == tk@,
                all_before == forall|j: int|
                    0 <= j < i ==> lex_lt((#[trigger] s.index[j]).value, later@),
            decreases pairs.len() - i,
        {
            let found = &pairs[i].1;
            assert(found@ == s.index[i as int].value);
            if str_eq(found.as_str(), tk) {
                live_already = true;
            }
            if !str_lt(found.as_str(), later) {
                all_before = false;
            }
            i += 1;
        }
        if !all_before || !str_lt(tk, later) {
            return false;
        }
        if is_new_key {
            if !is_clean(tk) || !str_le(self.store.current_log_file().as_str(), tk) || live_already {
                return false;
            }
            let dead = Store::get_keys_to_delete(&self.disk);
            let mut j: usize = 0;
            while j < dead.len()
                invariant
                    j <= dead.len(),
                    s == self.state(),
                    files == self.files(),
                    !has_key(s.index, key@),
                    tk@ == stamped(now@, key@),
                    string_views(dead@) == tombstones(files),
                    forall|k: int|
                        0 <= k < j ==> (#[trigger] tombstones(files)[k]) != tk@,
                decreases dead.len() - j,
            {
                assert(string_views(dead@)[j as int] == dead[j as int]@);
                if str_eq(dead[j].as_str(), tk) {
                    assert(tombstones(files)[j as int] == tk@);
                    assert(among(tombstones(files), tk@));
                    return false;
                }
                j += 1;
            }
            assert(string_views(dead@).len() == dead.len());
        }
        let name = chars_of(later);
        if name.len() == 0 || !str_lt(self.store.current_log_file().as_str(), later) {
            return false;
        }
        let log = file_name(later, LOG_FILE_EXT);
        !self.disk.contains(log.as_str())
    }

    /// Adds or updates the value of the key, with `now` as the timestamp of
    /// a key that is new and `later` as the name of a log that a roll
    /// creates.
    ///
    /// Fails with `CorruptedDataError`, and changes nothing, where the key
    /// or the value holds a separator or one of the timestamps is not fresh.
    pub fn set_at(&mut self, key: &str, value: &str, now: &str, later: &str) -> (result: Result<
        (),
        Error,
    >)
        requires
            old(self).intact(),
        ensures
            final(self).intact(),
            final(self).is_opened() == old(self).is_opened(),
            match result {
                Ok(_) => acceptable(old(self).state(), old(self).files(), key@, value@, now@, later@)
                    && final(self).state() == after_set(
                    old(self).state(),
                    key@,
                    value@,
                    now@,
                    later@,
                    old(self).files(),
                ) && contents(final(self).state(), final(self).files()) == contents(
                    old(self).state(),
                    old(self).files(),
                ).insert(key@, value@),
                Err(e) => !acceptable(
                    old(self).state(),
                    old(self).files(),
                    key@,
                    value@,
                    now@,
                    later@,
                ) && final(self).state() == old(self).state() && final(self).files() == old(
                    self,
                ).files() && e is CorruptedDataError && e.data_view() == Some(
                    "the key, the value or the time is not fit to be stored"@,
                ),
            },
    {
        if !self.accepts(key, value, now, later) {
            return Err(Error::corrupted("the key, the value or the time is not fit to be stored"));
        }
        let ghost s = self.state();
        let ghost files = self.files();
        proof {
            // the key is new and goes to the memtable, or it can be read, so that its page can be had
            if has_key(s.index, key@) {
                assert(get_value(s, key@, files) is Some);
            }
            assert(set_succeeds(s, key@, now@, files));
            lemma_set_keeps_sound(s, files, key@, value@, now@, later@);
            lemma_set_keeps_listed(s, files, key@, value@, now@, later@);
            lemma_set_keeps_readable(s, files, key@, value@, now@, later@);
            lemma_set_is_insert(s, files, key@, value@, now@, later@);
        }
        match self.store.set_at(key, value, now, later, &self.disk) {
            Ok(actions) => {
                self.disk.apply_all(&actions);
            },
            Err(_) => {
                assert(false);
            },
        }
        Ok(())
    }

    /// One compaction cycle: the keys that have been marked for removal are
    /// removed from every segment of the folder.
    pub fn vacuum(&mut self)
        requires
            old(self).intact(),
        ensures
            final(self).intact(),
            final(self).is_opened() == old(self).is_opened(),
            final(self).state() == old(self).state(),
            final(self).files() == apply_actions(old(self).files(), vacuum_actions(old(self).files())),
            contents(final(self).state(), final(self).files()) == contents(
                old(self).state(),
                old(self).files(),
            ),
    {
        proof {
            lemma_vacuum_keeps_sound(self.state(), self.files());
            lemma_vacuum_keeps_listed(self.state(), self.files());
            lemma_vacuum_keeps_readable(self.state(), self.files());
            lemma_contents_are_kept(self.state(), self.files(), Seq::empty(), Seq::empty());
        }
        let actions = self.store.vacuum(&self.disk);
        self.disk.apply_all(&actions);
    }

    /// Loads a new store from the folder of the database, as a program does
    /// that opens the folder anew, with `now` as the name of a log that has
    /// to be created.
    pub fn restart_at(&mut self, now: &str)
        requires
            old(self).intact(),
        ensures
            final(self).intact(),
            final(self).is_opened() == old(self).is_opened(),
            final(self).files() == loaded_files(old(self).files(), now@),
            contents(final(self).state(), final(self).files()) == contents(
                old(self).state(),
                old(self).files(),
            ),
    {
        let ghost s = self.state();
        let ghost files = self.files();
        let mut store = Store::new(self.store.max_file_size());
        let ghost fresh = store.state();
        proof {
            assert forall|tk: Seq<char>| !cache_covers(fresh, tk) by {}
            lemma_restart_keeps_sound(s, fresh, files, now@);
            lemma_restart_keeps_readable(s, fresh, files, now@);
            lemma_restart_keeps_contents(s, fresh, files, now@);
            lemma_loaded_state(s, fresh, files, now@);
        }
        match store.load_at(&self.disk, now) {
            Ok(actions) => {
                self.disk.apply_all(&actions);
                proof {
                    lemma_apply_concat(
                        files,
                        scaffold_actions(files, now@),
                        vacuum_actions(apply_actions(files, scaffold_actions(files, now@))),
                    );
                }
                self.store = store;
            },
            Err(_) => {
                assert(false);
            },
        }
    }

    /// Removes every key and every value, with `now` as the name of the new
    /// log.
    ///
    /// Fails with `CorruptedDataError`, and changes nothing, where `now` is
    /// empty or does not come behind the name of the active log.
    pub fn clear_at(&mut self, now: &str) -> (result: Result<(), Error>)
        requires
            old(self).intact(),
        ensures
            final(self).intact(),
            final(self).is_opened() == old(self).is_opened(),
            match result {
                Ok(_) => now@.len() > 0 && lex_lt(old(self).state().current_log_file, now@)
                    && final(self).state() == after_clear(old(self).state(), now@) && contents(
                    final(self).state(),
                    final(self).files(),
                ) == Map::<Seq<char>, Seq<char>>::empty(),
                Err(e) => !(now@.len() > 0 && lex_lt(old(self).state().current_log_file, now@))
                    && final(self).state() == old(self).state() && final(self).files() == old(
                    self,
                ).files() && e is CorruptedDataError && e.data_view() == Some(
                    "the time is not fit to name a log"@,
                ),
            },
    {
        let name = chars_of(now);
        if name.len() == 0 || !str_lt(self.store.current_log_file().as_str(), now) {
            return Err(Error::corrupted("the time is not fit to name a log"));
        }
        let ghost s = self.state();
        let ghost files = self.files();
        let ghost emptied = StoreState { index: Seq::empty(), ..s };
        proof {
            lemma_clear_keeps_sound(s, files, now@);
            assert forall|k: Seq<char>| #[trigger]
                in_range(emptied.cache_start, emptied.cache_end, k) implies lex_lt(k, now@) by {
                assert(lex_lt(k, s.current_log_file));
                lemma_lex_strict(k, s.current_log_file, s.current_log_file);
                lemma_lex_strict(s.current_log_file, now@, now@);
                lemma_lex_strict(k, s.current_log_file, now@);
            }
            lemma_empty_database_is_sound(emptied, now@);
            lemma_empty_database_holds_nothing(emptied, now@);
            lemma_apply_concat(files, seq![ActionView::RemoveAll], load_actions(Seq::empty(), now@));
            lemma_apply_few(files, ActionView::RemoveAll, ActionView::RemoveAll);
            lemma_apply_concat(
                Seq::empty(),
                scaffold_actions(Seq::empty(), now@),
                vacuum_actions(apply_actions(Seq::empty(), scaffold_actions(Seq::empty(), now@))),
            );
        }
        let actions = self.store.clear_at(now);
        self.disk.apply_all(&actions);
        proof {
            assert forall|key: Seq<char>| !has_key(self.state().index, key) by {
                if has_key(self.state().index, key) {
                    let i = position_of(self.state().index, key);
                }
            }
        }
        Ok(())
    }
}

impl Controller for Database {
    open spec fn wf(&self) -> bool {
        self.intact()
    }

    open spec fn contents(&self) -> Map<Seq<char>, Seq<char>> {
        contents(self.state(), self.files())
    }

    open spec fn opened(&self) -> bool {
        self.is_opened()
    }

    fn open(&mut self) -> (result: Result<(), Error>) {
        self.is_open = true;
        Ok(())
    }

    fn close(&mut self) -> (result: Result<(), Error>) {
        self.is_open = false;
        Ok(())
    }

    fn set(&mut self, key: &str, value: &str) -> (result: Result<(), Error>) {
        let now = match get_current_timestamp_str() {
            Ok(t) => t,
            Err(e) => {
                return Err(e);
            },
        };
        let mut later = match get_current_timestamp_str() {
            Ok(t) => t,
            Err(e) => {
                return Err(e);
            },
        };
        // the second timestamp has to come behind the first: the clock is read until it has moved on
        let mut tries: usize = 0;
        while tries < 1000 && !str_lt(now.as_str(), later.as_str())
            invariant
                tries <= 1000,
                self.intact(),
                self.state() == old(self).state(),
                self.files() == old(self).files(),
                self.is_opened() == old(self).is_opened(),
            decreases 1000 - tries,
        {
            later = match get_current_timestamp_str() {
                Ok(t) => t,
                Err(e) => {
                    return Err(e);
                },
            };
            tries += 1;
        }
        self.set_at(key, value, now.as_str(), later.as_str())
    }

    fn get(&mut self, key: &str) -> (result: Result<String, Error>) {
        proof {
            lemma_get_keeps_sound(self.state(), self.files(), key@);
            lemma_get_keeps_readable(self.state(), self.files(), key@);
            lemma_contents_are_kept(self.state(), self.files(), key@, Seq::empty());
        }
        self.store.get(key, &self.disk)
    }

    fn delete(&mut self, key: &str) -> (result: Result<(), Error>) {
        let ghost s = self.state();
        let ghost files = self.files();
        proof {
            if has_key(s.index, key@) {
                lemma_delete_keeps_sound(s, files, key@);
                lemma_delete_keeps_listed(s, files, key@);
                lemma_delete_keeps_readable(s, files, key@);
                lemma_delete_is_remove(s, files, key@);
                assert(get_value(s, key@, files) is Some);
            }
        }
        match self.store.delete(key) {
            Ok(actions) => {
                self.disk.apply_all(&actions);
                Ok(())
            },
            Err(e) => Err(e),
        }
    }

    fn clear(&mut self) -> (result: Result<(), Error>) {
        let now = match get_current_timestamp_str() {
            Ok(t) => t,
            Err(e) => {
                return Err(e);
            },
        };
        self.clear_at(now.as_str())
    }
}

} // verus!
