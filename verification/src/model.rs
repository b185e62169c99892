//! What the store does, as mathematics sees it: the state of a store, and for
//! every operation the state that it leaves and the file actions that it asks
//! for.
//!
//! The functions of this module are the contracts of the operations of
//! [`crate::store::Store`], and what the invariant and the guarantees of the
//! database are proved of.

use vstd::prelude::*;
use crate::cache::in_range;
use crate::constants::{token_sep, DATA_FILE_EXT, DEL_FILENAME, INDEX_FILENAME, LOG_FILE_EXT};
use crate::disk::{apply_action, apply_actions, content_of, ActionView};
use crate::entries::{
    has_key, parse_entries, position_of, serialize, token_of, upsert, value_of, without, Pair,
};
use crate::text::{byte_len, lex_le};
use crate::tokens::{tokens, trim_end};
use crate::utils::{all_pairs, bases_with_extension, has_extension, without_keys};

verus! {

/// What a store holds, as mathematics sees it.
pub struct StoreState {
    /// The index: user key to timestamped key.
    pub index: Seq<Pair>,
    /// The memtable: timestamped key to value, for the keys of the active
    /// log.
    pub memtable: Seq<Pair>,
    /// The cached page: timestamped key to value, for the keys of one
    /// immutable segment.
    pub cache: Seq<Pair>,
    /// The first bound of the cached page.
    pub cache_start: Seq<char>,
    /// The second bound of the cached page.
    pub cache_end: Seq<char>,
    /// The base names of the immutable segments.
    pub data_files: Seq<Seq<char>>,
    /// The base name of the active log.
    pub current_log_file: Seq<char>,
    /// The size in bytes from which on the active log is rolled.
    pub max_file_size: nat,
}

/// The name of the file with the given base name and extension.
pub open spec fn name_of(base: Seq<char>, ext: Seq<char>) -> Seq<char> {
    base + seq!['.'] + ext
}

/// The name of the log file with the given base name.
pub open spec fn log_name(base: Seq<char>) -> Seq<char> {
    name_of(base, LOG_FILE_EXT@)
}

/// The name of the data file with the given base name.
pub open spec fn data_name(base: Seq<char>) -> Seq<char> {
    name_of(base, DATA_FILE_EXT@)
}

/// The timestamped key made of a timestamp and a user key.
pub open spec fn stamped(timestamp: Seq<char>, key: Seq<char>) -> Seq<char> {
    timestamp + seq!['-'] + key
}

/// The timestamped key of a user key: the one that the index holds, or a
/// new one made of the timestamp `now`.
pub open spec fn timestamped_key_of(s: StoreState, key: Seq<char>, now: Seq<char>) -> Seq<char> {
    if has_key(s.index, key) {
        value_of(s.index, key)
    } else {
        stamped(now, key)
    }
}

/// Whether the value of the timestamped key lives in the memtable: the key
/// does not come before the name of the active log.
pub open spec fn in_memtable(s: StoreState, tk: Seq<char>) -> bool {
    lex_le(s.current_log_file, tk)
}

/// The first pair of neighbours in `timestamps`, from position `i` on,
/// between which the key lies.
pub open spec fn range_from(timestamps: Seq<Seq<char>>, tk: Seq<char>, i: int) -> Option<
    (Seq<char>, Seq<char>),
>
    decreases timestamps.len() - i,
{
    if i < 0 || i + 1 >= timestamps.len() {
        None
    } else if in_range(timestamps[i], timestamps[i + 1], tk) {
        Some((timestamps[i], timestamps[i + 1]))
    } else {
        range_from(timestamps, tk, i + 1)
    }
}

/// The bounds of the immutable segment that holds the timestamped key: the
/// name of a data file that does not come after the key, and the name of the
/// next data file, or of the active log behind the last one, which does.
pub open spec fn segment_range(s: StoreState, tk: Seq<char>) -> Option<(Seq<char>, Seq<char>)> {
    range_from(s.data_files.push(s.current_log_file), tk, 0)
}

/// Whether the cached page covers the timestamped key.
pub open spec fn cache_covers(s: StoreState, tk: Seq<char>) -> bool {
    in_range(s.cache_start, s.cache_end, tk)
}

/// Whether the page of the timestamped key can be had: it is the cached
/// page, or the folder holds the data file of the key's segment.
pub open spec fn page_available(s: StoreState, tk: Seq<char>, files: Seq<Pair>) -> bool {
    cache_covers(s, tk) || (segment_range(s, tk) matches Some(range) && has_key(
        files,
        data_name(range.0),
    ))
}

/// The store with the page of the timestamped key in its cache. Where the
/// cached page does not cover the key, the data file of the key's segment is
/// read from the folder.
pub open spec fn with_page(s: StoreState, tk: Seq<char>, files: Seq<Pair>) -> StoreState {
    if cache_covers(s, tk) || !page_available(s, tk, files) {
        s
    } else {
        let range = segment_range(s, tk).unwrap();
        StoreState {
            cache: parse_entries(value_of(files, data_name(range.0))),
            cache_start: range.0,
            cache_end: range.1,
            ..s
        }
    }
}

/// The name of the file that has to be read from the folder before the
/// value of the timestamped key can be reached: the data file of the key's
/// segment, where the key lives in an immutable segment that the cached page
/// does not cover.
pub open spec fn needed_file(s: StoreState, tk: Seq<char>) -> Option<Seq<char>> {
    if in_memtable(s, tk) || cache_covers(s, tk) {
        None
    } else {
        match segment_range(s, tk) {
            Some(range) => Some(data_name(range.0)),
            None => None,
        }
    }
}

/// The value that `get` finds for the user key, where it finds one.
pub open spec fn get_value(s: StoreState, key: Seq<char>, files: Seq<Pair>) -> Option<Seq<char>> {
    if !has_key(s.index, key) {
        None
    } else {
        let tk = value_of(s.index, key);
        if in_memtable(s, tk) {
            if has_key(s.memtable, tk) {
                Some(value_of(s.memtable, tk))
            } else {
                None
            }
        } else if page_available(s, tk, files) && has_key(with_page(s, tk, files).cache, tk) {
            Some(value_of(with_page(s, tk, files).cache, tk))
        } else {
            None
        }
    }
}

/// The store after `get`: the page of the key has come into the cache where
/// the key is indexed, lives in an immutable segment, and its page can be
/// had.
pub open spec fn after_get(s: StoreState, key: Seq<char>, files: Seq<Pair>) -> StoreState {
    if has_key(s.index, key) && !in_memtable(s, value_of(s.index, key)) {
        with_page(s, value_of(s.index, key), files)
    } else {
        s
    }
}

/// What the payload of the error of a failed `get` says, where the key is
/// indexed.
pub open spec fn get_failure(s: StoreState, key: Seq<char>, files: Seq<Pair>) -> Seq<char> {
    let tk = value_of(s.index, key);
    if in_memtable(s, tk) || page_available(s, tk, files) {
        "error getting value: "@ + (tk + " not found"@)
    } else {
        "error getting value: "@ + ("corrupted: "@ + tk)
    }
}

/// The names sorted by [`lex_le`], after `name` has been put behind the last
/// name that does not come after it.
pub open spec fn insert_sorted(names: Seq<Seq<char>>, name: Seq<char>) -> Seq<Seq<char>>
    decreases names.len(),
{
    if names.len() == 0 {
        seq![name]
    } else if lex_le(names.last(), name) {
        names.push(name)
    } else {
        insert_sorted(names.drop_last(), name).push(names.last())
    }
}

/// The names, sorted by [`lex_le`].
pub open spec fn sort_names(names: Seq<Seq<char>>) -> Seq<Seq<char>>
    decreases names.len(),
{
    if names.len() == 0 {
        Seq::empty()
    } else {
        insert_sorted(sort_names(names.drop_last()), names.last())
    }
}

/// Whether the active log is rolled after its content has become `content`.
pub open spec fn rolls(s: StoreState, content: Seq<char>) -> bool {
    byte_len(content) >= s.max_file_size
}

/// The store after the active log has been rolled: the memtable is empty,
/// the old log is one of the data files, and the new log has the name
/// `later`.
pub open spec fn rolled(s: StoreState, later: Seq<char>) -> StoreState {
    StoreState {
        memtable: Seq::empty(),
        data_files: insert_sorted(s.data_files, s.current_log_file),
        current_log_file: later,
        ..s
    }
}

/// The file actions of a roll: the log file becomes a data file of the same
/// base name, and a new log file is created.
pub open spec fn roll_actions(s: StoreState, later: Seq<char>) -> Seq<ActionView> {
    seq![
        ActionView::Rename { from: log_name(s.current_log_file), to: data_name(s.current_log_file) },
        ActionView::Create { name: log_name(later) },
    ]
}

/// The file action that records a new key in the index file, where the key
/// is new.
pub open spec fn index_actions(s: StoreState, key: Seq<char>, now: Seq<char>) -> Seq<ActionView> {
    if has_key(s.index, key) {
        Seq::empty()
    } else {
        seq![
            ActionView::Append {
                name: INDEX_FILENAME@,
                content: token_of(Pair { key, value: stamped(now, key) }),
            },
        ]
    }
}

/// The index after `set`: a key that is new stands at its end, with its
/// timestamped key.
pub open spec fn index_after_set(s: StoreState, key: Seq<char>, now: Seq<char>) -> Seq<Pair> {
    if has_key(s.index, key) {
        s.index
    } else {
        s.index.push(Pair { key, value: stamped(now, key) })
    }
}

/// The store after a value has been saved under a timestamped key that
/// lives in the memtable: the memtable holds the value, and the active log
/// has been rolled where its content has grown too big.
pub open spec fn after_memtable_save(
    s: StoreState,
    tk: Seq<char>,
    value: Seq<char>,
    later: Seq<char>,
) -> StoreState {
    let memtable = upsert(s.memtable, tk, value);
    let written = StoreState { memtable, ..s };
    if rolls(s, serialize(memtable)) {
        rolled(written, later)
    } else {
        written
    }
}

/// The file actions of a save to the memtable: the log file is written
/// anew, and rolled where it has grown too big.
pub open spec fn memtable_save_actions(
    s: StoreState,
    tk: Seq<char>,
    value: Seq<char>,
    later: Seq<char>,
) -> Seq<ActionView> {
    let content = serialize(upsert(s.memtable, tk, value));
    let write = seq![ActionView::Write { name: log_name(s.current_log_file), content }];
    if rolls(s, content) {
        write + roll_actions(s, later)
    } else {
        write
    }
}

/// The store after a value has been saved under a timestamped key that
/// lives in an immutable segment whose page can be had: the page is in the
/// cache and holds the value.
pub open spec fn after_cache_save(
    s: StoreState,
    tk: Seq<char>,
    value: Seq<char>,
    files: Seq<Pair>,
) -> StoreState {
    let paged = with_page(s, tk, files);
    StoreState { cache: upsert(paged.cache, tk, value), ..paged }
}

/// The file action of a save to the cache: the data file of the page is
/// written anew.
pub open spec fn cache_save_actions(
    s: StoreState,
    tk: Seq<char>,
    value: Seq<char>,
    files: Seq<Pair>,
) -> Seq<ActionView> {
    let paged = with_page(s, tk, files);
    seq![
        ActionView::Write {
            name: data_name(paged.cache_start),
            content: serialize(upsert(paged.cache, tk, value)),
        },
    ]
}

/// Whether a value can be saved under the timestamped key: the key lives
/// in the memtable, or its page can be had.
pub open spec fn can_save(s: StoreState, tk: Seq<char>, files: Seq<Pair>) -> bool {
    in_memtable(s, tk) || page_available(s, tk, files)
}

/// The store after a value has been saved under a timestamped key. Where
/// the value cannot be saved, nothing is changed.
pub open spec fn after_save(
    s: StoreState,
    tk: Seq<char>,
    value: Seq<char>,
    later: Seq<char>,
    files: Seq<Pair>,
) -> StoreState {
    if in_memtable(s, tk) {
        after_memtable_save(s, tk, value, later)
    } else if page_available(s, tk, files) {
        after_cache_save(s, tk, value, files)
    } else {
        s
    }
}

/// The file actions of a save.
pub open spec fn save_actions(
    s: StoreState,
    tk: Seq<char>,
    value: Seq<char>,
    later: Seq<char>,
    files: Seq<Pair>,
) -> Seq<ActionView> {
    if in_memtable(s, tk) {
        memtable_save_actions(s, tk, value, later)
    } else {
        cache_save_actions(s, tk, value, files)
    }
}

/// Whether `set` succeeds: the value goes to the memtable, or the page of
/// the key can be had.
pub open spec fn set_succeeds(s: StoreState, key: Seq<char>, now: Seq<char>, files: Seq<Pair>) -> bool {
    can_save(s, timestamped_key_of(s, key, now), files)
}

/// The store after `set`: the value is saved under the timestamped key of
/// the user key, and a key that is new is in the index. A failed `set`
/// changes nothing.
pub open spec fn after_set(
    s: StoreState,
    key: Seq<char>,
    value: Seq<char>,
    now: Seq<char>,
    later: Seq<char>,
    files: Seq<Pair>,
) -> StoreState {
    let tk = timestamped_key_of(s, key, now);
    if can_save(s, tk, files) {
        StoreState { index: index_after_set(s, key, now), ..after_save(s, tk, value, later, files) }
    } else {
        s
    }
}

/// The file actions of a `set` that succeeds: a new key is added to the
/// index file; then the log file is written anew and rolled where it has
/// grown too big, or the data file of the key's segment is written anew.
pub open spec fn set_actions(
    s: StoreState,
    key: Seq<char>,
    value: Seq<char>,
    now: Seq<char>,
    later: Seq<char>,
    files: Seq<Pair>,
) -> Seq<ActionView> {
    index_actions(s, key, now) + save_actions(
        s,
        timestamped_key_of(s, key, now),
        value,
        later,
        files,
    )
}

/// The store after `delete`: the key has left the index.
pub open spec fn after_delete(s: StoreState, key: Seq<char>) -> StoreState {
    StoreState { index: without(s.index, key), ..s }
}

/// The file actions of a `delete` that succeeds: the index file is written
/// anew without the key, and the timestamped key is added to the tombstone
/// file.
pub open spec fn delete_actions(s: StoreState, key: Seq<char>) -> Seq<ActionView> {
    seq![
        ActionView::Write { name: INDEX_FILENAME@, content: serialize(without(s.index, key)) },
        ActionView::Append { name: DEL_FILENAME@, content: value_of(s.index, key) + token_sep() },
    ]
}

/// The names of the files of a folder, in the order of the folder.
pub open spec fn names_of(files: Seq<Pair>) -> Seq<Seq<char>> {
    Seq::new(files.len(), |i: int| files[i].key)
}

/// Whether a file is a segment: a log file or a data file.
pub open spec fn is_segment(name: Seq<char>) -> bool {
    has_extension(name, LOG_FILE_EXT@) || has_extension(name, DATA_FILE_EXT@)
}

/// For every segment of the folder, in the order of the folder, the action
/// that writes it anew without the tokens of the given keys.
pub open spec fn segment_rewrites(files: Seq<Pair>, keys: Seq<Seq<char>>) -> Seq<ActionView>
    decreases files.len(),
{
    if files.len() == 0 {
        Seq::empty()
    } else {
        let rest = segment_rewrites(files.drop_last(), keys);
        if is_segment(files.last().key) {
            rest.push(
                ActionView::Write {
                    name: files.last().key,
                    content: without_keys(files.last().value, keys),
                },
            )
        } else {
            rest
        }
    }
}

/// The timestamped keys that the tombstone file of the folder holds.
pub open spec fn tombstones(files: Seq<Pair>) -> Seq<Seq<char>> {
    tokens(content_of(files, DEL_FILENAME@))
}

/// The file actions of one compaction cycle. Where the tombstone file
/// holds no key there is none. Else every segment is written anew without
/// the tokens of the tombstoned keys, and the tombstone file is emptied.
pub open spec fn vacuum_actions(files: Seq<Pair>) -> Seq<ActionView> {
    if tombstones(files).len() == 0 {
        Seq::empty()
    } else {
        segment_rewrites(files, tombstones(files)).push(
            ActionView::Write { name: DEL_FILENAME@, content: Seq::empty() },
        )
    }
}

/// The last of the names that none of the others comes after.
pub open spec fn largest(names: Seq<Seq<char>>) -> Seq<char>
    decreases names.len(),
{
    if names.len() == 0 {
        Seq::empty()
    } else if names.len() == 1 {
        names[0]
    } else {
        let rest = largest(names.drop_last());
        if lex_le(rest, names.last()) {
            names.last()
        } else {
            rest
        }
    }
}

/// The file actions that give a folder the files that a database needs: the
/// index file, the tombstone file, and a log file, named after the timestamp
/// `now`, where the folder has none.
pub open spec fn scaffold_actions(files: Seq<Pair>, now: Seq<char>) -> Seq<ActionView> {
    let needed = seq![
        ActionView::Create { name: INDEX_FILENAME@ },
        ActionView::Create { name: DEL_FILENAME@ },
    ];
    if bases_with_extension(names_of(files), LOG_FILE_EXT@).len() == 0 {
        needed.push(ActionView::Create { name: log_name(now) })
    } else {
        needed
    }
}

/// The file actions of `load`: the folder gets the files that it lacks,
/// then one compaction cycle runs.
pub open spec fn load_actions(files: Seq<Pair>, now: Seq<char>) -> Seq<ActionView> {
    scaffold_actions(files, now) + vacuum_actions(
        apply_actions(files, scaffold_actions(files, now)),
    )
}

/// The folder after the file actions of `load`.
pub open spec fn loaded_files(files: Seq<Pair>, now: Seq<char>) -> Seq<Pair> {
    apply_actions(
        apply_actions(files, scaffold_actions(files, now)),
        vacuum_actions(apply_actions(files, scaffold_actions(files, now))),
    )
}

/// Whether `load` succeeds: every token of the index file is a key-value
/// pair.
pub open spec fn load_succeeds(files: Seq<Pair>, now: Seq<char>) -> bool {
    all_pairs(tokens(content_of(loaded_files(files, now), INDEX_FILENAME@)))
}

/// The store after the names of the files of a folder have been read: the
/// data files are the base names of the files with the data extension,
/// sorted, and the active log is the largest base name of the files with the
/// log extension, where there is one.
pub open spec fn with_file_props(s: StoreState, names: Seq<Seq<char>>) -> StoreState {
    let logs = bases_with_extension(names, LOG_FILE_EXT@);
    StoreState {
        data_files: sort_names(bases_with_extension(names, DATA_FILE_EXT@)),
        current_log_file: if logs.len() == 0 {
            s.current_log_file
        } else {
            largest(logs)
        },
        ..s
    }
}

/// The store after a `load` that succeeds: segments and active log are
/// those of the folder, the index is that of the index file, and the
/// memtable is that of the file of the active log. The cache stays as it is.
pub open spec fn after_load(s: StoreState, files: Seq<Pair>, now: Seq<char>) -> StoreState {
    let folder = loaded_files(files, now);
    let named = with_file_props(s, names_of(folder));
    StoreState {
        index: parse_entries(content_of(folder, INDEX_FILENAME@)),
        memtable: parse_entries(content_of(folder, log_name(named.current_log_file))),
        ..named
    }
}

/// The file actions of `clear`: every file is removed, and the folder gets
/// the files of an empty database anew.
pub open spec fn clear_actions(now: Seq<char>) -> Seq<ActionView> {
    seq![ActionView::RemoveAll] + load_actions(Seq::empty(), now)
}

/// The store after `clear`: the index is empty, and the rest is loaded from
/// the folder of an empty database.
pub open spec fn after_clear(s: StoreState, now: Seq<char>) -> StoreState {
    after_load(StoreState { index: Seq::empty(), ..s }, Seq::empty(), now)
}

/// Every file of the folder is empty.
pub open spec fn all_empty(files: Seq<Pair>) -> bool {
    forall|i: int| 0 <= i < files.len() ==> (#[trigger] files[i]).value == Seq::<char>::empty()
}

/// Creating a file in a folder of empty files leaves a folder of empty
/// files.
proof fn lemma_create_keeps_empty(files: Seq<Pair>, name: Seq<char>)
    requires
        all_empty(files),
    ensures
        all_empty(apply_action(files, ActionView::Create { name })),
{
}

/// In a folder of empty files every content is empty.
proof fn lemma_empty_content(files: Seq<Pair>, name: Seq<char>)
    requires
        all_empty(files),
    ensures
        content_of(files, name) == Seq::<char>::empty(),
{
    if has_key(files, name) {
        let p = position_of(files, name);
        assert(files[p].value == Seq::<char>::empty());
    }
}

/// Loading from an empty folder succeeds.
pub proof fn lemma_load_succeeds_on_empty(now: Seq<char>)
    ensures
        load_succeeds(Seq::empty(), now),
{
    let none = Seq::<Pair>::empty();
    let scaffold = scaffold_actions(none, now);
    assert(names_of(none) =~= Seq::<Seq<char>>::empty());
    assert(scaffold.len() == 3);
    let a0 = none;
    assert(scaffold.drop_last().drop_last().drop_last() =~= Seq::<ActionView>::empty());
    assert(apply_actions(a0, scaffold.drop_last().drop_last().drop_last()) == a0);
    let a1 = apply_actions(a0, scaffold.drop_last().drop_last());
    lemma_create_keeps_empty(a0, INDEX_FILENAME@);
    assert(scaffold.drop_last().drop_last().last() == scaffold[0]);
    assert(all_empty(a1));
    let a2 = apply_actions(a0, scaffold.drop_last());
    assert(scaffold.drop_last().last() == scaffold[1]);
    lemma_create_keeps_empty(a1, DEL_FILENAME@);
    assert(all_empty(a2));
    let a3 = apply_actions(a0, scaffold);
    lemma_create_keeps_empty(a2, log_name(now));
    assert(all_empty(a3));
    lemma_empty_content(a3, DEL_FILENAME@);
    assert(trim_end(Seq::<char>::empty(), token_sep()) =~= Seq::<char>::empty());
    assert(tombstones(a3).len() == 0);
    assert(vacuum_actions(a3) =~= Seq::<ActionView>::empty());
    assert(loaded_files(none, now) == a3);
    lemma_empty_content(a3, INDEX_FILENAME@);
    assert(tokens(Seq::<char>::empty()).len() == 0);
}

} // verus!
