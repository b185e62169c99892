//! The invariant of the database: what holds of a store and its folder
//! after every operation, and makes the guarantees of the engine hold of
//! every state that the database can reach.
//!
//! A database is [`sound`] where the folder follows the store: the index
//! file holds the index, the file of the active log and the data files say
//! of every live key what the memtable and the cached page say, no live key
//! is among the tombstones, and the segments are in order. Its files are
//! [`listed`] where the store knows every segment of the folder. An empty
//! database is sound, and `get`, `set`, `delete`, the compaction, the roll,
//! `clear` and a restart keep a database sound. What `set` asks of its
//! arguments for that is said by [`set_is_proper`] and [`roll_is_proper`]:
//! no separator in keys and values, and timestamps that are fresh.

use vstd::prelude::*;
use crate::cache::in_range;
use crate::compaction::{
    among, compacted, lemma_removal_keeps_the_rest, lemma_removal_spares, lemma_rewrites_upto,
    lemma_serialization_well_written, lemma_vacuum_file, lemma_vacuum_folder,
    lemma_vacuum_keeps_names, lemma_vacuum_spares, well_written,
};
use crate::constants::{
    kv_sep, token_sep, DATA_FILE_EXT, DEL_FILENAME, INDEX_FILENAME, LOG_FILE_EXT,
};
use crate::disk::{
    apply_action, apply_actions, lemma_apply_action_map, lemma_apply_concat, lemma_apply_few,
    lemma_other_file, lemma_written_file, ActionView,
};
use crate::entries::{
    distinct_keys, has_key, lemma_entries_of_tokens_distinct, lemma_map_facts, lemma_position,
    lemma_push_entry, lemma_upsert, lemma_without, parse_entries, position_of, serialize, upsert,
    value_of, without, Pair,
};
use crate::listing::{
    lemma_bases_has, lemma_bases_push, lemma_bases_remove, lemma_extensions,
    lemma_index_is_no_segment, lemma_name_listed, lemma_name_parts, lemma_names_apart,
    lemma_names_created, lemma_names_kept, lemma_names_renamed, lemma_sort_has,
};
use crate::model::{
    after_clear, after_delete, after_get, after_load, after_set, cache_covers, clear_actions,
    data_name, delete_actions, in_memtable, index_actions, index_after_set, largest,
    lemma_load_succeeds_on_empty, load_actions, load_succeeds, loaded_files, log_name, names_of,
    page_available, range_from, roll_actions, rolled, rolls, scaffold_actions, segment_range,
    set_actions, set_succeeds, sort_names, stamped, timestamped_key_of, tombstones,
    vacuum_actions, with_page, StoreState,
};
use crate::roundtrip::{
    clean, lemma_match_chars, lemma_match_shift, lemma_parse_serialize, lemma_separator_shapes,
    lemma_tight_from_free, lemma_tokens_of_join, lemma_tokens_of_serialization, tight,
};
use crate::segments::{
    lemma_insert_behind, lemma_range_extend, lemma_range_holds_key, lemma_range_unique, ordered,
    strictly_sorted,
};
use crate::text::{decimal, lemma_lex_reflexive, lemma_lex_strict, lemma_lex_total, lex_lt};
use crate::tokens::{free_of, join, lemma_join_push, matches_at, tokens, trim_end};
use crate::utils::{bases_with_extension, is_decimal};

verus! {

/// No key stands twice in the index, in the memtable or in the cached page.
pub open spec fn keys_distinct(s: StoreState) -> bool {
    distinct_keys(s.index) && distinct_keys(s.memtable) && distinct_keys(s.cache)
}

/// The text holds no separator.
pub open spec fn clean_text(t: Seq<char>) -> bool {
    free_of(t, kv_sep()) && free_of(t, token_sep())
}

/// The timestamped key is that of a key of the index.
pub open spec fn live(s: StoreState, tk: Seq<char>) -> bool {
    exists|key: Seq<char>| has_key(s.index, key) && #[trigger] value_of(s.index, key) == tk
}

/// The two runs of entries say the same of the key: both lack it, or both
/// give it the same value.
pub open spec fn agree(a: Seq<Pair>, b: Seq<Pair>, key: Seq<char>) -> bool {
    has_key(a, key) == has_key(b, key) && (has_key(a, key) ==> value_of(a, key) == value_of(b, key))
}

/// The content is the text of its tokens, none of which is empty or holds
/// the token separator at a place where a reader would cut it.
pub open spec fn tidy(content: Seq<char>) -> bool {
    &&& content == join(tokens(content))
    &&& forall|i: int|
        0 <= i < tokens(content).len() ==> tight(#[trigger] tokens(content)[i], token_sep())
            && tokens(content)[i].len() > 0
}

/// No two entries have the same value, and no value is empty.
pub open spec fn injective(entries: Seq<Pair>) -> bool {
    &&& forall|i: int, j: int|
        0 <= i < j < entries.len() ==> (#[trigger] entries[i]).value != (
        #[trigger] entries[j]).value
    &&& forall|i: int| 0 <= i < entries.len() ==> (#[trigger] entries[i]).value.len() > 0
}

/// The index file holds the serialization of the index, no key and no
/// timestamped key of which holds a separator, and no two keys of which
/// have one timestamped key.
pub open spec fn index_sound(s: StoreState, files: Seq<Pair>) -> bool {
    &&& has_key(files, INDEX_FILENAME@)
    &&& value_of(files, INDEX_FILENAME@) == serialize(s.index)
    &&& clean(s.index)
    &&& injective(s.index)
}

/// The tombstone file is there and tidy, and none of its timestamped keys
/// is that of a key of the index.
pub open spec fn tombstones_sound(s: StoreState, files: Seq<Pair>) -> bool {
    &&& has_key(files, DEL_FILENAME@)
    &&& tidy(value_of(files, DEL_FILENAME@))
    &&& forall|key: Seq<char>| #[trigger]
        has_key(s.index, key) ==> !among(tombstones(files), value_of(s.index, key))
}

/// The file of the active log is well written and says of every live key
/// of the memtable what the memtable says.
pub open spec fn log_sound(s: StoreState, files: Seq<Pair>) -> bool {
    &&& has_key(files, log_name(s.current_log_file))
    &&& well_written(value_of(files, log_name(s.current_log_file)))
    &&& clean(s.memtable)
    &&& forall|tk: Seq<char>|
        live(s, tk) && in_memtable(s, tk) ==> #[trigger] agree(
            parse_entries(value_of(files, log_name(s.current_log_file))),
            s.memtable,
            tk,
        )
}

/// Every data file of the folder is well written.
pub open spec fn data_sound(files: Seq<Pair>) -> bool {
    forall|base: Seq<char>|
        has_key(files, #[trigger] data_name(base)) ==> well_written(
            value_of(files, data_name(base)),
        )
}

/// The cached page is the page of the live keys that it covers: its bounds
/// are those of their segment, whose data file says of them what the page
/// says.
pub open spec fn cache_sound(s: StoreState, files: Seq<Pair>) -> bool {
    &&& clean(s.cache)
    &&& forall|tk: Seq<char>| #[trigger]
        cache_covers(s, tk) && live(s, tk) ==> segment_range(s, tk) == Some(
            (s.cache_start, s.cache_end),
        ) && has_key(files, data_name(s.cache_start)) && agree(
            parse_entries(value_of(files, data_name(s.cache_start))),
            s.cache,
            tk,
        )
}

/// The segments are in order: the data files are sorted, all of them come
/// before the active log, which has a name, and so does every key that the
/// cached page covers.
pub open spec fn segments_sound(s: StoreState) -> bool {
    &&& ordered(s)
    &&& strictly_sorted(s.data_files)
    &&& s.current_log_file.len() > 0
}

/// The invariant of the database.
pub open spec fn sound(s: StoreState, files: Seq<Pair>) -> bool {
    &&& keys_distinct(s)
    &&& distinct_keys(files)
    &&& index_sound(s, files)
    &&& tombstones_sound(s, files)
    &&& log_sound(s, files)
    &&& data_sound(files)
    &&& cache_sound(s, files)
    &&& segments_sound(s)
}

/// The files of the folder are those that the store knows: the one log
/// file is that of the active log, and the data files are those of the
/// immutable segments.
pub open spec fn listed(s: StoreState, files: Seq<Pair>) -> bool {
    &&& bases_with_extension(names_of(files), LOG_FILE_EXT@) == seq![s.current_log_file]
    &&& sort_names(bases_with_extension(names_of(files), DATA_FILE_EXT@)) == s.data_files
}

/// What `set` asks of its arguments: the key and the value hold no
/// separator, and where the key is new, its timestamped key holds none and
/// is fresh: it does not come before the name of the active log, is that of
/// no key of the index, and is not among the tombstones.
pub open spec fn set_is_proper(
    s: StoreState,
    files: Seq<Pair>,
    key: Seq<char>,
    value: Seq<char>,
    now: Seq<char>,
) -> bool {
    &&& clean_text(key)
    &&& clean_text(value)
    &&& !has_key(s.index, key) ==> {
        &&& clean_text(stamped(now, key))
        &&& in_memtable(s, stamped(now, key))
        &&& !live(s, stamped(now, key))
        &&& !among(tombstones(files), stamped(now, key))
    }
}

/// What `set` asks of the name of the log that a roll creates: it comes
/// behind the name of the active log, is not empty, and is the name of no
/// file of the folder yet.
pub open spec fn roll_is_proper(s: StoreState, files: Seq<Pair>, later: Seq<char>) -> bool {
    &&& lex_lt(s.current_log_file, later)
    &&& later.len() > 0
    &&& !has_key(files, log_name(later))
}

/// An empty database is sound, and its files are listed: the store that is
/// loaded from a folder without files, with the folder that the load has
/// made of it.
///
/// This holds where the name of the new log is not empty and the cached
/// page of the store, which the load leaves as it is, is clean and comes
/// before the new log.
pub proof fn lemma_empty_database_is_sound(fresh: StoreState, now: Seq<char>)
    requires
        now.len() > 0,
        distinct_keys(fresh.cache),
        clean(fresh.cache),
        forall|k: Seq<char>| #[trigger]
            in_range(fresh.cache_start, fresh.cache_end, k) ==> lex_lt(k, now),
    ensures
        load_succeeds(Seq::empty(), now),
        sound(after_load(fresh, Seq::empty(), now), loaded_files(Seq::empty(), now)),
        listed(after_load(fresh, Seq::empty(), now), loaded_files(Seq::empty(), now)),
        after_load(fresh, Seq::empty(), now) == (StoreState {
            index: Seq::empty(),
            memtable: Seq::empty(),
            data_files: Seq::empty(),
            current_log_file: now,
            ..fresh
        }),
{
    let none = Seq::<Pair>::empty();
    let folder = loaded_files(none, now);
    let after = after_load(fresh, none, now);
    lemma_load_of_nothing(now);
    lemma_load_succeeds_on_empty(now);
    lemma_names_apart(now, now);
    lemma_empty_is_well_written();
    lemma_empty_is_tidy();
    lemma_extensions();
    lemma_name_parts(now, LOG_FILE_EXT@);
    lemma_position(folder, INDEX_FILENAME@, 0);
    lemma_position(folder, DEL_FILENAME@, 1);
    lemma_position(folder, log_name(now), 2);
    // the listing
    let names = names_of(folder);
    assert(names =~= seq![INDEX_FILENAME@, DEL_FILENAME@, log_name(now)]);
    let n0 = Seq::<Seq<char>>::empty();
    let n1 = n0.push(INDEX_FILENAME@);
    let n2 = n1.push(DEL_FILENAME@);
    assert(names =~= n2.push(log_name(now)));
    lemma_bases_push(n0, INDEX_FILENAME@, LOG_FILE_EXT@);
    lemma_bases_push(n1, DEL_FILENAME@, LOG_FILE_EXT@);
    lemma_bases_push(n2, log_name(now), LOG_FILE_EXT@);
    lemma_bases_push(n0, INDEX_FILENAME@, DATA_FILE_EXT@);
    lemma_bases_push(n1, DEL_FILENAME@, DATA_FILE_EXT@);
    lemma_bases_push(n2, log_name(now), DATA_FILE_EXT@);
    assert(bases_with_extension(n0, LOG_FILE_EXT@) =~= Seq::<Seq<char>>::empty());
    assert(bases_with_extension(n0, DATA_FILE_EXT@) =~= Seq::<Seq<char>>::empty());
    assert(bases_with_extension(names, LOG_FILE_EXT@) =~= seq![now]);
    assert(bases_with_extension(names, DATA_FILE_EXT@) =~= Seq::<Seq<char>>::empty());
    assert(largest(seq![now]) == now);
    assert(after.current_log_file == now);
    assert(after.data_files =~= Seq::<Seq<char>>::empty());
    assert(after.index == Seq::<Pair>::empty());
    assert(after.memtable == Seq::<Pair>::empty());
    // no key is live, and no file is a data file
    assert forall|tk: Seq<char>| !live(after, tk) by {
        if live(after, tk) {
            let k = choose|k: Seq<char>|
                has_key(after.index, k) && #[trigger] value_of(after.index, k) == tk;
            let i = position_of(after.index, k);
        }
    }
    assert forall|key: Seq<char>| !has_key(after.index, key) by {
        if has_key(after.index, key) {
            let i = position_of(after.index, key);
        }
    }
    assert forall|base: Seq<char>| !has_key(folder, #[trigger] data_name(base)) by {
        lemma_names_apart(base, now);
        if has_key(folder, data_name(base)) {
            let i = position_of(folder, data_name(base));
            assert(folder[i].key == INDEX_FILENAME@ || folder[i].key == DEL_FILENAME@
                || folder[i].key == log_name(now));
        }
    }
    assert(serialize(Seq::<Pair>::empty()) =~= Seq::<char>::empty());
}

/// `get` keeps the database sound.
pub proof fn lemma_get_keeps_sound(s: StoreState, files: Seq<Pair>, key: Seq<char>)
    requires
        sound(s, files),
    ensures
        sound(after_get(s, key, files), files),
{
    let after = after_get(s, key, files);
    if after != s {
        let tk = value_of(s.index, key);
        let range = segment_range(s, tk).unwrap();
        let content = value_of(files, data_name(range.0));
        assert(well_written(content));
        lemma_entries_of_tokens_distinct(tokens(content));
        assert(after.index == s.index);
        assert forall|t: Seq<char>| live(after, t) == live(s, t) by {}
        assert forall|t: Seq<char>| #[trigger] cache_covers(after, t) && live(after, t) implies segment_range(
        after,
        t,
    ) == Some((after.cache_start, after.cache_end)) && has_key(files, data_name(after.cache_start)) && agree(
        parse_entries(value_of(files, data_name(after.cache_start))),
        after.cache,
        t,
    ) by {
            lemma_range_of_segment(s, tk, t);
            assert(segment_range(after, t) == segment_range(s, t));
        }
        assert forall|k: Seq<char>| #[trigger]
            in_range(after.cache_start, after.cache_end, k) implies lex_lt(
            k,
            after.current_log_file,
        ) by {
            lemma_range_of_segment(s, tk, k);
        }
        assert forall|t: Seq<char>| live(after, t) && in_memtable(after, t) implies #[trigger] agree(
            parse_entries(value_of(files, log_name(after.current_log_file))),
            after.memtable,
            t,
        ) by {
            assert(live(s, t) && in_memtable(s, t));
        }
    }
}

/// `set` keeps the database sound.
///
/// This holds where neither the key nor the value holds a separator, the
/// timestamped key of a key that is new is fresh, and the name of the log
/// that a roll creates is fresh.
pub proof fn lemma_set_keeps_sound(
    s: StoreState,
    files: Seq<Pair>,
    key: Seq<char>,
    value: Seq<char>,
    now: Seq<char>,
    later: Seq<char>,
)
    requires
        sound(s, files),
        set_is_proper(s, files, key, value, now),
        roll_is_proper(s, files, later),
    ensures
        sound(
            after_set(s, key, value, now, later, files),
            if set_succeeds(s, key, now, files) {
                apply_actions(files, set_actions(s, key, value, now, later, files))
            } else {
                files
            },
        ),
{
    let tk = timestamped_key_of(s, key, now);
    if in_memtable(s, tk) {
        let middle = written(s, key, value, now);
        let first = written_actions(s, key, value, now);
        lemma_memtable_write_keeps_sound(s, files, key, value, now);
        if rolls(s, serialize(middle.memtable)) {
            let folder = apply_actions(files, first);
            lemma_names_apart(later, s.current_log_file);
            lemma_names_apart(s.current_log_file, later);
            if log_name(later) == log_name(s.current_log_file) {
                lemma_lex_total(later, later);
            }
            assert(has_key(folder, log_name(later)) == has_key(files, log_name(later)));
            lemma_roll_keeps_sound(middle, folder, later);
            assert(set_actions(s, key, value, now, later, files) =~= first + roll_actions(
                s,
                later,
            ));
            assert(roll_actions(middle, later) == roll_actions(s, later));
            lemma_apply_concat(files, first, roll_actions(s, later));
            assert(after_set(s, key, value, now, later, files) == rolled(middle, later));
        } else {
            assert(set_actions(s, key, value, now, later, files) =~= first);
            assert(after_set(s, key, value, now, later, files) == middle);
        }
    } else if page_available(s, tk, files) {
        lemma_cache_write_keeps_sound(s, files, key, value, now, later);
    }
}

/// `set` keeps the files listed, where the name of the log that a roll
/// creates is fresh.
pub proof fn lemma_set_keeps_listed(
    s: StoreState,
    files: Seq<Pair>,
    key: Seq<char>,
    value: Seq<char>,
    now: Seq<char>,
    later: Seq<char>,
)
    requires
        sound(s, files),
        listed(s, files),
        set_is_proper(s, files, key, value, now),
        roll_is_proper(s, files, later),
    ensures
        listed(
            after_set(s, key, value, now, later, files),
            if set_succeeds(s, key, now, files) {
                apply_actions(files, set_actions(s, key, value, now, later, files))
            } else {
                files
            },
        ),
{
    let tk = timestamped_key_of(s, key, now);
    let cur = s.current_log_file;
    let indexing = index_actions(s, key, now);
    let first = apply_actions(files, indexing);
    lemma_index_step(s, files, key, value, now);
    // the index file is there, so that adding to it keeps the names
    if has_key(s.index, key) {
        assert(apply_actions(files, Seq::<ActionView>::empty()) == files);
    } else {
        lemma_apply_few(files, indexing[0], indexing[0]);
        assert(indexing =~= seq![indexing[0]]);
        lemma_names_kept(files, indexing[0]);
    }
    assert(names_of(first) == names_of(files));
    lemma_names_apart(cur, cur);
    if in_memtable(s, tk) {
        let middle = written(s, key, value, now);
        let write = ActionView::Write { name: log_name(cur), content: serialize(middle.memtable) };
        let writing = written_actions(s, key, value, now);
        let second = apply_actions(files, writing);
        lemma_apply_concat(files, indexing, seq![write]);
        lemma_apply_few(first, write, write);
        assert(has_key(first, log_name(cur)) == has_key(files, log_name(cur)));
        lemma_names_kept(first, write);
        assert(names_of(second) == names_of(files));
        assert(listed(middle, second));
        if rolls(s, serialize(middle.memtable)) {
            lemma_memtable_write_keeps_sound(s, files, key, value, now);
            lemma_names_apart(later, cur);
            if log_name(later) == log_name(cur) {
                lemma_lex_reflexive(cur);
            }
            assert(has_key(second, log_name(later)) == has_key(files, log_name(later)));
            lemma_roll_keeps_listed(middle, second, later);
            assert(set_actions(s, key, value, now, later, files) =~= writing + roll_actions(
                s,
                later,
            ));
            assert(roll_actions(middle, later) == roll_actions(s, later));
            lemma_apply_concat(files, writing, roll_actions(s, later));
            assert(after_set(s, key, value, now, later, files) == rolled(middle, later));
        } else {
            assert(set_actions(s, key, value, now, later, files) =~= writing);
            assert(after_set(s, key, value, now, later, files) == middle);
        }
    } else if page_available(s, tk, files) {
        let paged = with_page(s, tk, files);
        assert(has_key(s.index, key) && value_of(s.index, key) == tk);
        assert(live(s, tk));
        lemma_get_page_sound(s, files, tk);
        let name = data_name(paged.cache_start);
        let write = ActionView::Write { name, content: serialize(upsert(paged.cache, tk, value)) };
        assert(set_actions(s, key, value, now, later, files) =~= indexing + seq![write]);
        lemma_apply_concat(files, indexing, seq![write]);
        lemma_apply_few(first, write, write);
        lemma_names_apart(paged.cache_start, cur);
        assert(has_key(first, name) == has_key(files, name));
        lemma_names_kept(first, write);
    }
}

/// `delete` keeps the database sound.
pub proof fn lemma_delete_keeps_sound(s: StoreState, files: Seq<Pair>, key: Seq<char>)
    requires
        sound(s, files),
        has_key(s.index, key),
    ensures
        sound(after_delete(s, key), apply_actions(files, delete_actions(s, key))),
{
    let after = after_delete(s, key);
    let folder = apply_actions(files, delete_actions(s, key));
    let tk = value_of(s.index, key);
    lemma_delete_folder(s, files, key);
    lemma_without_keeps(s.index, key);
    lemma_without(s.index, key);
    let cur = s.current_log_file;
    lemma_names_apart(cur, cur);
    // the tombstone file
    let p = position_of(s.index, key);
    assert(s.index[p].value == tk);
    lemma_tidy_append(value_of(files, DEL_FILENAME@), tk);
    assert(tombstones(folder) == tombstones(files).push(tk));
    assert forall|k: Seq<char>| #[trigger] has_key(after.index, k) implies !among(
        tombstones(folder),
        value_of(after.index, k),
    ) by {
        lemma_among_push(tombstones(files), tk, value_of(after.index, k));
        assert(has_key(s.index, k));
        if value_of(s.index, k) == tk {
            lemma_injective(s.index, k, key);
        }
    }
    assert(has_key(folder, log_name(cur)) == has_key(files, log_name(cur)));
    assert(value_of(folder, log_name(cur)) == value_of(files, log_name(cur)));
    // whoever is live after the delete was live before
    assert forall|t: Seq<char>| live(after, t) implies live(s, t) by {
        let k = choose|k: Seq<char>| has_key(after.index, k) && #[trigger] value_of(after.index, k)
            == t;
        assert(has_key(s.index, k) && value_of(s.index, k) == t);
    }
    assert forall|t: Seq<char>| live(after, t) && in_memtable(after, t) implies #[trigger] agree(
        parse_entries(value_of(folder, log_name(cur))),
        after.memtable,
        t,
    ) by {
        assert(live(s, t) && in_memtable(s, t));
    }
    assert forall|base: Seq<char>| has_key(folder, #[trigger] data_name(base)) implies well_written(
        value_of(folder, data_name(base)),
    ) by {
        lemma_names_apart(base, base);
        assert(has_key(folder, data_name(base)) == has_key(files, data_name(base)));
    }
    assert forall|t: Seq<char>| #[trigger] cache_covers(after, t) && live(after, t) implies segment_range(
        after,
        t,
    ) == Some((after.cache_start, after.cache_end)) && has_key(folder, data_name(after.cache_start)) && agree(
        parse_entries(value_of(folder, data_name(after.cache_start))),
        after.cache,
        t,
    ) by {
        assert(cache_covers(s, t));
        lemma_names_apart(s.cache_start, s.cache_start);
        assert(has_key(folder, data_name(s.cache_start)) == has_key(
            files,
            data_name(s.cache_start),
        ));
    }
}

/// `delete` keeps the files listed.
pub proof fn lemma_delete_keeps_listed(s: StoreState, files: Seq<Pair>, key: Seq<char>)
    requires
        sound(s, files),
        listed(s, files),
    ensures
        listed(after_delete(s, key), apply_actions(files, delete_actions(s, key))),
{
    let actions = delete_actions(s, key);
    lemma_apply_few(files, actions[0], actions[1]);
    assert(actions =~= seq![actions[0], actions[1]]);
    let middle = apply_action(files, actions[0]);
    lemma_names_kept(files, actions[0]);
    lemma_written_file(files, actions[0]);
    lemma_names_apart(key, key);
    lemma_other_file(files, actions[0], DEL_FILENAME@);
    lemma_names_kept(middle, actions[1]);
}

/// A compaction cycle keeps the database sound.
pub proof fn lemma_vacuum_keeps_sound(s: StoreState, files: Seq<Pair>)
    requires
        sound(s, files),
    ensures
        sound(s, apply_actions(files, vacuum_actions(files))),
{
    let folder = apply_actions(files, vacuum_actions(files));
    let keys = tombstones(files);
    let cur = s.current_log_file;
    lemma_vacuum_folder(files);
    lemma_vacuum_tombstones(files);
    lemma_index_is_no_segment();
    lemma_names_apart(cur, cur);
    lemma_vacuum_spares(files, INDEX_FILENAME@);
    assert forall|key: Seq<char>| #[trigger] has_key(s.index, key) implies !among(
        tombstones(folder),
        value_of(s.index, key),
    ) by {}
    // the file of the active log
    lemma_vacuum_file(files, log_name(cur));
    let log = value_of(files, log_name(cur));
    lemma_removal_keeps_the_rest(log, keys);
    assert forall|tk: Seq<char>| live(s, tk) && in_memtable(s, tk) implies #[trigger] agree(
        parse_entries(value_of(folder, log_name(cur))),
        s.memtable,
        tk,
    ) by {
        let k = choose|k: Seq<char>| has_key(s.index, k) && #[trigger] value_of(s.index, k) == tk;
        assert(!among(keys, tk));
        lemma_removal_spares(log, keys, tk);
        assert(agree(parse_entries(log), s.memtable, tk));
    }
    // the data files
    assert forall|base: Seq<char>| has_key(folder, #[trigger] data_name(base)) implies well_written(
        value_of(folder, data_name(base)),
    ) by {
        lemma_names_apart(base, base);
        lemma_vacuum_file(files, data_name(base));
        lemma_removal_keeps_the_rest(value_of(files, data_name(base)), keys);
    }
    // the cached page
    assert forall|tk: Seq<char>| #[trigger] cache_covers(s, tk) && live(s, tk) implies segment_range(
        s,
        tk,
    ) == Some((s.cache_start, s.cache_end)) && has_key(folder, data_name(s.cache_start)) && agree(
        parse_entries(value_of(folder, data_name(s.cache_start))),
        s.cache,
        tk,
    ) by {
        let name = data_name(s.cache_start);
        lemma_names_apart(s.cache_start, s.cache_start);
        lemma_vacuum_file(files, name);
        let k = choose|k: Seq<char>| has_key(s.index, k) && #[trigger] value_of(s.index, k) == tk;
        assert(!among(keys, tk));
        lemma_removal_spares(value_of(files, name), keys, tk);
        assert(agree(parse_entries(value_of(files, name)), s.cache, tk));
    }
}

/// A compaction cycle keeps the files listed.
pub proof fn lemma_vacuum_keeps_listed(s: StoreState, files: Seq<Pair>)
    requires
        sound(s, files),
        listed(s, files),
    ensures
        listed(s, apply_actions(files, vacuum_actions(files))),
{
    lemma_vacuum_keeps_names(files);
}

/// A roll keeps the database sound, where the name of the new log comes
/// behind that of the old one and is the name of no file yet.
pub proof fn lemma_roll_keeps_sound(s: StoreState, files: Seq<Pair>, later: Seq<char>)
    requires
        sound(s, files),
        lex_lt(s.current_log_file, later),
        later.len() > 0,
        !has_key(files, log_name(later)),
    ensures
        sound(rolled(s, later), apply_actions(files, roll_actions(s, later))),
{
    let cur = s.current_log_file;
    let after = rolled(s, later);
    let actions = roll_actions(s, later);
    let folder = apply_actions(files, actions);
    lemma_apply_few(files, actions[0], actions[1]);
    assert(actions =~= seq![actions[0], actions[1]]);
    let middle = apply_action(files, actions[0]);
    lemma_apply_action_map(files, actions[0]);
    lemma_apply_action_map(middle, actions[1]);
    lemma_names_apart(cur, cur);
    lemma_names_apart(cur, later);
    lemma_names_apart(later, cur);
    lemma_empty_is_well_written();
    lemma_insert_behind(s.data_files, cur);
    lemma_timestamps_sorted(s);
    assert(after.data_files == s.data_files.push(cur));
    // the files that the roll names
    lemma_map_facts(files, log_name(cur));
    lemma_map_facts(files, log_name(later));
    lemma_map_facts(middle, log_name(later));
    lemma_map_facts(middle, data_name(cur));
    lemma_map_facts(folder, data_name(cur));
    lemma_map_facts(folder, log_name(later));
    assert(has_key(folder, log_name(later)) && value_of(folder, log_name(later)) == Seq::<
        char,
    >::empty());
    assert(has_key(folder, data_name(cur)) && value_of(folder, data_name(cur)) == value_of(
        files,
        log_name(cur),
    ));
    // every other file
    assert forall|name: Seq<char>|
        name != log_name(cur) && name != data_name(cur) && name != log_name(later) implies has_key(
            folder,
            name,
        ) == has_key(files, name) && (has_key(files, name) ==> value_of(folder, name) == value_of(
            files,
            name,
        )) by {
        lemma_other_file(files, actions[0], name);
        lemma_other_file(middle, actions[1], name);
    }
    assert(has_key(folder, INDEX_FILENAME@) && value_of(folder, INDEX_FILENAME@) == value_of(
        files,
        INDEX_FILENAME@,
    ));
    assert(has_key(folder, DEL_FILENAME@) && value_of(folder, DEL_FILENAME@) == value_of(
        files,
        DEL_FILENAME@,
    ));
    assert(tombstones(folder) == tombstones(files));
    assert forall|key: Seq<char>| #[trigger] has_key(after.index, key) implies !among(
        tombstones(folder),
        value_of(after.index, key),
    ) by {}
    assert forall|tk: Seq<char>| live(after, tk) && in_memtable(after, tk) implies #[trigger] agree(
        parse_entries(value_of(folder, log_name(later))),
        after.memtable,
        tk,
    ) by {}
    assert forall|base: Seq<char>| has_key(folder, #[trigger] data_name(base)) implies well_written(
        value_of(folder, data_name(base)),
    ) by {
        lemma_names_apart(base, cur);
        lemma_names_apart(base, later);
        if data_name(base) != data_name(cur) {
            assert(has_key(files, data_name(base)));
        }
    }
    // the segments
    assert forall|i: int| 0 <= i < after.data_files.len() implies lex_lt(
        #[trigger] after.data_files[i],
        later,
    ) by {
        if i < s.data_files.len() {
            assert(after.data_files[i] == s.data_files[i]);
            lemma_lex_strict(s.data_files[i], cur, cur);
            lemma_lex_strict(s.data_files[i], cur, later);
            lemma_lex_strict(cur, later, later);
        }
    }
    assert forall|k: Seq<char>| #[trigger]
        in_range(after.cache_start, after.cache_end, k) implies lex_lt(k, later) by {
        assert(lex_lt(k, cur));
        lemma_lex_strict(k, cur, cur);
        lemma_lex_strict(cur, later, later);
        lemma_lex_strict(k, cur, later);
    }
    // the cached page
    assert forall|tk: Seq<char>| #[trigger] cache_covers(after, tk) && live(after, tk) implies segment_range(
        after,
        tk,
    ) == Some((after.cache_start, after.cache_end)) && has_key(folder, data_name(after.cache_start)) && agree(
        parse_entries(value_of(folder, data_name(after.cache_start))),
        after.cache,
        tk,
    ) by {
        assert(cache_covers(s, tk));
        assert(lex_lt(tk, cur));
        let ts = s.data_files.push(cur);
        assert(ts.last() == cur);
        lemma_range_extend(ts, later, tk, 0);
        lemma_range_holds_key(ts, tk, 0);
        let j = choose|j: int|
            0 <= j < ts.len() - 1 && range_from(ts, tk, 0) == Some((#[trigger] ts[j], ts[j + 1]));
        assert(ts[j] == s.data_files[j]);
        assert(s.cache_start == ts[j]);
        if s.cache_start == cur {
            lemma_lex_total(cur, cur);
        }
        lemma_names_apart(s.cache_start, cur);
        lemma_names_apart(s.cache_start, later);
        lemma_live_same_index(after, s, tk);
    }
}

/// A roll keeps the files listed, where the name of the new log is fresh.
pub proof fn lemma_roll_keeps_listed(s: StoreState, files: Seq<Pair>, later: Seq<char>)
    requires
        sound(s, files),
        listed(s, files),
        roll_is_proper(s, files, later),
    ensures
        listed(rolled(s, later), apply_actions(files, roll_actions(s, later))),
{
    let cur = s.current_log_file;
    let actions = roll_actions(s, later);
    let from = log_name(cur);
    let to = data_name(cur);
    let new = log_name(later);
    lemma_apply_few(files, actions[0], actions[1]);
    assert(actions =~= seq![actions[0], actions[1]]);
    let middle = apply_action(files, actions[0]);
    let folder = apply_action(middle, actions[1]);
    lemma_names_apart(cur, cur);
    lemma_names_apart(cur, later);
    lemma_names_apart(later, cur);
    lemma_no_data_file_of_log(s, files);
    lemma_names_renamed(files, from, to);
    if new == from {
        lemma_lex_reflexive(cur);
    }
    lemma_other_file(files, actions[0], new);
    lemma_names_created(middle, new);
    let names = names_of(files);
    lemma_name_listed(files, from);
    let p = position_of(files, from);
    let less = names.remove(p);
    assert(names_of(folder) == less.push(to).push(new));
    lemma_extensions();
    lemma_name_parts(cur, LOG_FILE_EXT@);
    lemma_name_parts(cur, DATA_FILE_EXT@);
    lemma_name_parts(later, LOG_FILE_EXT@);
    // the log files
    lemma_bases_remove(names, p, LOG_FILE_EXT@);
    lemma_bases_push(less, to, LOG_FILE_EXT@);
    lemma_bases_push(less.push(to), new, LOG_FILE_EXT@);
    assert(bases_with_extension(less, LOG_FILE_EXT@) =~= Seq::<Seq<char>>::empty());
    assert(bases_with_extension(names_of(folder), LOG_FILE_EXT@) =~= seq![later]);
    // the data files
    lemma_bases_remove(names, p, DATA_FILE_EXT@);
    lemma_bases_push(less, to, DATA_FILE_EXT@);
    lemma_bases_push(less.push(to), new, DATA_FILE_EXT@);
    let data = bases_with_extension(names, DATA_FILE_EXT@);
    assert(bases_with_extension(names_of(folder), DATA_FILE_EXT@) == data.push(cur));
    assert(data.push(cur).drop_last() =~= data);
}

/// A restart keeps the database sound and its files listed, where the
/// cached page of the store that is loaded is empty and covers no key, as
/// that of a new store does.
pub proof fn lemma_restart_keeps_sound(
    s: StoreState,
    fresh: StoreState,
    files: Seq<Pair>,
    now: Seq<char>,
)
    requires
        sound(s, files),
        listed(s, files),
        fresh.cache == Seq::<Pair>::empty(),
        forall|tk: Seq<char>| !cache_covers(fresh, tk),
    ensures
        sound(after_load(fresh, files, now), loaded_files(files, now)),
        listed(after_load(fresh, files, now), loaded_files(files, now)),
{
    let cur = s.current_log_file;
    let folder = loaded_files(files, now);
    let after = after_load(fresh, files, now);
    lemma_loaded_state(s, fresh, files, now);
    lemma_vacuum_keeps_sound(s, files);
    lemma_vacuum_keeps_names(files);
    let log = value_of(folder, log_name(cur));
    assert(well_written(log));
    lemma_entries_of_tokens_distinct(tokens(log));
    assert forall|key: Seq<char>| #[trigger] has_key(after.index, key) implies !among(
        tombstones(folder),
        value_of(after.index, key),
    ) by {}
    assert forall|tk: Seq<char>| live(after, tk) && in_memtable(after, tk) implies #[trigger] agree(
        parse_entries(log),
        after.memtable,
        tk,
    ) by {}
    assert forall|tk: Seq<char>| #[trigger] cache_covers(after, tk) && live(after, tk) implies segment_range(
        after,
        tk,
    ) == Some((after.cache_start, after.cache_end)) && has_key(folder, data_name(after.cache_start)) && agree(
        parse_entries(value_of(folder, data_name(after.cache_start))),
        after.cache,
        tk,
    ) by {
        assert(cache_covers(fresh, tk));
    }
    assert forall|k: Seq<char>| #[trigger]
        in_range(after.cache_start, after.cache_end, k) implies lex_lt(
        k,
        after.current_log_file,
    ) by {
        assert(cache_covers(fresh, k));
    }
}

/// `clear` leaves a sound database whose files are listed, where the name of
/// the new log comes behind that of the old one.
pub proof fn lemma_clear_keeps_sound(s: StoreState, files: Seq<Pair>, now: Seq<char>)
    requires
        sound(s, files),
        lex_lt(s.current_log_file, now),
        now.len() > 0,
    ensures
        sound(after_clear(s, now), apply_actions(files, clear_actions(now))),
        listed(after_clear(s, now), apply_actions(files, clear_actions(now))),
{
    let emptied = StoreState { index: Seq::empty(), ..s };
    assert forall|k: Seq<char>| #[trigger]
        in_range(emptied.cache_start, emptied.cache_end, k) implies lex_lt(k, now) by {
        assert(lex_lt(k, s.current_log_file));
        lemma_lex_strict(k, s.current_log_file, s.current_log_file);
        lemma_lex_strict(s.current_log_file, now, now);
        lemma_lex_strict(k, s.current_log_file, now);
    }
    lemma_empty_database_is_sound(emptied, now);
    let removing = seq![ActionView::RemoveAll];
    lemma_apply_concat(files, removing, load_actions(Seq::empty(), now));
    lemma_apply_few(files, ActionView::RemoveAll, ActionView::RemoveAll);
    assert(apply_actions(files, removing) == Seq::<Pair>::empty());
    lemma_apply_concat(
        Seq::empty(),
        scaffold_actions(Seq::empty(), now),
        vacuum_actions(apply_actions(Seq::empty(), scaffold_actions(Seq::empty(), now))),
    );
}

/// The timestamped key that is made of a decimal timestamp and a key that
/// holds no separator holds no separator.
pub proof fn lemma_stamped_is_clean(timestamp: Seq<char>, key: Seq<char>)
    requires
        is_decimal(timestamp),
        clean_text(key),
    ensures
        clean_text(stamped(timestamp, key)),
{
    lemma_separator_shapes();
    let n = choose|n: nat| timestamp == #[trigger] decimal(n);
    let tk = stamped(timestamp, key);
    let front = timestamp + seq!['-'];
    assert(tk =~= front + key);
    assert forall|at: int| !matches_at(tk, kv_sep(), at) by {
        if matches_at(tk, kv_sep(), at) {
            lemma_match_chars(tk, kv_sep(), at, 0);
            if at < timestamp.len() {
                lemma_decimal_digits(n, at);
            } else if at >= front.len() {
                lemma_match_shift(front, key, kv_sep(), at - front.len());
            }
        }
    }
    assert forall|at: int| !matches_at(tk, token_sep(), at) by {
        if matches_at(tk, token_sep(), at) {
            lemma_match_chars(tk, token_sep(), at, 0);
            if at < timestamp.len() {
                lemma_decimal_digits(n, at);
            } else if at >= front.len() {
                lemma_match_shift(front, key, token_sep(), at - front.len());
            }
        }
    }
}

/// The data files and the active log of a sound store are sorted.
pub proof fn lemma_timestamps_sorted(s: StoreState)
    requires
        segments_sound(s),
    ensures
        strictly_sorted(s.data_files.push(s.current_log_file)),
{
    let ts = s.data_files.push(s.current_log_file);
    assert forall|i: int, j: int| 0 <= i < j < ts.len() implies lex_lt(
        #[trigger] ts[i],
        #[trigger] ts[j],
    ) by {
        assert(ts[i] == s.data_files[i]);
        if j < s.data_files.len() {
            assert(ts[j] == s.data_files[j]);
        }
    }
}

/// A key that lies in the range of a segment of a sound store comes before
/// the active log, and every key of that range has that range.
pub proof fn lemma_range_of_segment(s: StoreState, tk: Seq<char>, other: Seq<char>)
    requires
        segments_sound(s),
        segment_range(s, tk) is Some,
        in_range(segment_range(s, tk).unwrap().0, segment_range(s, tk).unwrap().1, other),
    ensures
        lex_lt(other, s.current_log_file),
        segment_range(s, other) == segment_range(s, tk),
{
    let ts = s.data_files.push(s.current_log_file);
    lemma_range_holds_key(ts, tk, 0);
    let j = choose|j: int|
        0 <= j < ts.len() - 1 && range_from(ts, tk, 0) == Some((#[trigger] ts[j], ts[j + 1]));
    lemma_timestamps_sorted(s);
    lemma_range_unique(ts, other, j);
    let last = ts.len() - 1;
    assert(ts[last] == s.current_log_file);
    if j + 1 < last {
        assert(lex_lt(ts[j + 1], ts[last]));
        lemma_lex_strict(other, ts[j + 1], ts[last]);
        lemma_lex_strict(ts[j + 1], ts[last], ts[last]);
    }
}

/// The entries without one of them are clean and injective where the
/// entries are.
pub proof fn lemma_without_keeps(entries: Seq<Pair>, key: Seq<char>)
    requires
        distinct_keys(entries),
    ensures
        clean(entries) ==> clean(without(entries, key)),
        injective(entries) ==> injective(without(entries, key)),
        forall|k: Seq<char>|
            has_key(without(entries, key), k) ==> has_key(entries, k) && value_of(
                without(entries, key),
                k,
            ) == value_of(entries, k),
{
    let after = without(entries, key);
    lemma_without(entries, key);
    if has_key(entries, key) {
        let p = position_of(entries, key);
        assert forall|i: int| 0 <= i < after.len() implies #[trigger] after[i] == entries[if i
            < p {
            i
        } else {
            i + 1
        }] by {}
        if clean(entries) {
            assert forall|i: int| 0 <= i < after.len() implies {
                &&& free_of((#[trigger] after[i]).key, kv_sep())
                &&& free_of(after[i].key, token_sep())
                &&& free_of(after[i].value, kv_sep())
                &&& free_of(after[i].value, token_sep())
            } by {
                let i0 = if i < p { i } else { i + 1 };
                assert(after[i] == entries[i0]);
            }
        }
        if injective(entries) {
            assert forall|i: int, j: int| 0 <= i < j < after.len() implies (
            #[trigger] after[i]).value != (#[trigger] after[j]).value by {
                let i0 = if i < p { i } else { i + 1 };
                let j0 = if j < p { j } else { j + 1 };
                assert(after[i] == entries[i0] && after[j] == entries[j0]);
            }
            assert forall|i: int| 0 <= i < after.len() implies (#[trigger] after[i]).value.len()
                > 0 by {
                let i0 = if i < p { i } else { i + 1 };
                assert(after[i] == entries[i0]);
            }
        }
    }
    assert forall|k: Seq<char>| has_key(after, k) implies has_key(entries, k) && value_of(after, k)
        == value_of(entries, k) by {
        lemma_map_facts(entries, k);
        lemma_map_facts(after, k);
    }
}

/// In an injective run of entries with distinct keys, two keys with one
/// value are one key.
pub proof fn lemma_injective(entries: Seq<Pair>, a: Seq<char>, b: Seq<char>)
    requires
        distinct_keys(entries),
        injective(entries),
        has_key(entries, a),
        has_key(entries, b),
        value_of(entries, a) == value_of(entries, b),
    ensures
        a == b,
{
    let i = position_of(entries, a);
    let j = position_of(entries, b);
    if i < j {
        assert(entries[i].value != entries[j].value);
    } else if j < i {
        assert(entries[j].value != entries[i].value);
    }
}

/// A tidy content with one more token at its end is tidy and has one more
/// token, where that token is not empty and free of the token separator.
pub proof fn lemma_tidy_append(content: Seq<char>, token: Seq<char>)
    requires
        tidy(content),
        token.len() > 0,
        free_of(token, token_sep()),
    ensures
        tidy(content + token + token_sep()),
        tokens(content + token + token_sep()) == tokens(content).push(token),
{
    lemma_separator_shapes();
    let ts = tokens(content);
    let more = ts.push(token);
    lemma_join_push(ts, token);
    lemma_tight_from_free(token, token_sep());
    assert forall|i: int| 0 <= i < more.len() implies tight(#[trigger] more[i], token_sep())
        && more[i].len() > 0 by {
        if i < ts.len() {
            assert(more[i] == ts[i]);
        }
    }
    assert(more.last() == token);
    lemma_tokens_of_join(more);
}

/// The folder after the file actions of `delete`: the index file holds the
/// index without the key, the tombstone file has the timestamped key of the
/// key at its end, and every other file is what it was.
pub proof fn lemma_delete_folder(s: StoreState, files: Seq<Pair>, key: Seq<char>)
    requires
        distinct_keys(files),
        has_key(files, DEL_FILENAME@),
    ensures
        ({
            let folder = apply_actions(files, delete_actions(s, key));
            &&& distinct_keys(folder)
            &&& has_key(folder, INDEX_FILENAME@)
            &&& value_of(folder, INDEX_FILENAME@) == serialize(without(s.index, key))
            &&& has_key(folder, DEL_FILENAME@)
            &&& value_of(folder, DEL_FILENAME@) == value_of(files, DEL_FILENAME@) + value_of(
                s.index,
                key,
            ) + token_sep()
            &&& forall|name: Seq<char>|
                name != INDEX_FILENAME@ && name != DEL_FILENAME@ ==> #[trigger] has_key(
                    folder,
                    name,
                ) == has_key(files, name) && (has_key(files, name) ==> value_of(folder, name)
                    == value_of(files, name))
        }),
{
    let actions = delete_actions(s, key);
    let folder = apply_actions(files, actions);
    lemma_apply_few(files, actions[0], actions[1]);
    assert(actions =~= seq![actions[0], actions[1]]);
    let middle = apply_action(files, actions[0]);
    lemma_written_file(files, actions[0]);
    lemma_written_file(middle, actions[1]);
    lemma_names_apart(key, key);
    lemma_other_file(files, actions[0], DEL_FILENAME@);
    lemma_other_file(middle, actions[1], INDEX_FILENAME@);
    assert(value_of(folder, DEL_FILENAME@) =~= value_of(files, DEL_FILENAME@) + value_of(
        s.index,
        key,
    ) + token_sep());
    assert(folder == apply_action(middle, actions[1]));
    assert(distinct_keys(folder));
    assert(has_key(folder, INDEX_FILENAME@));
    assert(value_of(folder, INDEX_FILENAME@) == serialize(without(s.index, key)));
    assert(has_key(folder, DEL_FILENAME@));
    assert forall|name: Seq<char>|
        name != INDEX_FILENAME@ && name != DEL_FILENAME@ implies #[trigger] has_key(folder, name)
            == has_key(files, name) && (has_key(files, name) ==> value_of(folder, name)
            == value_of(files, name)) by {
        lemma_other_file(files, actions[0], name);
        lemma_other_file(middle, actions[1], name);
    }
}

/// One more key among the keys.
pub proof fn lemma_among_push(keys: Seq<Seq<char>>, key: Seq<char>, other: Seq<char>)
    ensures
        among(keys.push(key), other) == (among(keys, other) || other == key),
{
    let more = keys.push(key);
    if among(more, other) {
        let i = choose|i: int| 0 <= i < more.len() && #[trigger] more[i] == other;
        if i < keys.len() {
            assert(keys[i] == other);
        }
    }
    if among(keys, other) {
        let i = choose|i: int| 0 <= i < keys.len() && #[trigger] keys[i] == other;
        assert(more[i] == other);
    }
    if other == key {
        assert(more[keys.len() as int] == other);
    }
}

/// The empty content is tidy and has no tokens.
pub proof fn lemma_empty_is_tidy()
    ensures
        tidy(Seq::<char>::empty()),
        tokens(Seq::<char>::empty()).len() == 0,
{
    let none = Seq::<char>::empty();
    assert(trim_end(none, token_sep()) =~= none);
    assert(tokens(none) =~= Seq::<Seq<char>>::empty());
    assert(join(Seq::<Seq<char>>::empty()) =~= none);
}

/// A compaction cycle leaves the tombstone file in the folder, tidy and
/// with no more tombstones than it had.
pub proof fn lemma_vacuum_tombstones(files: Seq<Pair>)
    requires
        distinct_keys(files),
        has_key(files, DEL_FILENAME@),
        tidy(value_of(files, DEL_FILENAME@)),
    ensures
        ({
            let folder = apply_actions(files, vacuum_actions(files));
            &&& has_key(folder, DEL_FILENAME@)
            &&& tidy(value_of(folder, DEL_FILENAME@))
            &&& tombstones(folder).len() == 0
        }),
{
    let keys = tombstones(files);
    lemma_vacuum_folder(files);
    lemma_empty_is_tidy();
    if keys.len() > 0 {
        let middle = compacted(files, keys);
        lemma_rewrites_upto(files, keys, files.len() as int);
        lemma_upsert(middle, DEL_FILENAME@, Seq::empty());
    }
}

/// Clean entries stay clean when a clean key is given a clean value.
pub proof fn lemma_upsert_clean(entries: Seq<Pair>, key: Seq<char>, value: Seq<char>)
    requires
        clean(entries),
        clean_text(key),
        clean_text(value),
    ensures
        clean(upsert(entries, key, value)),
{
    let after = upsert(entries, key, value);
    assert forall|i: int| 0 <= i < after.len() implies {
        &&& free_of((#[trigger] after[i]).key, kv_sep())
        &&& free_of(after[i].key, token_sep())
        &&& free_of(after[i].value, kv_sep())
        &&& free_of(after[i].value, token_sep())
    } by {
        if has_key(entries, key) {
            if i != position_of(entries, key) {
                assert(after[i] == entries[i]);
            }
        } else if i < entries.len() {
            assert(after[i] == entries[i]);
        }
    }
}

/// The empty content is well written.
pub proof fn lemma_empty_is_well_written()
    ensures
        well_written(Seq::<char>::empty()),
        parse_entries(Seq::<char>::empty()) == Seq::<Pair>::empty(),
{
    lemma_empty_is_tidy();
    assert(tokens(Seq::<char>::empty()) =~= Seq::<Seq<char>>::empty());
    assert(serialize(Seq::<Pair>::empty()) =~= Seq::<char>::empty());
}

/// The decimal numeral of a number is made of digits.
pub proof fn lemma_decimal_digits(n: nat, i: int)
    requires
        0 <= i < decimal(n).len(),
    ensures
        decimal(n)[i] != '-',
        decimal(n)[i] != kv_sep()[0],
        decimal(n)[i] != token_sep()[0],
    decreases n,
{
    lemma_separator_shapes();
    if n >= 10 {
        if i < decimal(n / 10).len() {
            lemma_decimal_digits(n / 10, i);
        }
    }
}

/// The timestamped key of a key of a sound store holds no separator.
pub proof fn lemma_timestamped_key_clean(
    s: StoreState,
    files: Seq<Pair>,
    key: Seq<char>,
    value: Seq<char>,
    now: Seq<char>,
)
    requires
        sound(s, files),
        set_is_proper(s, files, key, value, now),
    ensures
        clean_text(timestamped_key_of(s, key, now)),
{
    if has_key(s.index, key) {
        let p = position_of(s.index, key);
        assert(s.index[p].value == value_of(s.index, key));
    }
}

/// A key that `set` has handled is in the index, under its timestamped key.
pub proof fn lemma_index_after_set(s: StoreState, key: Seq<char>, now: Seq<char>)
    requires
        distinct_keys(s.index),
    ensures
        distinct_keys(index_after_set(s, key, now)),
        has_key(index_after_set(s, key, now), key),
        value_of(index_after_set(s, key, now), key) == timestamped_key_of(s, key, now),
        forall|other: Seq<char>|
            other != key ==> has_key(index_after_set(s, key, now), other) == has_key(
                s.index,
                other,
            ) && (has_key(s.index, other) ==> value_of(index_after_set(s, key, now), other)
                == value_of(s.index, other)),
{
    if !has_key(s.index, key) {
        lemma_upsert(s.index, key, stamped(now, key));
        assert(index_after_set(s, key, now) == upsert(s.index, key, stamped(now, key)));
        assert forall|other: Seq<char>| other != key implies has_key(
            index_after_set(s, key, now),
            other,
        ) == has_key(s.index, other) && (has_key(s.index, other) ==> value_of(
            index_after_set(s, key, now),
            other,
        ) == value_of(s.index, other)) by {
            lemma_map_facts(s.index, other);
            lemma_map_facts(index_after_set(s, key, now), other);
        }
    }
}

/// The index and the folder after the file action of `set` that records a
/// new key: the index file holds the serialization of the index, the index
/// is clean and injective, and every other file is what it was.
pub proof fn lemma_index_step(
    s: StoreState,
    files: Seq<Pair>,
    key: Seq<char>,
    value: Seq<char>,
    now: Seq<char>,
)
    requires
        sound(s, files),
        set_is_proper(s, files, key, value, now),
    ensures
        ({
            let index = index_after_set(s, key, now);
            let folder = apply_actions(files, index_actions(s, key, now));
            &&& distinct_keys(index)
            &&& clean(index)
            &&& injective(index)
            &&& distinct_keys(folder)
            &&& has_key(folder, INDEX_FILENAME@)
            &&& value_of(folder, INDEX_FILENAME@) == serialize(index)
            &&& forall|name: Seq<char>|
                name != INDEX_FILENAME@ ==> #[trigger] has_key(folder, name) == has_key(
                    files,
                    name,
                ) && (has_key(files, name) ==> value_of(folder, name) == value_of(files, name))
        }),
{
    let index = index_after_set(s, key, now);
    let actions = index_actions(s, key, now);
    let folder = apply_actions(files, actions);
    lemma_index_after_set(s, key, now);
    if has_key(s.index, key) {
        assert(apply_actions(files, Seq::<ActionView>::empty()) == files);
    } else {
        let tk = stamped(now, key);
        let entry = Pair { key, value: tk };
        lemma_apply_few(files, actions[0], actions[0]);
        assert(actions =~= seq![actions[0]]);
        lemma_written_file(files, actions[0]);
        lemma_push_entry(s.index, entry);
        assert(value_of(folder, INDEX_FILENAME@) =~= serialize(index));
        assert forall|i: int| 0 <= i < index.len() implies {
            &&& free_of((#[trigger] index[i]).key, kv_sep())
            &&& free_of(index[i].key, token_sep())
            &&& free_of(index[i].value, kv_sep())
            &&& free_of(index[i].value, token_sep())
        } by {
            if i < s.index.len() {
                assert(index[i] == s.index[i]);
            }
        }
        assert forall|i: int, j: int| 0 <= i < j < index.len() implies (#[trigger] index[i]).value
            != (#[trigger] index[j]).value by {
            assert(index[i] == s.index[i]);
            if j < s.index.len() {
                assert(index[j] == s.index[j]);
            } else {
                if s.index[i].value == tk {
                    lemma_position(s.index, s.index[i].key, i);
                    assert(live(s, tk));
                }
            }
        }
        assert forall|i: int| 0 <= i < index.len() implies (#[trigger] index[i]).value.len()
            > 0 by {
            if i < s.index.len() {
                assert(index[i] == s.index[i]);
            }
        }
        assert forall|name: Seq<char>| name != INDEX_FILENAME@ implies #[trigger] has_key(
            folder,
            name,
        ) == has_key(files, name) && (has_key(files, name) ==> value_of(folder, name)
            == value_of(files, name)) by {
            lemma_other_file(files, actions[0], name);
        }
    }
}

/// Whoever is live after `set` was live before, or is the timestamped key
/// of the key that was set.
pub proof fn lemma_live_after_set(s: StoreState, key: Seq<char>, now: Seq<char>, tk: Seq<char>)
    requires
        distinct_keys(s.index),
    ensures
        ({
            let after = StoreState { index: index_after_set(s, key, now), ..s };
            live(after, tk) ==> live(s, tk) || tk == timestamped_key_of(s, key, now)
        }),
{
    let after = StoreState { index: index_after_set(s, key, now), ..s };
    lemma_index_after_set(s, key, now);
    if live(after, tk) {
        let k = choose|k: Seq<char>| has_key(after.index, k) && #[trigger] value_of(after.index, k)
            == tk;
        if k != key {
            assert(has_key(s.index, k) && value_of(s.index, k) == tk);
        }
    }
}

/// Two stores with one index have the same live keys.
pub proof fn lemma_live_same_index(a: StoreState, b: StoreState, tk: Seq<char>)
    requires
        a.index == b.index,
    ensures
        live(a, tk) == live(b, tk),
{
    if live(a, tk) {
        let k = choose|k: Seq<char>| has_key(a.index, k) && #[trigger] value_of(a.index, k) == tk;
        assert(has_key(b.index, k) && value_of(b.index, k) == tk);
    }
    if live(b, tk) {
        let k = choose|k: Seq<char>| has_key(b.index, k) && #[trigger] value_of(b.index, k) == tk;
        assert(has_key(a.index, k) && value_of(a.index, k) == tk);
    }
}

/// The store in which the value has been saved to the memtable and the key
/// has come into the index, before any roll.
pub open spec fn written(
    s: StoreState,
    key: Seq<char>,
    value: Seq<char>,
    now: Seq<char>,
) -> StoreState {
    StoreState {
        index: index_after_set(s, key, now),
        memtable: upsert(s.memtable, timestamped_key_of(s, key, now), value),
        ..s
    }
}

/// The file actions of a `set` that goes to the memtable, before any roll.
pub open spec fn written_actions(
    s: StoreState,
    key: Seq<char>,
    value: Seq<char>,
    now: Seq<char>,
) -> Seq<ActionView> {
    index_actions(s, key, now) + seq![
        ActionView::Write {
            name: log_name(s.current_log_file),
            content: serialize(upsert(s.memtable, timestamped_key_of(s, key, now), value)),
        },
    ]
}

/// A `set` that goes to the memtable keeps the database sound, before any
/// roll.
pub proof fn lemma_memtable_write_keeps_sound(
    s: StoreState,
    files: Seq<Pair>,
    key: Seq<char>,
    value: Seq<char>,
    now: Seq<char>,
)
    requires
        sound(s, files),
        set_is_proper(s, files, key, value, now),
        in_memtable(s, timestamped_key_of(s, key, now)),
    ensures
        sound(written(s, key, value, now), apply_actions(files, written_actions(s, key, value, now))),
        value_of(
            apply_actions(files, written_actions(s, key, value, now)),
            log_name(s.current_log_file),
        ) == serialize(written(s, key, value, now).memtable),
        forall|name: Seq<char>|
            name != INDEX_FILENAME@ && name != log_name(s.current_log_file) ==> #[trigger] has_key(
                apply_actions(files, written_actions(s, key, value, now)),
                name,
            ) == has_key(files, name),
{
    let tk = timestamped_key_of(s, key, now);
    let cur = s.current_log_file;
    let after = written(s, key, value, now);
    let memtable = after.memtable;
    let write = ActionView::Write { name: log_name(cur), content: serialize(memtable) };
    let first = apply_actions(files, index_actions(s, key, now));
    let folder = apply_actions(files, written_actions(s, key, value, now));
    lemma_index_step(s, files, key, value, now);
    lemma_apply_concat(files, index_actions(s, key, now), seq![write]);
    lemma_apply_few(first, write, write);
    assert(folder == apply_action(first, write));
    lemma_written_file(first, write);
    lemma_names_apart(cur, cur);
    lemma_other_file(first, write, INDEX_FILENAME@);
    lemma_other_file(first, write, DEL_FILENAME@);
    assert(has_key(first, DEL_FILENAME@) == has_key(files, DEL_FILENAME@));
    assert(value_of(folder, DEL_FILENAME@) == value_of(files, DEL_FILENAME@));
    assert(tombstones(folder) == tombstones(files));
    lemma_timestamped_key_clean(s, files, key, value, now);
    lemma_upsert(s.memtable, tk, value);
    lemma_upsert_clean(s.memtable, tk, value);
    lemma_serialization_well_written(memtable);
    lemma_index_after_set(s, key, now);
    assert forall|k: Seq<char>| #[trigger] has_key(after.index, k) implies !among(
        tombstones(folder),
        value_of(after.index, k),
    ) by {
        if k != key {
            assert(has_key(s.index, k));
        } else if has_key(s.index, key) {
            assert(value_of(after.index, k) == value_of(s.index, k));
        }
    }
    assert forall|t: Seq<char>| live(after, t) && in_memtable(after, t) implies #[trigger] agree(
        parse_entries(value_of(folder, log_name(cur))),
        after.memtable,
        t,
    ) by {}
    assert forall|name: Seq<char>|
        name != INDEX_FILENAME@ && name != log_name(cur) implies #[trigger] has_key(folder, name)
            == has_key(files, name) && (has_key(files, name) ==> value_of(folder, name)
            == value_of(files, name)) by {
        lemma_other_file(first, write, name);
        assert(has_key(first, name) == has_key(files, name));
    }
    assert forall|base: Seq<char>| has_key(folder, #[trigger] data_name(base)) implies well_written(
        value_of(folder, data_name(base)),
    ) by {
        lemma_names_apart(base, cur);
        assert(has_key(folder, data_name(base)) == has_key(files, data_name(base)));
    }
    assert forall|t: Seq<char>| #[trigger] cache_covers(after, t) && live(after, t) implies segment_range(
        after,
        t,
    ) == Some((after.cache_start, after.cache_end)) && has_key(folder, data_name(after.cache_start)) && agree(
        parse_entries(value_of(folder, data_name(after.cache_start))),
        after.cache,
        t,
    ) by {
        assert(cache_covers(s, t));
        lemma_names_apart(s.cache_start, cur);
        assert(has_key(folder, data_name(s.cache_start)) == has_key(
            files,
            data_name(s.cache_start),
        ));
        lemma_live_after_set(s, key, now, t);
        if t == tk {
            // a key of the memtable is not covered by the cached page
            assert(lex_lt(t, cur));
        }
        if live(after, t) {
            lemma_live_same_index(after, StoreState { index: after.index, ..s }, t);
        }
    }
}

/// A `set` that goes to the page of an immutable segment keeps the database
/// sound.
pub proof fn lemma_cache_write_keeps_sound(
    s: StoreState,
    files: Seq<Pair>,
    key: Seq<char>,
    value: Seq<char>,
    now: Seq<char>,
    later: Seq<char>,
)
    requires
        sound(s, files),
        set_is_proper(s, files, key, value, now),
        !in_memtable(s, timestamped_key_of(s, key, now)),
        page_available(s, timestamped_key_of(s, key, now), files),
    ensures
        sound(
            after_set(s, key, value, now, later, files),
            apply_actions(files, set_actions(s, key, value, now, later, files)),
        ),
{
    let tk = timestamped_key_of(s, key, now);
    let cur = s.current_log_file;
    let after = after_set(s, key, value, now, later, files);
    let paged = with_page(s, tk, files);
    assert(has_key(s.index, key) && value_of(s.index, key) == tk);
    assert(live(s, tk));
    lemma_get_page_sound(s, files, tk);
    let cache = upsert(paged.cache, tk, value);
    let name = data_name(paged.cache_start);
    let write = ActionView::Write { name, content: serialize(cache) };
    let first = apply_actions(files, index_actions(s, key, now));
    let folder = apply_actions(files, set_actions(s, key, value, now, later, files));
    lemma_index_step(s, files, key, value, now);
    assert(set_actions(s, key, value, now, later, files) =~= index_actions(s, key, now) + seq![
        write,
    ]);
    lemma_apply_concat(files, index_actions(s, key, now), seq![write]);
    lemma_apply_few(first, write, write);
    assert(folder == apply_action(first, write));
    lemma_written_file(first, write);
    lemma_names_apart(paged.cache_start, cur);
    lemma_names_apart(cur, cur);
    lemma_other_file(first, write, INDEX_FILENAME@);
    lemma_other_file(first, write, DEL_FILENAME@);
    lemma_other_file(first, write, log_name(cur));
    assert(has_key(first, DEL_FILENAME@) == has_key(files, DEL_FILENAME@));
    assert(has_key(first, log_name(cur)) == has_key(files, log_name(cur)));
    assert(value_of(folder, log_name(cur)) == value_of(files, log_name(cur)));
    assert(value_of(folder, DEL_FILENAME@) == value_of(files, DEL_FILENAME@));
    assert(tombstones(folder) == tombstones(files));
    lemma_timestamped_key_clean(s, files, key, value, now);
    lemma_upsert(paged.cache, tk, value);
    lemma_upsert_clean(paged.cache, tk, value);
    lemma_serialization_well_written(cache);
    lemma_index_after_set(s, key, now);
    assert(after == (StoreState { index: index_after_set(s, key, now), cache, ..paged }));
    assert forall|k: Seq<char>| #[trigger] has_key(after.index, k) implies !among(
        tombstones(folder),
        value_of(after.index, k),
    ) by {
        if k != key {
            assert(has_key(s.index, k));
        } else if has_key(s.index, key) {
            assert(value_of(after.index, k) == value_of(s.index, k));
        }
    }
    assert forall|t: Seq<char>| live(after, t) && in_memtable(after, t) implies #[trigger] agree(
        parse_entries(value_of(folder, log_name(cur))),
        after.memtable,
        t,
    ) by {
        lemma_live_after_set(s, key, now, t);
        lemma_live_same_index(after, StoreState { index: after.index, ..s }, t);
        assert(live(s, t) && in_memtable(s, t));
    }
    assert forall|base: Seq<char>| has_key(folder, #[trigger] data_name(base)) implies well_written(
        value_of(folder, data_name(base)),
    ) by {
        lemma_names_apart(base, cur);
        if data_name(base) != name {
            lemma_other_file(first, write, data_name(base));
            assert(has_key(first, data_name(base)) == has_key(files, data_name(base)));
        }
    }
    assert forall|t: Seq<char>| #[trigger] cache_covers(after, t) && live(after, t) implies segment_range(
        after,
        t,
    ) == Some((after.cache_start, after.cache_end)) && has_key(folder, data_name(after.cache_start)) && agree(
        parse_entries(value_of(folder, data_name(after.cache_start))),
        after.cache,
        t,
    ) by {
        assert(cache_covers(paged, t));
        assert(segment_range(after, t) == segment_range(paged, t));
        lemma_live_after_set(s, key, now, t);
        lemma_live_same_index(after, StoreState { index: after.index, ..s }, t);
        lemma_live_same_index(paged, s, t);
        assert(live(paged, t));
    }
    assert forall|k: Seq<char>| #[trigger]
        in_range(after.cache_start, after.cache_end, k) implies lex_lt(
        k,
        after.current_log_file,
    ) by {
        assert(in_range(paged.cache_start, paged.cache_end, k));
    }
}

/// Bringing the page of a key into the cache keeps the database sound.
pub proof fn lemma_get_page_sound(s: StoreState, files: Seq<Pair>, tk: Seq<char>)
    requires
        sound(s, files),
        live(s, tk),
        !in_memtable(s, tk),
        page_available(s, tk, files),
    ensures
        sound(with_page(s, tk, files), files),
        cache_covers(with_page(s, tk, files), tk),
        has_key(files, data_name(with_page(s, tk, files).cache_start)),
{
    let after = with_page(s, tk, files);
    if !cache_covers(s, tk) {
        let range = segment_range(s, tk).unwrap();
        let content = value_of(files, data_name(range.0));
        lemma_range_holds_key(s.data_files.push(s.current_log_file), tk, 0);
        assert(well_written(content));
        lemma_entries_of_tokens_distinct(tokens(content));
        assert forall|t: Seq<char>| #[trigger] cache_covers(after, t) && live(after, t) implies segment_range(
        after,
        t,
    ) == Some((after.cache_start, after.cache_end)) && has_key(files, data_name(after.cache_start)) && agree(
        parse_entries(value_of(files, data_name(after.cache_start))),
        after.cache,
        t,
    ) by {
            lemma_range_of_segment(s, tk, t);
            assert(segment_range(after, t) == segment_range(s, t));
        }
        assert forall|k: Seq<char>| #[trigger]
            in_range(after.cache_start, after.cache_end, k) implies lex_lt(
            k,
            after.current_log_file,
        ) by {
            lemma_range_of_segment(s, tk, k);
        }
        assert forall|t: Seq<char>| live(after, t) && in_memtable(after, t) implies #[trigger] agree(
            parse_entries(value_of(files, log_name(after.current_log_file))),
            after.memtable,
            t,
        ) by {
            lemma_live_same_index(after, s, t);
        }
        assert forall|key: Seq<char>| #[trigger] has_key(after.index, key) implies !among(
            tombstones(files),
            value_of(after.index, key),
        ) by {}
    }
}

/// The files that a database needs are there in the folder of a sound
/// database whose files are listed: `load` creates none.
pub proof fn lemma_scaffold_is_there(s: StoreState, files: Seq<Pair>, now: Seq<char>)
    requires
        sound(s, files),
        listed(s, files),
    ensures
        apply_actions(files, scaffold_actions(files, now)) == files,
{
    let actions = scaffold_actions(files, now);
    assert(bases_with_extension(names_of(files), LOG_FILE_EXT@).len() == 1);
    lemma_apply_few(files, actions[0], actions[1]);
    assert(actions =~= seq![actions[0], actions[1]]);
}

/// What `load` reads from the folder of a sound database whose files are
/// listed: the index, the segments and the active log of the store of that
/// database, and the memtable that the file of the active log holds after a
/// compaction cycle.
pub proof fn lemma_loaded_state(s: StoreState, fresh: StoreState, files: Seq<Pair>, now: Seq<char>)
    requires
        sound(s, files),
        listed(s, files),
    ensures
        load_succeeds(files, now),
        loaded_files(files, now) == apply_actions(files, vacuum_actions(files)),
        after_load(fresh, files, now) == (StoreState {
            index: s.index,
            memtable: parse_entries(
                value_of(loaded_files(files, now), log_name(s.current_log_file)),
            ),
            data_files: s.data_files,
            current_log_file: s.current_log_file,
            ..fresh
        }),
{
    let cur = s.current_log_file;
    lemma_scaffold_is_there(s, files, now);
    let folder = loaded_files(files, now);
    lemma_vacuum_folder(files);
    lemma_vacuum_keeps_names(files);
    lemma_index_is_no_segment();
    lemma_names_apart(cur, cur);
    lemma_vacuum_spares(files, INDEX_FILENAME@);
    lemma_tokens_of_serialization(s.index);
    lemma_parse_serialize(s.index);
    lemma_vacuum_file(files, log_name(cur));
    assert(largest(seq![cur]) == cur);
}

/// The folder of a sound database whose files are listed holds no data
/// file of the name of the active log.
pub proof fn lemma_no_data_file_of_log(s: StoreState, files: Seq<Pair>)
    requires
        sound(s, files),
        listed(s, files),
    ensures
        !has_key(files, data_name(s.current_log_file)),
{
    let cur = s.current_log_file;
    let name = data_name(cur);
    if has_key(files, name) {
        let names = names_of(files);
        lemma_name_listed(files, name);
        let i = position_of(files, name);
        lemma_extensions();
        lemma_name_parts(cur, DATA_FILE_EXT@);
        lemma_bases_has(names, i, DATA_FILE_EXT@);
        lemma_sort_has(bases_with_extension(names, DATA_FILE_EXT@), cur);
        let j = choose|j: int| 0 <= j < s.data_files.len() && #[trigger] s.data_files[j] == cur;
        assert(lex_lt(s.data_files[j], cur));
        lemma_lex_reflexive(cur);
    }
}

/// The folder of an empty database: the index file, the tombstone file,
/// and the file of a log with the given name, all of them empty.
pub open spec fn empty_folder(now: Seq<char>) -> Seq<Pair> {
    seq![
        Pair { key: INDEX_FILENAME@, value: Seq::empty() },
        Pair { key: DEL_FILENAME@, value: Seq::empty() },
        Pair { key: log_name(now), value: Seq::empty() },
    ]
}

/// `load` makes of a folder without files the folder of an empty database.
pub proof fn lemma_load_of_nothing(now: Seq<char>)
    ensures
        loaded_files(Seq::empty(), now) == empty_folder(now),
        distinct_keys(empty_folder(now)),
{
    let none = Seq::<Pair>::empty();
    let actions = scaffold_actions(none, now);
    lemma_names_apart(now, now);
    assert(names_of(none) =~= Seq::<Seq<char>>::empty());
    assert(actions.len() == 3);
    let two = actions.drop_last();
    assert(two =~= seq![actions[0], actions[1]]);
    lemma_apply_few(none, actions[0], actions[1]);
    let a1 = apply_action(none, actions[0]);
    assert(a1 =~= seq![Pair { key: INDEX_FILENAME@, value: Seq::empty() }]);
    let a2 = apply_action(a1, actions[1]);
    assert(!has_key(a1, DEL_FILENAME@)) by {
        if has_key(a1, DEL_FILENAME@) {
            let i = position_of(a1, DEL_FILENAME@);
            assert(a1[i].key == INDEX_FILENAME@);
        }
    }
    assert(a2 =~= seq![
        Pair { key: INDEX_FILENAME@, value: Seq::empty() },
        Pair { key: DEL_FILENAME@, value: Seq::empty() },
    ]);
    assert(apply_actions(none, two) == a2);
    assert(actions.last() == actions[2]);
    let a3 = apply_action(a2, actions[2]);
    assert(!has_key(a2, log_name(now))) by {
        if has_key(a2, log_name(now)) {
            let i = position_of(a2, log_name(now));
            assert(a2[i].key == INDEX_FILENAME@ || a2[i].key == DEL_FILENAME@);
        }
    }
    assert(a3 =~= empty_folder(now));
    assert(apply_actions(none, actions) == a3);
    let folder = empty_folder(now);
    assert forall|i: int, j: int| 0 <= i < j < folder.len() implies (#[trigger] folder[i]).key != (
    #[trigger] folder[j]).key by {}
    lemma_position(folder, DEL_FILENAME@, 1);
    lemma_empty_is_tidy();
    assert(tombstones(folder).len() == 0);
    assert(vacuum_actions(folder) =~= Seq::<ActionView>::empty());
    assert(apply_actions(folder, Seq::<ActionView>::empty()) == folder);
}

} // verus!
