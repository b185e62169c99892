//! What the engine promises to those who use it: a value that was set is the
//! value that is got, a key that was deleted is gone and takes nothing with
//! it, and neither the roll of the log nor the compaction of the segments
//! changes what can be read.
//!
//! The promises speak of a store and of the folder that has followed every
//! action of the store. They hold of every sound database, and are proved
//! of the functions of [`crate::model`] that say what the operations of the
//! store do. Taken together they say that the database is a mapping from
//! keys to values: its [`contents`] are those of the mapping, `set` is the
//! insertion, `delete` the removal, and nothing else changes them.

use vstd::prelude::*;
use crate::cache::in_range;
use crate::compaction::{among, lemma_removal_spares, lemma_vacuum_file};
use crate::constants::{DEL_FILENAME, INDEX_FILENAME};
use crate::disk::{
    apply_action, apply_actions, lemma_apply_action_map, lemma_apply_actions_distinct,
    lemma_apply_concat, lemma_apply_few, lemma_other_file, ActionView,
};
use crate::entries::{
    distinct_keys, has_key, lemma_entries_of_tokens_distinct, lemma_map_facts, lemma_upsert,
    lemma_without, parse_entries, position_of, serialize, upsert, value_of, Pair,
};
use crate::listing::lemma_names_apart;
use crate::model::{
    after_delete, after_get, after_load, after_set, cache_covers, data_name, delete_actions,
    get_value, in_memtable, index_actions, index_after_set, load_succeeds, loaded_files, log_name,
    page_available, range_from, roll_actions, rolled, rolls, segment_range, set_actions,
    set_succeeds, timestamped_key_of, tombstones, vacuum_actions, with_page, StoreState,
};
use crate::roundtrip::{clean, lemma_parse_serialize};
use crate::segments::{
    lemma_insert_behind, lemma_insert_sorted_len, lemma_range_after_roll, lemma_range_extend,
    lemma_range_holds_key, ordered,
};
use crate::soundness::{
    agree, lemma_empty_database_is_sound, lemma_get_page_sound, lemma_index_after_set,
    lemma_index_step, lemma_injective, lemma_live_same_index, lemma_loaded_state,
    lemma_memtable_write_keeps_sound, lemma_range_of_segment, lemma_timestamped_key_clean,
    lemma_timestamps_sorted, lemma_upsert_clean, listed, live, roll_is_proper, set_is_proper,
    sound, written, written_actions,
};
use crate::text::{lemma_lex_strict, lemma_lex_total, lex_lt};
use crate::tokens::tokens;

verus! {

/// What the database holds for those who use it: the keys for which `get`
/// finds a value, with those values.
pub open spec fn contents(s: StoreState, files: Seq<Pair>) -> Map<Seq<char>, Seq<char>> {
    Map::new(
        |key: Seq<char>| get_value(s, key, files) is Some,
        |key: Seq<char>| get_value(s, key, files).unwrap(),
    )
}

/// Every key of the index can be read: `get` finds a value for it.
pub open spec fn readable(s: StoreState, files: Seq<Pair>) -> bool {
    forall|key: Seq<char>| #[trigger] has_key(s.index, key) ==> get_value(s, key, files) is Some
}

/// Every timestamped key of the index comes before the name of the log that
/// a roll creates.
pub open spec fn later_is_later(s: StoreState, later: Seq<char>) -> bool {
    forall|key: Seq<char>| #[trigger] has_key(s.index, key) ==> lex_lt(value_of(s.index, key), later)
}

/// A value that was set is the value that is got: after a `set` that
/// succeeds, `get` finds the value for the key, in the folder that has
/// followed the actions of the `set`.
///
/// This holds of a sound database, where the `set` is proper and, where it
/// rolls the log, the timestamped key of the key comes before the name of
/// the new log.
pub proof fn lemma_set_then_get(
    s: StoreState,
    files: Seq<Pair>,
    key: Seq<char>,
    value: Seq<char>,
    now: Seq<char>,
    later: Seq<char>,
)
    requires
        sound(s, files),
        set_is_proper(s, files, key, value, now),
        set_succeeds(s, key, now, files),
        ({
            let tk = timestamped_key_of(s, key, now);
            in_memtable(s, tk) && rolls(s, serialize(upsert(s.memtable, tk, value))) ==> lex_lt(
                tk,
                later,
            )
        }),
    ensures
        get_value(
            after_set(s, key, value, now, later, files),
            key,
            apply_actions(files, set_actions(s, key, value, now, later, files)),
        ) == Some(value),
{
    let tk = timestamped_key_of(s, key, now);
    let after = after_set(s, key, value, now, later, files);
    let actions = set_actions(s, key, value, now, later, files);
    let folder = apply_actions(files, actions);
    lemma_index_after_set(s, key, now);
    lemma_timestamped_key_clean(s, files, key, value, now);
    if in_memtable(s, tk) {
        let memtable = upsert(s.memtable, tk, value);
        lemma_upsert(s.memtable, tk, value);
        lemma_upsert_clean(s.memtable, tk, value);
        if rolls(s, serialize(memtable)) {
            let written = StoreState { memtable, ..s };
            assert(ordered(written));
            assert(in_memtable(written, tk));
            lemma_range_after_roll(written, tk, later);
            let content = serialize(memtable);
            lemma_folder_after_roll(
                files,
                index_actions(s, key, now),
                s.current_log_file,
                content,
                later,
            );
            assert(actions =~= index_actions(s, key, now) + seq![
                ActionView::Write { name: log_name(s.current_log_file), content },
            ] + seq![
                ActionView::Rename {
                    from: log_name(s.current_log_file),
                    to: data_name(s.current_log_file),
                },
                ActionView::Create { name: log_name(later) },
            ]);
            lemma_parse_serialize(memtable);
            assert(segment_range(after, tk) == segment_range(rolled(written, later), tk));
            assert(page_available(after, tk, folder));
            assert(with_page(after, tk, folder).cache == memtable);
        }
    } else {
        let paged = with_page(s, tk, files);
        if !cache_covers(s, tk) {
            lemma_range_holds_key(s.data_files.push(s.current_log_file), tk, 0);
            lemma_entries_of_tokens_distinct(
                tokens(value_of(files, data_name(segment_range(s, tk).unwrap().0))),
            );
        }
        assert(distinct_keys(paged.cache));
        lemma_upsert(paged.cache, tk, value);
        assert(cache_covers(after, tk));
    }
}

/// A `set` changes the value of its key alone: after a `set`, `get` finds
/// for every other key what it found before, in the folder that has
/// followed the actions of the `set`.
///
/// This holds of a sound database, where the `set` is proper, the name of
/// the log that a roll creates is fresh and, where the `set` rolls the log,
/// the timestamped key of the other key comes before that name.
pub proof fn lemma_set_spares_others(
    s: StoreState,
    files: Seq<Pair>,
    key: Seq<char>,
    value: Seq<char>,
    now: Seq<char>,
    later: Seq<char>,
    other: Seq<char>,
)
    requires
        sound(s, files),
        set_is_proper(s, files, key, value, now),
        roll_is_proper(s, files, later),
        set_succeeds(s, key, now, files),
        other != key,
        has_key(s.index, other) ==> lex_lt(value_of(s.index, other), later),
    ensures
        get_value(
            after_set(s, key, value, now, later, files),
            other,
            apply_actions(files, set_actions(s, key, value, now, later, files)),
        ) == get_value(s, other, files),
{
    let tk = timestamped_key_of(s, key, now);
    let cur = s.current_log_file;
    let after = after_set(s, key, value, now, later, files);
    let folder = apply_actions(files, set_actions(s, key, value, now, later, files));
    lemma_index_after_set(s, key, now);
    lemma_index_step(s, files, key, value, now);
    let first = apply_actions(files, index_actions(s, key, now));
    if has_key(s.index, other) {
        let t = value_of(s.index, other);
        assert(live(s, t));
        if has_key(s.index, key) {
            if t == tk {
                lemma_injective(s.index, other, key);
            }
        }
        assert(t != tk);
    }
    if in_memtable(s, tk) {
        let middle = written(s, key, value, now);
        let writing = written_actions(s, key, value, now);
        let second = apply_actions(files, writing);
        lemma_memtable_write_keeps_sound(s, files, key, value, now);
        lemma_upsert(s.memtable, tk, value);
        assert forall|base: Seq<char>|
            has_key(files, #[trigger] data_name(base)) == has_key(second, data_name(base)) && (
            has_key(files, data_name(base)) ==> value_of(files, data_name(base)) == value_of(
                second,
                data_name(base),
            )) by {
            lemma_names_apart(base, cur);
            lemma_written_after(s, files, key, value, now, data_name(base));
        }
        if has_key(s.index, other) {
            let t = value_of(s.index, other);
            lemma_map_facts(s.memtable, t);
            lemma_map_facts(middle.memtable, t);
        }
        lemma_get_depends(s, middle, files, second, other);
        if rolls(s, serialize(middle.memtable)) {
            lemma_names_apart(later, cur);
            if log_name(later) == log_name(cur) {
                lemma_lex_total(cur, cur);
            }
            lemma_written_after(s, files, key, value, now, log_name(later));
            lemma_roll_preserves_values(middle, second, later, other);
            assert(set_actions(s, key, value, now, later, files) =~= writing + roll_actions(
                s,
                later,
            ));
            assert(roll_actions(middle, later) == roll_actions(s, later));
            lemma_apply_concat(files, writing, roll_actions(s, later));
            assert(after == rolled(middle, later));
        } else {
            assert(set_actions(s, key, value, now, later, files) =~= writing);
            assert(after == middle);
        }
    } else {
        assert(has_key(s.index, key) && value_of(s.index, key) == tk);
        assert(live(s, tk));
        let paged = with_page(s, tk, files);
        lemma_page_change_is_invisible(s, files, tk, other);
        lemma_get_page_sound(s, files, tk);
        let name = data_name(paged.cache_start);
        let cache = upsert(paged.cache, tk, value);
        let write = ActionView::Write { name, content: serialize(cache) };
        assert(set_actions(s, key, value, now, later, files) =~= index_actions(s, key, now) + seq![
            write,
        ]);
        lemma_apply_concat(files, index_actions(s, key, now), seq![write]);
        lemma_apply_few(first, write, write);
        assert(folder == apply_action(first, write));
        assert(after == (StoreState { index: index_after_set(s, key, now), cache, ..paged }));
        if has_key(s.index, other) {
            let t = value_of(s.index, other);
            lemma_live_same_index(paged, s, t);
            lemma_live_same_index(paged, s, tk);
            lemma_upsert(paged.cache, tk, value);
            lemma_map_facts(paged.cache, t);
            lemma_map_facts(cache, t);
            if !in_memtable(s, t) && !cache_covers(paged, t) {
                assert(segment_range(after, t) == segment_range(paged, t));
                if segment_range(paged, t) is Some {
                    let range = segment_range(paged, t).unwrap();
                    let ts = paged.data_files.push(paged.current_log_file);
                    lemma_timestamps_sorted(paged);
                    lemma_range_holds_key(ts, t, 0);
                    lemma_range_holds_key(ts, tk, 0);
                    let i = choose|i: int|
                        0 <= i < ts.len() - 1 && range_from(ts, t, 0) == Some(
                            (#[trigger] ts[i], ts[i + 1]),
                        );
                    let j = choose|j: int|
                        0 <= j < ts.len() - 1 && range_from(ts, tk, 0) == Some(
                            (#[trigger] ts[j], ts[j + 1]),
                        );
                    assert(segment_range(paged, tk) == Some((paged.cache_start, paged.cache_end)));
                    if i < j {
                        assert(lex_lt(ts[i], ts[j]));
                        lemma_lex_total(ts[i], ts[i]);
                    } else if j < i {
                        assert(lex_lt(ts[j], ts[i]));
                        lemma_lex_total(ts[i], ts[i]);
                    }
                    assert(range.0 != paged.cache_start);
                    lemma_names_apart(range.0, paged.cache_start);
                    lemma_other_file(first, write, data_name(range.0));
                    assert(has_key(first, data_name(range.0)) == has_key(
                        files,
                        data_name(range.0),
                    ));
                }
            }
        }
    }
}

/// The database is a mapping, and `set` puts a key and its value into it.
///
/// This holds of a sound database, where the `set` is proper and succeeds,
/// the name of the log that a roll creates is fresh, and every timestamped
/// key comes before that name.
pub proof fn lemma_set_is_insert(
    s: StoreState,
    files: Seq<Pair>,
    key: Seq<char>,
    value: Seq<char>,
    now: Seq<char>,
    later: Seq<char>,
)
    requires
        sound(s, files),
        set_is_proper(s, files, key, value, now),
        roll_is_proper(s, files, later),
        set_succeeds(s, key, now, files),
        later_is_later(s, later),
        lex_lt(timestamped_key_of(s, key, now), later),
    ensures
        contents(
            after_set(s, key, value, now, later, files),
            apply_actions(files, set_actions(s, key, value, now, later, files)),
        ) == contents(s, files).insert(key, value),
{
    let after = after_set(s, key, value, now, later, files);
    let folder = apply_actions(files, set_actions(s, key, value, now, later, files));
    lemma_set_then_get(s, files, key, value, now, later);
    assert forall|other: Seq<char>| other != key implies get_value(after, other, folder)
        == get_value(s, other, files) by {
        lemma_set_spares_others(s, files, key, value, now, later, other);
    }
    assert(contents(after, folder) =~= contents(s, files).insert(key, value));
}

/// A key that was deleted is gone, and takes nothing with it: after
/// `delete`, `get` does not find the key, and finds for every other key
/// what it found before, in the folder that has followed the actions of the
/// `delete`.
pub proof fn lemma_delete_removes_the_key_alone(
    s: StoreState,
    files: Seq<Pair>,
    key: Seq<char>,
    other: Seq<char>,
)
    requires
        sound(s, files),
        has_key(s.index, key),
        other != key,
    ensures
        ({
            let after = after_delete(s, key);
            let folder = apply_actions(files, delete_actions(s, key));
            &&& !has_key(after.index, key)
            &&& get_value(after, key, folder) is None
            &&& get_value(after, other, folder) == get_value(s, other, files)
        }),
{
    let after = after_delete(s, key);
    let actions = delete_actions(s, key);
    let folder = apply_actions(files, actions);
    lemma_without(s.index, key);
    lemma_map_facts(s.index, other);
    lemma_map_facts(after.index, other);
    lemma_apply_few(files, actions[0], actions[1]);
    assert(actions =~= seq![actions[0], actions[1]]);
    let middle = apply_action(files, actions[0]);
    assert forall|b: Seq<char>|
        INDEX_FILENAME@ != #[trigger] data_name(b) && DEL_FILENAME@ != data_name(b) by {
        lemma_names_apart(b, b);
    }
    lemma_data_files_untouched(files, actions[0]);
    lemma_apply_action_map(files, actions[0]);
    lemma_data_files_untouched(middle, actions[1]);
    assert(same_data_files(files, folder));
    lemma_get_depends(s, after, files, folder, other);
}

/// The database is a mapping, and `delete` takes a key out of it.
///
/// This holds of a sound database.
pub proof fn lemma_delete_is_remove(s: StoreState, files: Seq<Pair>, key: Seq<char>)
    requires
        sound(s, files),
        has_key(s.index, key),
    ensures
        contents(after_delete(s, key), apply_actions(files, delete_actions(s, key))) == contents(
            s,
            files,
        ).remove(key),
{
    let after = after_delete(s, key);
    let folder = apply_actions(files, delete_actions(s, key));
    assert forall|other: Seq<char>| other != key implies get_value(after, other, folder)
        == get_value(s, other, files) && get_value(after, key, folder) is None by {
        lemma_delete_removes_the_key_alone(s, files, key, other);
    }
    // some key differs from the deleted one
    assert(key.push('x').len() != key.len());
    lemma_delete_removes_the_key_alone(s, files, key, key.push('x'));
    assert(contents(after, folder) =~= contents(s, files).remove(key));
}

/// `get` changes nothing that can be read: after a `get`, `get` finds for
/// every key what it found before.
///
/// This holds of a sound database.
pub proof fn lemma_get_changes_nothing(
    s: StoreState,
    files: Seq<Pair>,
    key: Seq<char>,
    other: Seq<char>,
)
    requires
        sound(s, files),
    ensures
        get_value(after_get(s, key, files), other, files) == get_value(s, other, files),
{
    if has_key(s.index, key) {
        let tk = value_of(s.index, key);
        assert(live(s, tk));
        if !in_memtable(s, tk) && page_available(s, tk, files) {
            lemma_page_change_is_invisible(s, files, tk, other);
        }
    }
}

/// What `get` finds for a live key does not depend on which page is in the
/// cache: bringing the page of another key into the cache changes nothing
/// that can be read.
///
/// This holds of a sound database.
pub proof fn lemma_page_change_is_invisible(
    s: StoreState,
    files: Seq<Pair>,
    tk: Seq<char>,
    other: Seq<char>,
)
    requires
        sound(s, files),
        live(s, tk),
        !in_memtable(s, tk),
        page_available(s, tk, files),
    ensures
        get_value(with_page(s, tk, files), other, files) == get_value(s, other, files),
{
    let after = with_page(s, tk, files);
    if has_key(s.index, other) && !cache_covers(s, tk) {
        let t = value_of(s.index, other);
        assert(live(s, t));
        lemma_live_same_index(after, s, t);
        let range = segment_range(s, tk).unwrap();
        lemma_range_holds_key(s.data_files.push(s.current_log_file), tk, 0);
        if !in_memtable(s, t) {
            assert(segment_range(after, t) == segment_range(s, t));
            if cache_covers(after, t) {
                // the key lies in the range of the new page
                lemma_range_of_segment(s, tk, t);
                if cache_covers(s, t) {
                    assert(segment_range(s, t) == Some((s.cache_start, s.cache_end)));
                    assert(cache_covers(s, tk));
                }
            } else if cache_covers(s, t) {
                // the key lay in the range of the old page, which its data file holds
                assert(segment_range(s, t) == Some((s.cache_start, s.cache_end)));
                assert(agree(
                    parse_entries(value_of(files, data_name(s.cache_start))),
                    s.cache,
                    t,
                ));
            }
        }
    }
}

/// The compaction of the segments changes nothing that can be read: in the
/// folder that has followed the actions of a compaction cycle, `get` finds
/// for every key what it found before.
///
/// This holds of a sound database.
pub proof fn lemma_compaction_is_invisible(s: StoreState, files: Seq<Pair>, key: Seq<char>)
    requires
        sound(s, files),
    ensures
        get_value(s, key, apply_actions(files, vacuum_actions(files))) == get_value(s, key, files),
{
    let folder = apply_actions(files, vacuum_actions(files));
    if has_key(s.index, key) {
        let tk = value_of(s.index, key);
        if !in_memtable(s, tk) && !cache_covers(s, tk) && segment_range(s, tk) is Some {
            let range = segment_range(s, tk).unwrap();
            let name = data_name(range.0);
            lemma_names_apart(range.0, range.0);
            lemma_vacuum_file(files, name);
            if has_key(files, name) {
                lemma_removal_spares(value_of(files, name), tombstones(files), tk);
            }
        }
    }
}

/// A roll leaves one immutable segment more, and one active log: the file
/// of the old log is a data file of the folder, with what it held, the new
/// log is a file of the folder, and the file of the old log is gone.
pub proof fn lemma_roll_adds_one_segment(s: StoreState, files: Seq<Pair>, later: Seq<char>)
    requires
        distinct_keys(files),
        has_key(files, log_name(s.current_log_file)),
        later != s.current_log_file,
    ensures
        ({
            let after = rolled(s, later);
            let folder = apply_actions(files, roll_actions(s, later));
            &&& after.data_files.len() == s.data_files.len() + 1
            &&& after.current_log_file == later
            &&& after.memtable == Seq::<Pair>::empty()
            &&& distinct_keys(folder)
            &&& has_key(folder, data_name(s.current_log_file))
            &&& value_of(folder, data_name(s.current_log_file)) == value_of(
                files,
                log_name(s.current_log_file),
            )
            &&& has_key(folder, log_name(later))
            &&& !has_key(folder, log_name(s.current_log_file))
        }),
{
    let cur = s.current_log_file;
    let actions = roll_actions(s, later);
    lemma_insert_sorted_len(s.data_files, cur);
    lemma_apply_few(files, actions[0], actions[1]);
    assert(actions =~= seq![actions[0], actions[1]]);
    let f1 = apply_action(files, actions[0]);
    let f2 = apply_action(f1, actions[1]);
    lemma_apply_action_map(files, actions[0]);
    lemma_apply_action_map(f1, actions[1]);
    lemma_names_apart(cur, cur);
    lemma_names_apart(cur, later);
    lemma_names_apart(later, cur);
    lemma_map_facts(files, log_name(cur));
    lemma_map_facts(files, log_name(later));
    lemma_map_facts(f1, log_name(later));
    lemma_map_facts(f1, log_name(cur));
    lemma_map_facts(f1, data_name(cur));
    lemma_map_facts(f2, data_name(cur));
    lemma_map_facts(f2, log_name(later));
    lemma_map_facts(f2, log_name(cur));
}

/// The roll of the log changes nothing that can be read: after a roll,
/// `get` finds for every key what it found before, in the folder that has
/// followed the actions of the roll.
///
/// This holds of a sound database, where the name of the new log is fresh
/// and the timestamped key of the key comes before it.
pub proof fn lemma_roll_preserves_values(
    s: StoreState,
    files: Seq<Pair>,
    later: Seq<char>,
    key: Seq<char>,
)
    requires
        sound(s, files),
        roll_is_proper(s, files, later),
        has_key(s.index, key) ==> lex_lt(value_of(s.index, key), later),
    ensures
        get_value(rolled(s, later), key, apply_actions(files, roll_actions(s, later)))
            == get_value(s, key, files),
{
    let cur = s.current_log_file;
    let after = rolled(s, later);
    let folder = apply_actions(files, roll_actions(s, later));
    if has_key(s.index, key) {
        let tk = value_of(s.index, key);
        assert(live(s, tk));
        if cur == later {
            lemma_lex_total(cur, cur);
        }
        if in_memtable(s, tk) {
            lemma_range_after_roll(s, tk, later);
            lemma_roll_adds_one_segment(s, files, later);
            assert(agree(parse_entries(value_of(files, log_name(cur))), s.memtable, tk));
            assert(page_available(after, tk, folder));
            assert(with_page(after, tk, folder).cache == parse_entries(
                value_of(files, log_name(cur)),
            ));
        } else {
            lemma_lex_strict(tk, cur, later);
            assert(!in_memtable(after, tk));
            assert(cache_covers(after, tk) == cache_covers(s, tk));
            if !cache_covers(s, tk) {
                lemma_insert_behind(s.data_files, cur);
                let ts = s.data_files.push(cur);
                assert(ts.last() == cur);
                lemma_range_extend(ts, later, tk, 0);
                assert(segment_range(after, tk) == segment_range(s, tk));
                if segment_range(s, tk) is Some {
                    lemma_range_holds_key(ts, tk, 0);
                    let j = choose|j: int|
                        0 <= j < ts.len() - 1 && range_from(ts, tk, 0) == Some(
                            (#[trigger] ts[j], ts[j + 1]),
                        );
                    let start = ts[j];
                    assert(start == s.data_files[j]);
                    assert(lex_lt(start, cur));
                    if start == cur {
                        lemma_lex_total(cur, cur);
                    }
                    lemma_names_apart(start, cur);
                    lemma_names_apart(start, later);
                    lemma_roll_leaves_others(files, s, later, data_name(start));
                }
            }
        }
    }
}

/// Restart recovery: a store that is loaded from the folder of a database
/// finds for every key what the store of that database found.
///
/// This holds of a sound database whose files are listed, where the cached
/// page of the store that is loaded covers no key, as that of a new store
/// does.
pub proof fn lemma_restart_recovers(
    s: StoreState,
    fresh: StoreState,
    files: Seq<Pair>,
    now: Seq<char>,
    key: Seq<char>,
)
    requires
        sound(s, files),
        listed(s, files),
        forall|tk: Seq<char>| !cache_covers(fresh, tk),
    ensures
        load_succeeds(files, now),
        get_value(after_load(fresh, files, now), key, loaded_files(files, now)) == get_value(
            s,
            key,
            files,
        ),
{
    let cur = s.current_log_file;
    let folder = loaded_files(files, now);
    let after = after_load(fresh, files, now);
    let keys = tombstones(files);
    lemma_loaded_state(s, fresh, files, now);
    lemma_names_apart(cur, cur);
    lemma_vacuum_file(files, log_name(cur));
    if has_key(s.index, key) {
        let tk = value_of(s.index, key);
        assert(live(s, tk));
        assert(!among(keys, tk));
        if in_memtable(s, tk) {
            let log = value_of(files, log_name(cur));
            lemma_removal_spares(log, keys, tk);
            assert(agree(parse_entries(log), s.memtable, tk));
        } else {
            assert(!cache_covers(fresh, tk));
            assert(!cache_covers(after, tk));
            assert(segment_range(after, tk) == segment_range(s, tk));
            if segment_range(s, tk) is Some {
                let range = segment_range(s, tk).unwrap();
                let name = data_name(range.0);
                lemma_names_apart(range.0, range.0);
                lemma_vacuum_file(files, name);
                if has_key(files, name) {
                    lemma_removal_spares(value_of(files, name), keys, tk);
                }
            }
            if cache_covers(s, tk) {
                assert(segment_range(s, tk) == Some((s.cache_start, s.cache_end)));
                assert(agree(
                    parse_entries(value_of(files, data_name(s.cache_start))),
                    s.cache,
                    tk,
                ));
            }
        }
    }
}

/// The database is a mapping that a restart leaves as it is.
///
/// This holds of a sound database whose files are listed, where the cached
/// page of the store that is loaded covers no key, as that of a new store
/// does.
pub proof fn lemma_restart_keeps_contents(
    s: StoreState,
    fresh: StoreState,
    files: Seq<Pair>,
    now: Seq<char>,
)
    requires
        sound(s, files),
        listed(s, files),
        forall|tk: Seq<char>| !cache_covers(fresh, tk),
    ensures
        load_succeeds(files, now),
        contents(after_load(fresh, files, now), loaded_files(files, now)) == contents(s, files),
{
    assert forall|key: Seq<char>|
        get_value(after_load(fresh, files, now), key, loaded_files(files, now)) == get_value(
            s,
            key,
            files,
        ) by {
        lemma_restart_recovers(s, fresh, files, now, key);
    }
    lemma_restart_recovers(s, fresh, files, now, Seq::empty());
    assert(contents(after_load(fresh, files, now), loaded_files(files, now)) =~= contents(
        s,
        files,
    ));
}

/// The database is a mapping that `get`, the compaction of the segments and
/// the roll of the log leave as it is.
///
/// This holds of a sound database, where the name of the log that the roll
/// creates is fresh and every timestamped key comes before that name.
pub proof fn lemma_contents_are_kept(
    s: StoreState,
    files: Seq<Pair>,
    key: Seq<char>,
    later: Seq<char>,
)
    requires
        sound(s, files),
    ensures
        contents(after_get(s, key, files), files) == contents(s, files),
        contents(s, apply_actions(files, vacuum_actions(files))) == contents(s, files),
        roll_is_proper(s, files, later) && later_is_later(s, later) ==> contents(
            rolled(s, later),
            apply_actions(files, roll_actions(s, later)),
        ) == contents(s, files),
{
    assert forall|other: Seq<char>|
        get_value(after_get(s, key, files), other, files) == get_value(s, other, files)
            && get_value(s, other, apply_actions(files, vacuum_actions(files))) == get_value(
            s,
            other,
            files,
        ) by {
        lemma_get_changes_nothing(s, files, key, other);
        lemma_compaction_is_invisible(s, files, other);
    }
    assert(contents(after_get(s, key, files), files) =~= contents(s, files));
    assert(contents(s, apply_actions(files, vacuum_actions(files))) =~= contents(s, files));
    if roll_is_proper(s, files, later) && later_is_later(s, later) {
        assert forall|other: Seq<char>|
            get_value(rolled(s, later), other, apply_actions(files, roll_actions(s, later)))
                == get_value(s, other, files) by {
            lemma_roll_preserves_values(s, files, later, other);
        }
        assert(contents(rolled(s, later), apply_actions(files, roll_actions(s, later)))
            =~= contents(s, files));
    }
}

/// An empty database holds nothing.
pub proof fn lemma_empty_database_holds_nothing(fresh: StoreState, now: Seq<char>)
    requires
        now.len() > 0,
        distinct_keys(fresh.cache),
        clean(fresh.cache),
        forall|k: Seq<char>| #[trigger]
            in_range(fresh.cache_start, fresh.cache_end, k) ==> lex_lt(k, now),
    ensures
        contents(after_load(fresh, Seq::empty(), now), loaded_files(Seq::empty(), now))
            == Map::<Seq<char>, Seq<char>>::empty(),
{
    lemma_empty_database_is_sound(fresh, now);
    let after = after_load(fresh, Seq::empty(), now);
    assert forall|key: Seq<char>| !has_key(after.index, key) by {
        if has_key(after.index, key) {
            let i = position_of(after.index, key);
        }
    }
    assert(contents(after, loaded_files(Seq::empty(), now)) =~= Map::<
        Seq<char>,
        Seq<char>,
    >::empty());
}

/// Where every key of the index can be read, `get` finds a value for a key
/// just where the index holds the key.
pub proof fn lemma_get_finds_the_keys_of_the_index(s: StoreState, files: Seq<Pair>, key: Seq<char>)
    requires
        readable(s, files),
    ensures
        get_value(s, key, files) is Some == has_key(s.index, key),
{
}

/// `get` keeps every key of the index readable.
pub proof fn lemma_get_keeps_readable(s: StoreState, files: Seq<Pair>, key: Seq<char>)
    requires
        sound(s, files),
        readable(s, files),
    ensures
        readable(after_get(s, key, files), files),
{
    let after = after_get(s, key, files);
    assert forall|other: Seq<char>| #[trigger] has_key(after.index, other) implies get_value(
        after,
        other,
        files,
    ) is Some by {
        lemma_get_changes_nothing(s, files, key, other);
        assert(has_key(s.index, other));
    }
}

/// `set` keeps every key of the index readable, and the key that was set
/// is one of them.
///
/// This holds of a sound database, where the `set` is proper and succeeds,
/// the name of the log that a roll creates is fresh, and every timestamped
/// key comes before that name.
pub proof fn lemma_set_keeps_readable(
    s: StoreState,
    files: Seq<Pair>,
    key: Seq<char>,
    value: Seq<char>,
    now: Seq<char>,
    later: Seq<char>,
)
    requires
        sound(s, files),
        readable(s, files),
        set_is_proper(s, files, key, value, now),
        roll_is_proper(s, files, later),
        set_succeeds(s, key, now, files),
        later_is_later(s, later),
        lex_lt(timestamped_key_of(s, key, now), later),
    ensures
        has_key(after_set(s, key, value, now, later, files).index, key),
        readable(
            after_set(s, key, value, now, later, files),
            apply_actions(files, set_actions(s, key, value, now, later, files)),
        ),
{
    let after = after_set(s, key, value, now, later, files);
    let folder = apply_actions(files, set_actions(s, key, value, now, later, files));
    lemma_index_after_set(s, key, now);
    assert(after.index == index_after_set(s, key, now));
    assert forall|other: Seq<char>| #[trigger] has_key(after.index, other) implies get_value(
        after,
        other,
        folder,
    ) is Some by {
        if other == key {
            lemma_set_then_get(s, files, key, value, now, later);
        } else {
            assert(has_key(s.index, other));
            lemma_set_spares_others(s, files, key, value, now, later, other);
        }
    }
}

/// `delete` keeps every key of the index readable, and the key that was
/// deleted is none of them.
pub proof fn lemma_delete_keeps_readable(s: StoreState, files: Seq<Pair>, key: Seq<char>)
    requires
        sound(s, files),
        readable(s, files),
        has_key(s.index, key),
    ensures
        !has_key(after_delete(s, key).index, key),
        readable(after_delete(s, key), apply_actions(files, delete_actions(s, key))),
{
    let after = after_delete(s, key);
    let folder = apply_actions(files, delete_actions(s, key));
    lemma_without(s.index, key);
    assert forall|other: Seq<char>| #[trigger] has_key(after.index, other) implies get_value(
        after,
        other,
        folder,
    ) is Some by {
        lemma_map_facts(s.index, other);
        lemma_map_facts(after.index, other);
        lemma_delete_removes_the_key_alone(s, files, key, other);
        assert(has_key(s.index, other));
    }
}

/// A compaction cycle keeps every key of the index readable.
pub proof fn lemma_vacuum_keeps_readable(s: StoreState, files: Seq<Pair>)
    requires
        sound(s, files),
        readable(s, files),
    ensures
        readable(s, apply_actions(files, vacuum_actions(files))),
{
    assert forall|key: Seq<char>| #[trigger] has_key(s.index, key) implies get_value(
        s,
        key,
        apply_actions(files, vacuum_actions(files)),
    ) is Some by {
        lemma_compaction_is_invisible(s, files, key);
    }
}

/// A roll keeps every key of the index readable, where the name of the
/// new log is fresh and every timestamped key comes before it.
pub proof fn lemma_roll_keeps_readable(s: StoreState, files: Seq<Pair>, later: Seq<char>)
    requires
        sound(s, files),
        readable(s, files),
        roll_is_proper(s, files, later),
        later_is_later(s, later),
    ensures
        readable(rolled(s, later), apply_actions(files, roll_actions(s, later))),
{
    assert forall|key: Seq<char>| #[trigger] has_key(rolled(s, later).index, key) implies get_value(
        rolled(s, later),
        key,
        apply_actions(files, roll_actions(s, later)),
    ) is Some by {
        assert(has_key(s.index, key));
        lemma_roll_preserves_values(s, files, later, key);
    }
}

/// A restart keeps every key of the index readable.
pub proof fn lemma_restart_keeps_readable(
    s: StoreState,
    fresh: StoreState,
    files: Seq<Pair>,
    now: Seq<char>,
)
    requires
        sound(s, files),
        listed(s, files),
        readable(s, files),
        forall|tk: Seq<char>| !cache_covers(fresh, tk),
    ensures
        readable(after_load(fresh, files, now), loaded_files(files, now)),
{
    lemma_loaded_state(s, fresh, files, now);
    assert forall|key: Seq<char>| #[trigger]
        has_key(after_load(fresh, files, now).index, key) implies get_value(
        after_load(fresh, files, now),
        key,
        loaded_files(files, now),
    ) is Some by {
        assert(has_key(s.index, key));
        lemma_restart_recovers(s, fresh, files, now, key);
    }
}

/// The two folders hold the same data files with the same contents.
pub open spec fn same_data_files(a: Seq<Pair>, b: Seq<Pair>) -> bool {
    forall|base: Seq<char>|
        has_key(a, #[trigger] data_name(base)) == has_key(b, data_name(base)) && (has_key(
            a,
            data_name(base),
        ) ==> value_of(a, data_name(base)) == value_of(b, data_name(base)))
}

/// An action that writes neither a data file nor moves one leaves the data
/// files as they are.
pub proof fn lemma_data_files_untouched(files: Seq<Pair>, action: ActionView)
    requires
        distinct_keys(files),
        match action {
            ActionView::Create { name } => forall|b: Seq<char>| name != data_name(b),
            ActionView::Write { name, content } => forall|b: Seq<char>| name != data_name(b),
            ActionView::Append { name, content } => forall|b: Seq<char>| name != data_name(b),
            ActionView::Rename { from, to } => false,
            ActionView::RemoveAll => false,
        },
    ensures
        same_data_files(files, apply_action(files, action)),
{
    lemma_apply_action_map(files, action);
    let after = apply_action(files, action);
    assert forall|base: Seq<char>|
        has_key(files, #[trigger] data_name(base)) == has_key(after, data_name(base)) && (has_key(
            files,
            data_name(base),
        ) ==> value_of(files, data_name(base)) == value_of(after, data_name(base))) by {
        lemma_map_facts(files, data_name(base));
        lemma_map_facts(after, data_name(base));
    }
}

/// What `get` finds depends on the folder through its data files alone, and
/// on the index and the memtable through the entries of the key alone.
pub proof fn lemma_get_depends(
    s: StoreState,
    t: StoreState,
    files: Seq<Pair>,
    others: Seq<Pair>,
    key: Seq<char>,
)
    requires
        t == (StoreState { index: t.index, memtable: t.memtable, ..s }),
        has_key(t.index, key) == has_key(s.index, key),
        has_key(s.index, key) ==> value_of(t.index, key) == value_of(s.index, key) && agree(
            t.memtable,
            s.memtable,
            value_of(s.index, key),
        ),
        same_data_files(files, others),
    ensures
        get_value(t, key, others) == get_value(s, key, files),
{
    if has_key(s.index, key) {
        let tk = value_of(s.index, key);
        assert(segment_range(t, tk) == segment_range(s, tk));
        if segment_range(s, tk) is Some {
            let range = segment_range(s, tk).unwrap();
            assert(has_key(files, data_name(range.0)) == has_key(others, data_name(range.0)));
        }
        assert(page_available(t, tk, others) == page_available(s, tk, files));
        assert(with_page(t, tk, others).cache == with_page(s, tk, files).cache);
    }
}

/// The folder after the file actions of a save to the memtable that rolls
/// the log: the old log is a data file that holds the memtable.
pub proof fn lemma_folder_after_roll(
    files: Seq<Pair>,
    before: Seq<ActionView>,
    cur: Seq<char>,
    content: Seq<char>,
    later: Seq<char>,
)
    requires
        distinct_keys(files),
    ensures
        ({
            let actions = before + seq![ActionView::Write { name: log_name(cur), content }] + seq![
                ActionView::Rename { from: log_name(cur), to: data_name(cur) },
                ActionView::Create { name: log_name(later) },
            ];
            let folder = apply_actions(files, actions);
            &&& distinct_keys(folder)
            &&& has_key(folder, data_name(cur))
            &&& value_of(folder, data_name(cur)) == content
        }),
{
    let write = ActionView::Write { name: log_name(cur), content };
    let rename = ActionView::Rename { from: log_name(cur), to: data_name(cur) };
    let create = ActionView::Create { name: log_name(later) };
    let f0 = apply_actions(files, before);
    lemma_apply_actions_distinct(files, before);
    lemma_apply_concat(files, before, seq![write]);
    lemma_apply_concat(files, before + seq![write], seq![rename, create]);
    lemma_apply_few(f0, write, write);
    let f1 = apply_action(f0, write);
    lemma_apply_few(f1, rename, create);
    let f2 = apply_action(f1, rename);
    let f3 = apply_action(f2, create);
    lemma_apply_action_map(f0, write);
    lemma_apply_action_map(f1, rename);
    lemma_apply_action_map(f2, create);
    lemma_names_apart(cur, cur);
    lemma_names_apart(cur, later);
    lemma_map_facts(f1, log_name(cur));
    lemma_map_facts(f2, data_name(cur));
    lemma_map_facts(f3, data_name(cur));
}

/// An action that renames one file and creates another leaves every other
/// file as it is.
pub proof fn lemma_roll_leaves_others(
    files: Seq<Pair>,
    s: StoreState,
    later: Seq<char>,
    name: Seq<char>,
)
    requires
        distinct_keys(files),
        name != log_name(s.current_log_file),
        name != data_name(s.current_log_file),
        name != log_name(later),
    ensures
        has_key(apply_actions(files, roll_actions(s, later)), name) == has_key(files, name),
        has_key(files, name) ==> value_of(apply_actions(files, roll_actions(s, later)), name)
            == value_of(files, name),
{
    let actions = roll_actions(s, later);
    lemma_apply_few(files, actions[0], actions[1]);
    assert(actions =~= seq![actions[0], actions[1]]);
    let f1 = apply_action(files, actions[0]);
    let f2 = apply_action(f1, actions[1]);
    lemma_apply_action_map(files, actions[0]);
    lemma_apply_action_map(f1, actions[1]);
    lemma_map_facts(files, name);
    lemma_map_facts(f1, name);
    lemma_map_facts(f2, name);
}

/// A file that a `set` to the memtable does not write is after the writing
/// what it was before.
pub proof fn lemma_written_after(
    s: StoreState,
    files: Seq<Pair>,
    key: Seq<char>,
    value: Seq<char>,
    now: Seq<char>,
    name: Seq<char>,
)
    requires
        sound(s, files),
        set_is_proper(s, files, key, value, now),
        name != INDEX_FILENAME@,
        name != log_name(s.current_log_file),
    ensures
        has_key(apply_actions(files, written_actions(s, key, value, now)), name) == has_key(
            files,
            name,
        ),
        has_key(files, name) ==> value_of(
            apply_actions(files, written_actions(s, key, value, now)),
            name,
        ) == value_of(files, name),
{
    let tk = timestamped_key_of(s, key, now);
    let write = ActionView::Write {
        name: log_name(s.current_log_file),
        content: serialize(upsert(s.memtable, tk, value)),
    };
    let first = apply_actions(files, index_actions(s, key, now));
    lemma_index_step(s, files, key, value, now);
    lemma_apply_concat(files, index_actions(s, key, now), seq![write]);
    lemma_apply_few(first, write, write);
    lemma_other_file(first, write, name);
    assert(has_key(first, name) == has_key(files, name));
}

} // verus!
