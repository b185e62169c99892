//! What the removal of keys does to a content and to a folder: the entries
//! of the keys that were removed are gone, and every other entry is what it
//! was.

use vstd::prelude::*;
use crate::constants::{kv_sep, token_sep, DEL_FILENAME};
use crate::disk::{apply_action, apply_actions, ActionView};
use crate::entries::{
    distinct_keys, has_key, lemma_entries_of_tokens_distinct, lemma_map_facts, lemma_position,
    lemma_upsert, parse_entries, position_of, serialize, upsert, value_of, Pair,
};
use crate::model::{is_segment, names_of, segment_rewrites, tombstones, vacuum_actions};
use crate::roundtrip::{
    bodies, body_of, clean, lemma_body_tight, lemma_match_chars, lemma_match_prefix,
    lemma_match_shift, lemma_parse_serialize, lemma_separator_shapes, lemma_serialize_is_join,
    lemma_tight_from_free, lemma_tokens_of_join, tight,
};
use crate::text::is_prefix_of;
use crate::tokens::{free_of, matches_at, tokens};
use crate::utils::{has_any_prefix, key_prefixes, surviving, without_keys};

verus! {

/// The key is one of the keys.
pub open spec fn among(keys: Seq<Seq<char>>, key: Seq<char>) -> bool {
    exists|i: int| 0 <= i < keys.len() && #[trigger] keys[i] == key
}

/// The entries whose keys are none of the given keys, in their order.
pub open spec fn kept(entries: Seq<Pair>, keys: Seq<Seq<char>>) -> Seq<Pair>
    decreases entries.len(),
{
    if entries.len() == 0 {
        Seq::empty()
    } else if among(keys, entries.last().key) {
        kept(entries.drop_last(), keys)
    } else {
        kept(entries.drop_last(), keys).push(entries.last())
    }
}

/// The content is the serialization of the entries that it stands for, and
/// no key and no value of them holds a separator.
pub open spec fn well_written(content: Seq<char>) -> bool {
    clean(parse_entries(content)) && serialize(parse_entries(content)) == content
}

/// The serialization of clean entries with distinct keys is well written.
pub proof fn lemma_serialization_well_written(entries: Seq<Pair>)
    requires
        distinct_keys(entries),
        clean(entries),
    ensures
        well_written(serialize(entries)),
        parse_entries(serialize(entries)) == entries,
{
    lemma_parse_serialize(entries);
}

/// A key followed by the key-value separator stands at the beginning of the
/// body of an entry just where it is the key of the entry.
pub proof fn lemma_prefix_is_key(e: Pair, key: Seq<char>)
    requires
        free_of(e.key, kv_sep()),
        free_of(e.value, kv_sep()),
    ensures
        is_prefix_of(key + kv_sep(), body_of(e)) == (key == e.key),
{
    lemma_separator_shapes();
    let kv = kv_sep();
    let b = body_of(e);
    let kl = e.key.len() as int;
    if key == e.key {
        assert(b.subrange(0, (key + kv).len() as int) =~= key + kv);
    }
    if is_prefix_of(key + kv, b) {
        let p = key.len() as int;
        let prefix = b.subrange(0, p + 7);
        assert(prefix == key + kv);
        assert(b.subrange(p, p + 7) =~= prefix.subrange(p, p + 7));
        assert((key + kv).subrange(p, p + 7) =~= kv);
        assert(matches_at(b, kv, p));
        if p < kl {
            lemma_tight_from_free(e.key, kv);
            assert(b =~= (e.key + kv) + e.value);
            lemma_match_prefix(e.key + kv, e.value, kv, p);
            assert(matches_at(e.key + kv, kv, p));
        } else if p > kl {
            let q = p - kl;
            if q < 7 {
                lemma_match_chars(b, kv, p, 0);
                assert(b[p] == kv[q]);
            } else {
                assert(b =~= (e.key + kv) + e.value);
                lemma_match_shift(e.key + kv, e.value, kv, q - 7);
                assert(matches_at(e.value, kv, q - 7));
            }
        } else {
            assert(key =~= prefix.subrange(0, p));
            assert(e.key =~= b.subrange(0, kl));
            assert(prefix.subrange(0, p) =~= b.subrange(0, p));
        }
    }
}

/// The body of a clean entry begins with one of the prefixes of the keys
/// just where its key is among the keys.
pub proof fn lemma_body_prefix(e: Pair, keys: Seq<Seq<char>>)
    requires
        free_of(e.key, kv_sep()),
        free_of(e.value, kv_sep()),
    ensures
        has_any_prefix(body_of(e), key_prefixes(keys)) == among(keys, e.key),
{
    let prefixes = key_prefixes(keys);
    if has_any_prefix(body_of(e), prefixes) {
        let i = choose|i: int|
            0 <= i < prefixes.len() && is_prefix_of(#[trigger] prefixes[i], body_of(e));
        lemma_prefix_is_key(e, keys[i]);
        assert(keys[i] == e.key);
    }
    if among(keys, e.key) {
        let i = choose|i: int| 0 <= i < keys.len() && #[trigger] keys[i] == e.key;
        lemma_prefix_is_key(e, keys[i]);
        assert(is_prefix_of(prefixes[i], body_of(e)));
    }
}

/// The bodies that survive the removal of keys are the bodies of the
/// entries that are kept.
pub proof fn lemma_surviving_bodies(entries: Seq<Pair>, keys: Seq<Seq<char>>)
    requires
        clean(entries),
    ensures
        surviving(bodies(entries), key_prefixes(keys)) == bodies(kept(entries, keys)),
    decreases entries.len(),
{
    if entries.len() == 0 {
        assert(bodies(entries) =~= Seq::<Seq<char>>::empty());
        assert(bodies(kept(entries, keys)) =~= Seq::<Seq<char>>::empty());
    } else {
        let front = entries.drop_last();
        let e = entries.last();
        assert forall|i: int| 0 <= i < front.len() implies {
            &&& free_of((#[trigger] front[i]).key, kv_sep())
            &&& free_of(front[i].key, token_sep())
            &&& free_of(front[i].value, kv_sep())
            &&& free_of(front[i].value, token_sep())
        } by {
            assert(front[i] == entries[i]);
        }
        lemma_surviving_bodies(front, keys);
        assert(bodies(entries).drop_last() =~= bodies(front));
        assert(bodies(entries).last() == body_of(e));
        lemma_body_prefix(e, keys);
        if !among(keys, e.key) {
            assert(bodies(kept(front, keys).push(e)) =~= bodies(kept(front, keys)).push(
                body_of(e),
            ));
        }
    }
}

/// The entries that are kept are entries of the run: they are clean where
/// the run is, their keys are distinct where those of the run are, none of
/// them has one of the removed keys, and every other key has the value that
/// it had.
pub proof fn lemma_kept(entries: Seq<Pair>, keys: Seq<Seq<char>>)
    requires
        distinct_keys(entries),
    ensures
        distinct_keys(kept(entries, keys)),
        clean(entries) ==> clean(kept(entries, keys)),
        forall|k: Seq<char>|
            has_key(kept(entries, keys), k) == (has_key(entries, k) && !among(keys, k)),
        forall|k: Seq<char>|
            has_key(kept(entries, keys), k) ==> value_of(kept(entries, keys), k) == value_of(
                entries,
                k,
            ),
    decreases entries.len(),
{
    let result = kept(entries, keys);
    if entries.len() > 0 {
        let front = entries.drop_last();
        let e = entries.last();
        let last = entries.len() - 1;
        assert forall|i: int, j: int| 0 <= i < j < front.len() implies (#[trigger] front[i]).key != (
        #[trigger] front[j]).key by {
            assert(front[i] == entries[i] && front[j] == entries[j]);
        }
        lemma_kept(front, keys);
        let inner = kept(front, keys);
        if clean(entries) {
            assert forall|i: int| 0 <= i < front.len() implies {
                &&& free_of((#[trigger] front[i]).key, kv_sep())
                &&& free_of(front[i].key, token_sep())
                &&& free_of(front[i].value, kv_sep())
                &&& free_of(front[i].value, token_sep())
            } by {
                assert(front[i] == entries[i]);
            }
            assert(clean(inner));
            assert(entries[last] == e);
            assert forall|i: int| 0 <= i < result.len() implies {
                &&& free_of((#[trigger] result[i]).key, kv_sep())
                &&& free_of(result[i].key, token_sep())
                &&& free_of(result[i].value, kv_sep())
                &&& free_of(result[i].value, token_sep())
            } by {
                if i < inner.len() {
                    assert(result[i] == inner[i]);
                } else {
                    assert(result[i] == e);
                }
            }
        }
        assert forall|k: Seq<char>| has_key(front, k) <==> (has_key(entries, k) && k != e.key) by {
            if has_key(front, k) {
                let i = position_of(front, k);
                assert(front[i] == entries[i]);
                assert(entries[i].key != entries[last].key);
            }
            if has_key(entries, k) && k != e.key {
                let i = position_of(entries, k);
                assert(front[i] == entries[i]);
            }
        }
        assert forall|k: Seq<char>| has_key(front, k) implies value_of(front, k) == value_of(
            entries,
            k,
        ) by {
            let i = position_of(front, k);
            assert(front[i] == entries[i]);
            lemma_position(entries, k, i);
        }
        lemma_position(entries, e.key, last);
        if among(keys, e.key) {
            assert(result == inner);
        } else {
            assert(result == inner.push(e));
            assert(!has_key(inner, e.key));
            assert forall|i: int, j: int| 0 <= i < j < result.len() implies (
            #[trigger] result[i]).key != (#[trigger] result[j]).key by {
                if j < inner.len() {
                    assert(result[i] == inner[i] && result[j] == inner[j]);
                } else {
                    assert(result[i] == inner[i]);
                    assert(result[j] == e);
                }
            }
            lemma_position(result, e.key, inner.len() as int);
            assert forall|k: Seq<char>| has_key(result, k) <==> (has_key(inner, k) || k
                == e.key) by {
                if has_key(result, k) {
                    let i = position_of(result, k);
                    if i < inner.len() {
                        assert(result[i] == inner[i]);
                    }
                }
                if has_key(inner, k) {
                    let i = position_of(inner, k);
                    assert(result[i] == inner[i]);
                }
            }
            assert forall|k: Seq<char>| has_key(result, k) implies value_of(result, k) == value_of(
                entries,
                k,
            ) by {
                if k != e.key {
                    let i = position_of(inner, k);
                    assert(result[i] == inner[i]);
                    lemma_position(result, k, i);
                }
            }
        }
    }
}

/// The removal of keys from a content that is well written leaves a content
/// that is well written and stands for the entries that are kept.
pub proof fn lemma_removal_keeps_the_rest(content: Seq<char>, keys: Seq<Seq<char>>)
    requires
        well_written(content),
    ensures
        well_written(without_keys(content, keys)),
        parse_entries(without_keys(content, keys)) == kept(parse_entries(content), keys),
{
    let entries = parse_entries(content);
    lemma_entries_of_tokens_distinct(tokens(content));
    lemma_serialize_is_join(entries);
    let ts = bodies(entries);
    assert forall|i: int| 0 <= i < ts.len() implies tight(#[trigger] ts[i], token_sep()) by {
        lemma_body_tight(entries[i]);
    }
    if ts.len() > 0 {
        lemma_body_tight(entries.last());
    }
    lemma_tokens_of_join(ts);
    assert(tokens(content) == ts);
    lemma_surviving_bodies(entries, keys);
    lemma_kept(entries, keys);
    let rest = kept(entries, keys);
    lemma_serialize_is_join(rest);
    lemma_parse_serialize(rest);
}

/// The removal of keys from a content that is well written changes nothing
/// for a key that is not removed.
pub proof fn lemma_removal_spares(content: Seq<char>, keys: Seq<Seq<char>>, key: Seq<char>)
    requires
        well_written(content),
        !among(keys, key),
    ensures
        has_key(parse_entries(without_keys(content, keys)), key) == has_key(
            parse_entries(content),
            key,
        ),
        has_key(parse_entries(content), key) ==> value_of(
            parse_entries(without_keys(content, keys)),
            key,
        ) == value_of(parse_entries(content), key),
{
    lemma_removal_keeps_the_rest(content, keys);
    lemma_entries_of_tokens_distinct(tokens(content));
    lemma_kept(parse_entries(content), keys);
}

/// The folder in which the first `i` files, where they are segments, have
/// lost the tokens of the given keys.
pub open spec fn compacted_upto(files: Seq<Pair>, keys: Seq<Seq<char>>, i: int) -> Seq<Pair> {
    Seq::new(
        files.len(),
        |j: int|
            if j < i && is_segment(files[j].key) {
                Pair { key: files[j].key, value: without_keys(files[j].value, keys) }
            } else {
                files[j]
            },
    )
}

/// The folder in which every segment has lost the tokens of the given keys.
pub open spec fn compacted(files: Seq<Pair>, keys: Seq<Seq<char>>) -> Seq<Pair> {
    compacted_upto(files, keys, files.len() as int)
}

/// The rewrites of the first `i` files of a folder do to the folder what
/// their name says.
pub proof fn lemma_rewrites_upto(files: Seq<Pair>, keys: Seq<Seq<char>>, i: int)
    requires
        distinct_keys(files),
        0 <= i <= files.len(),
    ensures
        apply_actions(files, segment_rewrites(files.take(i), keys)) == compacted_upto(
            files,
            keys,
            i,
        ),
        distinct_keys(compacted_upto(files, keys, i)),
    decreases i,
{
    let target = compacted_upto(files, keys, i);
    assert forall|a: int, b: int| 0 <= a < b < target.len() implies (#[trigger] target[a]).key != (
    #[trigger] target[b]).key by {
        assert(target[a].key == files[a].key && target[b].key == files[b].key);
    }
    if i == 0 {
        assert(files.take(0) =~= Seq::<Pair>::empty());
        assert(target =~= files);
    } else {
        lemma_rewrites_upto(files, keys, i - 1);
        let before = compacted_upto(files, keys, i - 1);
        let upto = files.take(i);
        assert(upto.drop_last() =~= files.take(i - 1));
        assert(upto.last() == files[i - 1]);
        let rest = segment_rewrites(files.take(i - 1), keys);
        if is_segment(files[i - 1].key) {
            let write = ActionView::Write {
                name: files[i - 1].key,
                content: without_keys(files[i - 1].value, keys),
            };
            assert(segment_rewrites(upto, keys) == rest.push(write));
            assert(rest.push(write).drop_last() =~= rest);
            assert(before[i - 1].key == files[i - 1].key);
            lemma_position(before, files[i - 1].key, i - 1);
            assert(apply_action(before, write) =~= target);
        } else {
            assert(before =~= target);
        }
    }
}

/// What a compaction cycle does to the folder: every segment loses the
/// tokens of the tombstoned keys, and the tombstone file is emptied. Where
/// the tombstone file holds no key, nothing is done.
pub proof fn lemma_vacuum_folder(files: Seq<Pair>)
    requires
        distinct_keys(files),
    ensures
        apply_actions(files, vacuum_actions(files)) == if tombstones(files).len() == 0 {
            files
        } else {
            upsert(compacted(files, tombstones(files)), DEL_FILENAME@, Seq::empty())
        },
        distinct_keys(apply_actions(files, vacuum_actions(files))),
{
    let keys = tombstones(files);
    if keys.len() > 0 {
        lemma_rewrites_upto(files, keys, files.len() as int);
        assert(files.take(files.len() as int) =~= files);
        let rewrites = segment_rewrites(files, keys);
        let empty = ActionView::Write { name: DEL_FILENAME@, content: Seq::empty() };
        assert(rewrites.push(empty).drop_last() =~= rewrites);
        lemma_upsert(compacted(files, keys), DEL_FILENAME@, Seq::empty());
    } else {
        assert(apply_actions(files, Seq::<ActionView>::empty()) == files);
    }
}

/// What a compaction cycle does to a file that is not the tombstone file:
/// the file stays in the folder, and its content is what it was, or what it
/// was without the tokens of the tombstoned keys.
pub proof fn lemma_vacuum_file(files: Seq<Pair>, name: Seq<char>)
    requires
        distinct_keys(files),
        name != DEL_FILENAME@,
    ensures
        ({
            let folder = apply_actions(files, vacuum_actions(files));
            &&& has_key(folder, name) == has_key(files, name)
            &&& has_key(files, name) ==> value_of(folder, name) == value_of(files, name)
                || value_of(folder, name) == without_keys(
                value_of(files, name),
                tombstones(files),
            )
        }),
{
    let keys = tombstones(files);
    lemma_vacuum_folder(files);
    if keys.len() > 0 {
        let middle = compacted(files, keys);
        lemma_rewrites_upto(files, keys, files.len() as int);
        lemma_upsert(middle, DEL_FILENAME@, Seq::empty());
        let folder = upsert(middle, DEL_FILENAME@, Seq::empty());
        lemma_map_facts(middle, name);
        lemma_map_facts(folder, name);
        if has_key(files, name) {
            let p = position_of(files, name);
            assert(middle[p].key == name);
            lemma_position(middle, name, p);
        }
        if has_key(middle, name) {
            let p = position_of(middle, name);
            assert(files[p].key == name);
        }
    }
}

/// A compaction cycle keeps the names of the files of a folder that holds
/// the tombstone file.
pub proof fn lemma_vacuum_keeps_names(files: Seq<Pair>)
    requires
        distinct_keys(files),
        has_key(files, DEL_FILENAME@),
    ensures
        names_of(apply_actions(files, vacuum_actions(files))) == names_of(files),
{
    let keys = tombstones(files);
    lemma_vacuum_folder(files);
    if keys.len() > 0 {
        let middle = compacted(files, keys);
        lemma_rewrites_upto(files, keys, files.len() as int);
        let p = position_of(files, DEL_FILENAME@);
        assert(middle[p].key == DEL_FILENAME@);
        lemma_position(middle, DEL_FILENAME@, p);
        let folder = upsert(middle, DEL_FILENAME@, Seq::empty());
        assert(names_of(folder) =~= names_of(files));
    }
}

/// A compaction cycle leaves a file that is neither a segment nor the
/// tombstone file as it is.
pub proof fn lemma_vacuum_spares(files: Seq<Pair>, name: Seq<char>)
    requires
        distinct_keys(files),
        name != DEL_FILENAME@,
        !is_segment(name),
        has_key(files, name),
    ensures
        has_key(apply_actions(files, vacuum_actions(files)), name),
        value_of(apply_actions(files, vacuum_actions(files)), name) == value_of(files, name),
{
    let keys = tombstones(files);
    lemma_vacuum_folder(files);
    if keys.len() > 0 {
        let middle = compacted(files, keys);
        lemma_rewrites_upto(files, keys, files.len() as int);
        lemma_upsert(middle, DEL_FILENAME@, Seq::empty());
        let folder = upsert(middle, DEL_FILENAME@, Seq::empty());
        lemma_map_facts(middle, name);
        lemma_map_facts(folder, name);
        let p = position_of(files, name);
        assert(middle[p] == files[p]);
        lemma_position(middle, name, p);
    }
}

} // verus!
