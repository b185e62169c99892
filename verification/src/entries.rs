//! The model of a tokenized container: an ordered run of key-value entries
//! and its textual serialization.

use vstd::prelude::*;
use crate::constants::{kv_sep, token_sep};
use crate::tokens::{split, tokens};

verus! {

/// One entry of a container, as mathematics sees it.
pub struct Pair {
    pub key: Seq<char>,
    pub value: Seq<char>,
}

/// The text of one entry: key, key-value separator, value, token separator.
pub open spec fn token_of(e: Pair) -> Seq<char> {
    e.key + kv_sep() + e.value + token_sep()
}

/// The text of a run of entries: the texts of the entries, one after the
/// other.
pub open spec fn serialize(entries: Seq<Pair>) -> Seq<char>
    decreases entries.len(),
{
    if entries.len() == 0 {
        Seq::empty()
    } else {
        serialize(entries.drop_last()) + token_of(entries.last())
    }
}

/// Where the text of entry `i` begins in the serialization.
pub open spec fn offset_of(entries: Seq<Pair>, i: int) -> int {
    serialize(entries.take(i)).len() as int
}

/// No two entries have the same key.
pub open spec fn distinct_keys(entries: Seq<Pair>) -> bool {
    forall|i: int, j: int|
        0 <= i < j < entries.len() ==> (#[trigger] entries[i]).key != (#[trigger] entries[j]).key
}

/// Some entry has the key.
pub open spec fn has_key(entries: Seq<Pair>, key: Seq<char>) -> bool {
    exists|i: int| 0 <= i < entries.len() && (#[trigger] entries[i]).key == key
}

/// The position of an entry with the key, where there is one.
pub open spec fn position_of(entries: Seq<Pair>, key: Seq<char>) -> int {
    choose|i: int| 0 <= i < entries.len() && (#[trigger] entries[i]).key == key
}

/// The value stored under the key, where there is one.
pub open spec fn value_of(entries: Seq<Pair>, key: Seq<char>) -> Seq<char> {
    entries[position_of(entries, key)].value
}

/// The entries after `key` has been given `value`: an entry that has the key
/// keeps its place and takes the value, a new entry goes to the end.
pub open spec fn upsert(entries: Seq<Pair>, key: Seq<char>, value: Seq<char>) -> Seq<Pair> {
    if has_key(entries, key) {
        entries.update(position_of(entries, key), Pair { key, value })
    } else {
        entries.push(Pair { key, value })
    }
}

/// The entries without the one that has the key.
pub open spec fn without(entries: Seq<Pair>, key: Seq<char>) -> Seq<Pair> {
    if has_key(entries, key) {
        entries.remove(position_of(entries, key))
    } else {
        entries
    }
}

/// The mapping that the entries stand for.
pub open spec fn as_map(entries: Seq<Pair>) -> Map<Seq<char>, Seq<char>> {
    Map::new(|k: Seq<char>| has_key(entries, k), |k: Seq<char>| value_of(entries, k))
}

/// Serializing a run of entries that is made of two runs gives the two
/// serializations, one after the other.
pub proof fn lemma_serialize_concat(a: Seq<Pair>, b: Seq<Pair>)
    ensures
        serialize(a + b) == serialize(a) + serialize(b),
    decreases b.len(),
{
    if b.len() == 0 {
        assert(a + b =~= a);
        assert(serialize(a) + serialize(b) =~= serialize(a));
    } else {
        lemma_serialize_concat(a, b.drop_last());
        assert((a + b).drop_last() =~= a + b.drop_last());
        assert((a + b).last() == b.last());
        assert(serialize(a + b) =~= serialize(a) + serialize(b));
    }
}

/// The serialization of one entry is its text.
pub proof fn lemma_serialize_one(e: Pair)
    ensures
        serialize(seq![e]) == token_of(e),
{
    assert(seq![e].drop_last() =~= Seq::<Pair>::empty());
    assert(seq![e].last() == e);
    assert(serialize(Seq::<Pair>::empty()) =~= Seq::<char>::empty());
    assert(serialize(seq![e]) =~= token_of(e));
}

/// The serialization is made of what stands before entry `i`, the text of
/// entry `i`, and what stands after it.
pub proof fn lemma_serialize_around(entries: Seq<Pair>, i: int)
    requires
        0 <= i < entries.len(),
    ensures
        serialize(entries) == serialize(entries.take(i)) + token_of(entries[i]) + serialize(
            entries.skip(i + 1),
        ),
        offset_of(entries, i + 1) == offset_of(entries, i) + token_of(entries[i]).len(),
        offset_of(entries, i + 1) <= serialize(entries).len(),
        serialize(entries).subrange(offset_of(entries, i), offset_of(entries, i + 1)) == token_of(
            entries[i],
        ),
        serialize(entries).subrange(0, offset_of(entries, i)) == serialize(entries.take(i)),
        serialize(entries).subrange(offset_of(entries, i + 1), serialize(entries).len() as int)
            == serialize(entries.skip(i + 1)),
{
    let before = entries.take(i);
    let after = entries.skip(i + 1);
    let one = seq![entries[i]];
    assert(entries =~= before + one + after);
    lemma_serialize_concat(before + one, after);
    lemma_serialize_concat(before, one);
    lemma_serialize_one(entries[i]);
    assert(entries.take(i + 1) =~= before + one);
    let s = serialize(entries);
    let a = serialize(before);
    let t = token_of(entries[i]);
    let z = serialize(after);
    assert(s == a + t + z);
    assert(s.subrange(a.len() as int, (a.len() + t.len()) as int) =~= t);
    assert(s.subrange(0, a.len() as int) =~= a);
    assert(s.subrange((a.len() + t.len()) as int, s.len() as int) =~= z);
}

/// Offsets grow with the position.
pub proof fn lemma_offsets_monotone(entries: Seq<Pair>, i: int, j: int)
    requires
        0 <= i <= j <= entries.len(),
    ensures
        offset_of(entries, i) <= offset_of(entries, j),
        offset_of(entries, j) <= serialize(entries).len(),
        offset_of(entries, entries.len() as int) == serialize(entries).len(),
{
    assert(entries.take(j) =~= entries.take(i) + entries.subrange(i, j));
    lemma_serialize_concat(entries.take(i), entries.subrange(i, j));
    assert(entries =~= entries.take(j) + entries.skip(j));
    lemma_serialize_concat(entries.take(j), entries.skip(j));
    assert(entries.take(entries.len() as int) =~= entries);
}

/// Replacing the value of entry `i` replaces the characters of that value in
/// the serialization and moves every later entry by the difference of the
/// two lengths.
pub proof fn lemma_update_value(entries: Seq<Pair>, i: int, value: Seq<char>)
    requires
        0 <= i < entries.len(),
    ensures
        ({
            let e = entries[i];
            let s = serialize(entries);
            let from = offset_of(entries, i) + e.key.len() + kv_sep().len();
            let to = from + e.value.len();
            let after = entries.update(i, Pair { key: e.key, value });
            &&& to + token_sep().len() <= s.len()
            &&& s.subrange(from, to) == e.value
            &&& serialize(after) == s.subrange(0, from) + value + s.subrange(to, s.len() as int)
            &&& forall|j: int| 0 <= j <= i ==> offset_of(after, j) == offset_of(entries, j)
            &&& forall|j: int|
                i < j <= entries.len() ==> offset_of(after, j) == offset_of(entries, j)
                    + value.len() - e.value.len()
        }),
{
    let e = entries[i];
    let n = Pair { key: e.key, value };
    let s = serialize(entries);
    let from = offset_of(entries, i) + e.key.len() + kv_sep().len();
    let to = from + e.value.len();
    let after = entries.update(i, n);
    lemma_serialize_around(entries, i);
    lemma_serialize_around(after, i);
    assert(after.take(i) =~= entries.take(i));
    assert(after.skip(i + 1) =~= entries.skip(i + 1));
    let a = serialize(entries.take(i));
    let z = serialize(entries.skip(i + 1));
    assert(s == a + token_of(e) + z);
    assert(serialize(after) == a + token_of(n) + z);
    assert(s.subrange(from, to) =~= e.value);
    assert(serialize(after) =~= s.subrange(0, from) + value + s.subrange(to, s.len() as int));
    assert forall|j: int| 0 <= j <= i implies offset_of(after, j) == offset_of(entries, j) by {
        assert(after.take(j) =~= entries.take(j));
    }
    assert forall|j: int| i < j <= entries.len() implies offset_of(after, j) == offset_of(
        entries,
        j,
    ) + value.len() - e.value.len() by {
        let ej = entries.take(j);
        let aj = after.take(j);
        assert(aj =~= ej.update(i, n));
        lemma_serialize_around(ej, i);
        lemma_serialize_around(aj, i);
        assert(aj.take(i) =~= ej.take(i));
        assert(aj.skip(i + 1) =~= ej.skip(i + 1));
    }
}

/// Removing entry `i` cuts its text out of the serialization and moves every
/// later entry by the length of that text.
pub proof fn lemma_remove_entry(entries: Seq<Pair>, i: int)
    requires
        0 <= i < entries.len(),
    ensures
        ({
            let s = serialize(entries);
            let from = offset_of(entries, i);
            let to = from + token_of(entries[i]).len();
            let after = entries.remove(i);
            &&& to <= s.len()
            &&& s.subrange(from, to) == token_of(entries[i])
            &&& serialize(after) == s.subrange(0, from) + s.subrange(to, s.len() as int)
            &&& forall|j: int| 0 <= j <= i ==> offset_of(after, j) == offset_of(entries, j)
            &&& forall|j: int|
                i < j < entries.len() ==> offset_of(after, j) == offset_of(entries, j + 1)
                    - token_of(entries[i]).len()
        }),
{
    let s = serialize(entries);
    let from = offset_of(entries, i);
    let to = from + token_of(entries[i]).len();
    let after = entries.remove(i);
    lemma_serialize_around(entries, i);
    assert(after =~= entries.take(i) + entries.skip(i + 1));
    lemma_serialize_concat(entries.take(i), entries.skip(i + 1));
    assert(serialize(after) =~= s.subrange(0, from) + s.subrange(to, s.len() as int));
    assert forall|j: int| 0 <= j <= i implies offset_of(after, j) == offset_of(entries, j) by {
        assert(after.take(j) =~= entries.take(j));
    }
    assert forall|j: int| i < j < entries.len() implies offset_of(after, j) == offset_of(
        entries,
        j + 1,
    ) - token_of(entries[i]).len() by {
        let ej = entries.take(j + 1);
        assert(after.take(j) =~= ej.remove(i));
        lemma_serialize_around(ej, i);
        assert(ej.remove(i) =~= ej.take(i) + ej.skip(i + 1));
        lemma_serialize_concat(ej.take(i), ej.skip(i + 1));
    }
}

/// Adding an entry at the end adds its text at the end of the serialization
/// and leaves every other entry where it was.
pub proof fn lemma_push_entry(entries: Seq<Pair>, e: Pair)
    ensures
        serialize(entries.push(e)) == serialize(entries) + token_of(e),
        forall|j: int| 0 <= j <= entries.len() ==> offset_of(entries.push(e), j) == offset_of(entries, j),
        offset_of(entries.push(e), entries.len() as int) == serialize(entries).len(),
{
    assert(entries.push(e).drop_last() =~= entries);
    assert forall|j: int| 0 <= j <= entries.len() implies offset_of(entries.push(e), j)
        == offset_of(entries, j) by {
        assert(entries.push(e).take(j) =~= entries.take(j));
    }
    assert(entries.take(entries.len() as int) =~= entries);
}

/// The entries that a run of tokens stands for. A token that the key-value
/// separator cuts into exactly two parts gives its first part the second as
/// value; any other token is dropped. Of two tokens with one key the first
/// fixes the place and the last the value.
pub open spec fn entries_of_tokens(ts: Seq<Seq<char>>) -> Seq<Pair>
    decreases ts.len(),
{
    if ts.len() == 0 {
        Seq::empty()
    } else {
        let before = entries_of_tokens(ts.drop_last());
        let parts = split(ts.last(), kv_sep());
        if parts.len() == 2 {
            upsert(before, parts[0], parts[1])
        } else {
            before
        }
    }
}

/// The entries that a file's content stands for.
pub open spec fn parse_entries(content: Seq<char>) -> Seq<Pair> {
    entries_of_tokens(tokens(content))
}

/// Where the keys are distinct, an entry is found at its own position.
pub proof fn lemma_position(entries: Seq<Pair>, key: Seq<char>, i: int)
    requires
        distinct_keys(entries),
        0 <= i < entries.len(),
        entries[i].key == key,
    ensures
        has_key(entries, key),
        position_of(entries, key) == i,
        value_of(entries, key) == entries[i].value,
{
    let p = position_of(entries, key);
    assert(0 <= p < entries.len() && entries[p].key == key);
    if p < i {
        assert(entries[p].key != entries[i].key);
    } else if i < p {
        assert(entries[i].key != entries[p].key);
    }
}

/// Giving a key a value keeps the keys distinct, and changes the mapping at
/// that key alone.
pub proof fn lemma_upsert(entries: Seq<Pair>, key: Seq<char>, value: Seq<char>)
    requires
        distinct_keys(entries),
    ensures
        distinct_keys(upsert(entries, key, value)),
        as_map(upsert(entries, key, value)) == as_map(entries).insert(key, value),
        has_key(upsert(entries, key, value), key),
        value_of(upsert(entries, key, value), key) == value,
{
    let after = upsert(entries, key, value);
    let n = Pair { key, value };
    if has_key(entries, key) {
        let p = position_of(entries, key);
        assert(after[p] == n);
        assert forall|i: int, j: int| 0 <= i < j < after.len() implies (#[trigger] after[i]).key
            != (#[trigger] after[j]).key by {
            assert(after[i].key == entries[i].key);
            assert(after[j].key == entries[j].key);
        }
        lemma_position(after, key, p);
        assert forall|k: Seq<char>| has_key(after, k) <==> (k == key || has_key(entries, k)) by {
            if has_key(after, k) {
                let i = position_of(after, k);
                assert(after[i].key == entries[i].key);
            }
            if has_key(entries, k) {
                let i = position_of(entries, k);
                assert(after[i].key == entries[i].key);
            }
        }
        assert forall|k: Seq<char>| has_key(after, k) && k != key implies value_of(after, k)
            == value_of(entries, k) by {
            let i = position_of(entries, k);
            assert(after[i].key == entries[i].key);
            lemma_position(after, k, i);
        }
    } else {
        let p = entries.len() as int;
        assert(after[p] == n);
        assert forall|i: int, j: int| 0 <= i < j < after.len() implies (#[trigger] after[i]).key
            != (#[trigger] after[j]).key by {
            if j < entries.len() {
                assert(after[i] == entries[i] && after[j] == entries[j]);
            } else {
                assert(after[i] == entries[i]);
            }
        }
        lemma_position(after, key, p);
        assert forall|k: Seq<char>| has_key(after, k) <==> (k == key || has_key(entries, k)) by {
            if has_key(after, k) {
                let i = position_of(after, k);
                if i < entries.len() {
                    assert(after[i] == entries[i]);
                }
            }
            if has_key(entries, k) {
                let i = position_of(entries, k);
                assert(after[i] == entries[i]);
            }
        }
        assert forall|k: Seq<char>| has_key(after, k) && k != key implies value_of(after, k)
            == value_of(entries, k) by {
            let i = position_of(entries, k);
            assert(after[i] == entries[i]);
            lemma_position(after, k, i);
        }
    }
    assert(as_map(after) =~= as_map(entries).insert(key, value));
}

/// Taking a key out keeps the keys distinct, and changes the mapping at that
/// key alone.
pub proof fn lemma_without(entries: Seq<Pair>, key: Seq<char>)
    requires
        distinct_keys(entries),
    ensures
        distinct_keys(without(entries, key)),
        as_map(without(entries, key)) == as_map(entries).remove(key),
        !has_key(without(entries, key), key),
{
    let after = without(entries, key);
    if has_key(entries, key) {
        let p = position_of(entries, key);
        assert forall|i: int| 0 <= i < after.len() implies #[trigger] after[i] == entries[if i
            < p {
            i
        } else {
            i + 1
        }] by {}
        assert forall|i: int, j: int| 0 <= i < j < after.len() implies (#[trigger] after[i]).key
            != (#[trigger] after[j]).key by {
            let i0 = if i < p { i } else { i + 1 };
            let j0 = if j < p { j } else { j + 1 };
            assert(after[i] == entries[i0] && after[j] == entries[j0]);
            assert(entries[i0].key != entries[j0].key);
        }
        assert forall|k: Seq<char>| has_key(after, k) <==> (k != key && has_key(entries, k)) by {
            if has_key(after, k) {
                let i = position_of(after, k);
                let i0 = if i < p { i } else { i + 1 };
                assert(after[i] == entries[i0]);
                if k == key {
                    lemma_position(entries, key, i0);
                }
            }
            if has_key(entries, k) && k != key {
                let i0 = position_of(entries, k);
                let i = if i0 < p { i0 } else { i0 - 1 };
                assert(after[i] == entries[i0]);
            }
        }
        assert forall|k: Seq<char>| has_key(after, k) implies value_of(after, k) == value_of(
            entries,
            k,
        ) by {
            let i0 = position_of(entries, k);
            let i = if i0 < p { i0 } else { i0 - 1 };
            assert(after[i] == entries[i0]);
            lemma_position(after, k, i);
        }
    }
    assert(as_map(after) =~= as_map(entries).remove(key));
}

/// The entries of a run of tokens have distinct keys.
pub proof fn lemma_entries_of_tokens_distinct(ts: Seq<Seq<char>>)
    ensures
        distinct_keys(entries_of_tokens(ts)),
    decreases ts.len(),
{
    if ts.len() > 0 {
        lemma_entries_of_tokens_distinct(ts.drop_last());
        let parts = split(ts.last(), kv_sep());
        if parts.len() == 2 {
            lemma_upsert(entries_of_tokens(ts.drop_last()), parts[0], parts[1]);
        }
    }
}

/// The mapping of a run of entries with distinct keys tells which keys the
/// run has and what their values are.
pub proof fn lemma_map_facts(entries: Seq<Pair>, key: Seq<char>)
    ensures
        as_map(entries).contains_key(key) == has_key(entries, key),
        has_key(entries, key) ==> as_map(entries)[key] == value_of(entries, key),
{
}

} // verus!
