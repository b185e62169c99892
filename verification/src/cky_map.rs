//! The tokenized mapping: a key-value mapping and its textual serialization,
//! kept side by side and tied together by a table of offsets.

use vstd::prelude::*;
use crate::constants::{
    key_value_separator_chars, kv_sep, token_sep, token_separator_chars,
    KEY_VALUE_SEPARATOR_LENGTH, TOKEN_SEPARATOR_LENGTH,
};
use crate::entries::{
    as_map, distinct_keys, entries_of_tokens, has_key, lemma_offsets_monotone, lemma_position,
    lemma_push_entry, lemma_remove_entry, lemma_serialize_around, lemma_update_value,
    lemma_upsert, lemma_without, offset_of, parse_entries, serialize, token_of, upsert, value_of,
    without, Pair,
};
use crate::errors::{option_view, Error};
use crate::text::{
    append_chars, byte_len, byte_length, chars_eq, chars_of, decimal, push_decimal, splice,
    string_of,
};
use crate::tokens::{split, split_chars, tokens_of, views};

verus! {

/// A mapping from keys to values that carries its own serialization.
///
/// The serialization is the text `key><?&(^#value$%#@*&^&` of every entry, one
/// after the other, in the order in which the keys came in. Beside it stand
/// the keys, the values, and for every entry the place in the serialization
/// where its text begins. A change to the mapping is one splice of the
/// serialization and a shift of the places behind it.
#[derive(Debug, PartialEq, Clone)]
pub struct CkyMap {
    kv_string: Vec<char>,
    keys: Vec<Vec<char>>,
    values: Vec<Vec<char>>,
    offsets: Vec<usize>,
}

impl View for CkyMap {
    type V = Map<Seq<char>, Seq<char>>;

    /// The mapping that the container stands for.
    open spec fn view(&self) -> Map<Seq<char>, Seq<char>> {
        as_map(self.entries())
    }
}

impl CkyMap {
    /// The serialization that the container carries.
    pub closed spec fn blob(&self) -> Seq<char> {
        self.kv_string@
    }

    /// The entries, in the order of the serialization.
    pub closed spec fn entries(&self) -> Seq<Pair> {
        Seq::new(self.keys.len() as nat, |i: int| Pair { key: self.keys[i]@, value: self.values[i]@ })
    }

    /// For every entry, the place in the serialization where its text
    /// begins, counted in characters.
    pub closed spec fn offset_table(&self) -> Seq<int> {
        Seq::new(self.offsets.len() as nat, |i: int| self.offsets[i] as int)
    }

    /// The tables of keys, values and offsets have one row for every entry.
    pub closed spec fn aligned(&self) -> bool {
        self.keys.len() == self.values.len() && self.keys.len() == self.offsets.len()
    }

    /// The container is coherent: no key stands twice, the serialization is
    /// that of the entries, and every offset is the place where the text of
    /// its entry begins.
    pub open spec fn wf(&self) -> bool {
        &&& self.aligned()
        &&& distinct_keys(self.entries())
        &&& self.blob() == serialize(self.entries())
        &&& self.offset_table().len() == self.entries().len()
        &&& forall|i: int|
            0 <= i < self.entries().len() ==> #[trigger] self.offset_table()[i] == offset_of(
                self.entries(),
                i,
            )
    }

    /// An empty container.
    pub fn new() -> (m: CkyMap)
        ensures
            m.wf(),
            m.entries() == Seq::<Pair>::empty(),
            m.blob() == Seq::<char>::empty(),
    {
        let m = CkyMap {
            kv_string: Vec::new(),
            keys: Vec::new(),
            values: Vec::new(),
            offsets: Vec::new(),
        };
        assert(m.entries() =~= Seq::<Pair>::empty());
        m
    }

    /// The position of the entry that has the key.
    fn find_key(&self, key: &Vec<char>) -> (r: Option<usize>)
        requires
            self.aligned(),
        ensures
            match r {
                Some(i) => i < self.entries().len() && self.entries()[i as int].key == key@,
                None => !has_key(self.entries(), key@),
            },
    {
        let mut i: usize = 0;
        while i < self.keys.len()
            invariant
                i <= self.keys.len(),
                self.aligned(),
                forall|j: int| 0 <= j < i ==> (#[trigger] self.entries()[j]).key != key@,
            decreases self.keys.len() - i,
        {
            if chars_eq(&self.keys[i], key) {
                return Some(i);
            }
            i += 1;
        }
        None
    }

    /// The number of entries.
    pub fn len(&self) -> (n: usize)
        requires
            self.wf(),
        ensures
            n == self.entries().len(),
    {
        self.keys.len()
    }

    /// The keys and values of the container, in the order of the
    /// serialization.
    pub fn map(&self) -> (pairs: Vec<(String, String)>)
        requires
            self.wf(),
        ensures
            pairs.len() == self.entries().len(),
            forall|i: int|
                0 <= i < pairs.len() ==> (#[trigger] pairs[i]).0@ == self.entries()[i].key
                    && pairs[i].1@ == self.entries()[i].value,
    {
        let mut pairs: Vec<(String, String)> = Vec::new();
        let mut i: usize = 0;
        while i < self.keys.len()
            invariant
                self.aligned(),
                i <= self.keys.len(),
                pairs.len() == i,
                forall|j: int|
                    0 <= j < i ==> (#[trigger] pairs[j]).0@ == self.entries()[j].key
                        && pairs[j].1@ == self.entries()[j].value,
            decreases self.keys.len() - i,
        {
            pairs.push((string_of(&self.keys[i]), string_of(&self.values[i])));
            i += 1;
        }
        pairs
    }

    /// The keys of the container with the offsets of their entries, in the
    /// order of the serialization, as the container keeps them: counted in
    /// characters.
    pub fn offsets(&self) -> (pairs: Vec<(String, usize)>)
        requires
            self.wf(),
        ensures
            pairs.len() == self.entries().len(),
            forall|i: int|
                0 <= i < pairs.len() ==> (#[trigger] pairs[i]).0@ == self.entries()[i].key
                    && pairs[i].1 == offset_of(self.entries(), i),
    {
        let mut pairs: Vec<(String, usize)> = Vec::new();
        let mut i: usize = 0;
        while i < self.keys.len()
            invariant
                self.wf(),
                i <= self.keys.len(),
                pairs.len() == i,
                forall|j: int|
                    0 <= j < i ==> (#[trigger] pairs[j]).0@ == self.entries()[j].key
                        && pairs[j].1 == offset_of(self.entries(), j),
            decreases self.keys.len() - i,
        {
            assert(self.offset_table()[i as int] == offset_of(self.entries(), i as int));
            pairs.push((string_of(&self.keys[i]), self.offsets[i]));
            i += 1;
        }
        pairs
    }

    /// The keys of the container with the places of their entries in a file
    /// that holds the serialization: for every entry, the number of bytes
    /// that stand before its text.
    pub fn byte_offsets(&self) -> (pairs: Vec<(String, usize)>)
        requires
            self.wf(),
        ensures
            pairs.len() == self.entries().len(),
            forall|i: int|
                0 <= i < pairs.len() ==> (#[trigger] pairs[i]).0@ == self.entries()[i].key
                    && pairs[i].1 == byte_len(serialize(self.entries().take(i))),
    {
        let mut pairs: Vec<(String, usize)> = Vec::new();
        let mut i: usize = 0;
        while i < self.keys.len()
            invariant
                self.wf(),
                i <= self.keys.len(),
                pairs.len() == i,
                forall|j: int|
                    0 <= j < i ==> (#[trigger] pairs[j]).0@ == self.entries()[j].key
                        && pairs[j].1 == byte_len(serialize(self.entries().take(j))),
            decreases self.keys.len() - i,
        {
            assert(self.offset_table()[i as int] == offset_of(self.entries(), i as int));
            proof {
                lemma_serialize_around(self.entries(), i as int);
            }
            let offset = byte_length(&self.kv_string, self.offsets[i]);
            assert(self.kv_string@.take(self.offsets[i as int] as int) =~= serialize(
                self.entries().take(i as int),
            ));
            pairs.push((string_of(&self.keys[i]), offset));
            i += 1;
        }
        pairs
    }

    /// Gets the value that stands under the key.
    ///
    /// Fails with `NotFoundError` where the key is not in the container.
    pub fn get(&self, key: &str) -> (result: Result<String, Error>)
        requires
            self.wf(),
        ensures
            match result {
                Ok(value) => self@.contains_key(key@) && value@ == self@[key@],
                Err(e) => !self@.contains_key(key@) && e is NotFoundError && e.data_view() == Some(
                    key@,
                ),
            },
    {
        let k = chars_of(key);
        match self.find_key(&k) {
            Some(i) => {
                proof {
                    lemma_position(self.entries(), key@, i as int);
                }
                Ok(string_of(&self.values[i]))
            },
            None => Err(Error::not_found(key)),
        }
    }

    /// Replaces the characters `start..end` of the serialization by
    /// `replacement`, and leaves the tables as they are.
    ///
    /// Fails with `CorruptedDataError` where `end` lies beyond the
    /// serialization; nothing is changed then.
    fn ___replace_kv_string_section(
        &mut self,
        start: usize,
        end: usize,
        replacement: &Vec<char>,
    ) -> (result: Result<(), Error>)
        requires
            start <= end,
        ensures
            final(self).entries() == old(self).entries(),
            final(self).offset_table() == old(self).offset_table(),
            final(self).aligned() == old(self).aligned(),
            match result {
                Ok(_) => end <= old(self).blob().len() && final(self).blob() == old(
                    self,
                ).blob().subrange(0, start as int) + replacement@ + old(self).blob().subrange(
                    end as int,
                    old(self).blob().len() as int,
                ),
                Err(e) => end > old(self).blob().len() && final(self).blob() == old(self).blob()
                    && e is CorruptedDataError && e.data_view() == Some(
                    decimal(end as nat) + " is beyond length of raw string of length "@ + decimal(
                        old(self).blob().len(),
                    ),
                ),
            },
    {
        let string_length = self.kv_string.len();
        if end > string_length {
            let mut text = String::new();
            push_decimal(&mut text, end as u128);
            let mut chars = chars_of(text.as_str());
            let middle = chars_of(" is beyond length of raw string of length ");
            append_chars(&mut chars, &middle);
            let mut text = string_of(&chars);
            push_decimal(&mut text, string_length as u128);
            assert(text@ =~= decimal(end as nat) + " is beyond length of raw string of length "@
                + decimal(string_length as nat));
            return Err(Error::CorruptedDataError { data: Some(text) });
        }
        splice(&mut self.kv_string, start, end, replacement);
        Ok(())
    }

    /// Moves the offsets of the entries from position `from` on: each loses
    /// `removed` and gains `added`.
    fn shift_offsets(&mut self, from: usize, removed: usize, added: usize)
        requires
            forall|j: int|
                from <= j < old(self).offset_table().len() ==> removed <= (
                #[trigger] old(self).offset_table()[j]) && old(self).offset_table()[j] - removed
                    + added <= usize::MAX,
        ensures
            final(self).entries() == old(self).entries(),
            final(self).blob() == old(self).blob(),
            final(self).aligned() == old(self).aligned(),
            final(self).offset_table().len() == old(self).offset_table().len(),
            forall|j: int|
                0 <= j < from && j < old(self).offset_table().len() ==> (
                #[trigger] final(self).offset_table()[j]) == old(self).offset_table()[j],
            forall|j: int|
                from <= j < old(self).offset_table().len() ==> (
                #[trigger] final(self).offset_table()[j]) == old(self).offset_table()[j] - removed
                    + added,
    {
        let mut j: usize = from;
        while j < self.offsets.len()
            invariant
                from <= j,
                self.entries() == old(self).entries(),
                self.blob() == old(self).blob(),
                self.aligned() == old(self).aligned(),
                self.offsets.len() == old(self).offsets.len(),
                forall|k: int|
                    0 <= k < from && k < self.offsets.len() ==> self.offsets[k] == old(
                        self,
                    ).offsets[k],
                forall|k: int|
                    from <= k < j && k < self.offsets.len() ==> self.offsets[k] == old(
                        self,
                    ).offsets[k] - removed + added,
                forall|k: int| j <= k < self.offsets.len() ==> self.offsets[k] == old(self).offsets[k],
                forall|k: int|
                    from <= k < old(self).offset_table().len() ==> removed <= (
                    #[trigger] old(self).offset_table()[k]) && old(self).offset_table()[k]
                        - removed + added <= usize::MAX,
            decreases self.offsets.len() - j,
        {
            assert(old(self).offset_table()[j as int] == old(self).offsets[j as int]);
            let moved = self.offsets[j] - removed + added;
            self.offsets.set(j, moved);
            j += 1;
        }
    }

    /// Inserts a key-value pair that is given as character vectors, as
    /// [`CkyMap::insert`] does for strings. Returns the value that stood
    /// under the key before.
    pub fn insert_chars(&mut self, key: Vec<char>, value: Vec<char>) -> (previous: Option<Vec<char>>)
        requires
            old(self).wf(),
        ensures
            final(self).wf(),
            final(self).entries() == upsert(old(self).entries(), key@, value@),
            match previous {
                Some(p) => has_key(old(self).entries(), key@) && p@ == value_of(
                    old(self).entries(),
                    key@,
                ),
                None => !has_key(old(self).entries(), key@),
            },
    {
        let ghost before = self.entries();
        let ghost entry = Pair { key: key@, value: value@ };
        proof {
            lemma_upsert(before, key@, value@);
        }
        match self.find_key(&key) {
            Some(i) => {
                proof {
                    lemma_position(before, key@, i as int);
                    lemma_update_value(before, i as int, value@);
                    lemma_offsets_monotone(before, i as int, i as int);
                }
                let ghost after = before.update(i as int, entry);
                assert(self.offset_table()[i as int] == offset_of(before, i as int));
                assert(kv_sep().len() == 7 && token_sep().len() == 8);
                assert(before[i as int].key == key@ && before[i as int].value == self.values[i as int]@);
                assert(self.offsets[i as int] + key.len() + 7 + self.values[i as int].len() + 8
                    <= self.kv_string.len());
                let previous = copy_of(&self.values[i]);
                let start = self.offsets[i] + key.len() + KEY_VALUE_SEPARATOR_LENGTH;
                let end = start + previous.len();
                match self.___replace_kv_string_section(start, end, &value) {
                    Ok(_) => {},
                    Err(_) => {
                        assert(false);
                    },
                }
                let removed = previous.len();
                let added = value.len();
                assert(self.blob() =~= serialize(after));
                proof {
                    lemma_serialize_around(before, i as int);
                }
                assert forall|j: int| i < j < self.offset_table().len() implies removed <= (
                #[trigger] self.offset_table()[j]) && self.offset_table()[j] - removed + added
                    <= usize::MAX by {
                    lemma_offsets_monotone(before, i as int + 1, j);
                    lemma_offsets_monotone(after, j, j);
                    assert(self.offset_table()[j] == old(self).offset_table()[j]);
                    assert(old(self).offset_table()[j] == offset_of(before, j));
                    assert(offset_of(after, j) == offset_of(before, j) + added - removed);
                    assert(offset_of(before, i as int + 1) >= removed);
                    assert(serialize(after).len() == self.kv_string.len());
                }
                self.shift_offsets(i + 1, removed, added);
                self.values.set(i, value);
                assert(self.entries() =~= after);
                assert forall|j: int| 0 <= j < self.entries().len() implies (
                #[trigger] self.offset_table()[j]) == offset_of(self.entries(), j) by {
                    assert(old(self).offset_table()[j] == offset_of(before, j));
                }
                Some(previous)
            },
            None => {
                proof {
                    lemma_push_entry(before, entry);
                }
                let kv = key_value_separator_chars();
                let tok = token_separator_chars();
                self.offsets.push(self.kv_string.len());
                append_chars(&mut self.kv_string, &key);
                append_chars(&mut self.kv_string, &kv);
                append_chars(&mut self.kv_string, &value);
                append_chars(&mut self.kv_string, &tok);
                self.keys.push(key);
                self.values.push(value);
                assert(self.entries() =~= before.push(entry));
                assert(self.blob() =~= serialize(before) + token_of(entry));
                assert forall|j: int| 0 <= j < self.entries().len() implies (
                #[trigger] self.offset_table()[j]) == offset_of(self.entries(), j) by {
                    if j < before.len() {
                        assert(old(self).offset_table()[j] == offset_of(before, j));
                    }
                }
                None
            },
        }
    }

    /// Inserts a key-value pair. Where the key is new, its text goes to the
    /// end of the serialization. Where the key is there already, the new
    /// value takes the place of the old one in the serialization and every
    /// entry behind it moves by the difference of the two lengths. Returns
    /// the value that stood under the key before.
    ///
    /// The result is `Err` only where an offset lies beyond the
    /// serialization, which a coherent container excludes.
    pub fn insert(&mut self, key: &str, value: &str) -> (result: Result<Option<String>, Error>)
        requires
            old(self).wf(),
        ensures
            final(self).wf(),
            final(self).entries() == upsert(old(self).entries(), key@, value@),
            final(self)@ == old(self)@.insert(key@, value@),
            match result {
                Ok(previous) => option_view(previous) == if old(self)@.contains_key(key@) {
                    Some(old(self)@[key@])
                } else {
                    None
                },
                Err(_) => false,
            },
    {
        proof {
            lemma_upsert(self.entries(), key@, value@);
        }
        match self.insert_chars(chars_of(key), chars_of(value)) {
            Some(p) => Ok(Some(string_of(&p))),
            None => Ok(None),
        }
    }

    /// Deletes the entry of the key: its text is cut out of the
    /// serialization and every entry behind it moves by the length of that
    /// text. Returns the value that stood under the key.
    ///
    /// Fails with `NotFoundError` where the key is not in the container;
    /// nothing is changed then.
    pub fn delete(&mut self, key: &str) -> (result: Result<String, Error>)
        requires
            old(self).wf(),
        ensures
            final(self).wf(),
            final(self).entries() == without(old(self).entries(), key@),
            final(self)@ == old(self)@.remove(key@),
            match result {
                Ok(value) => old(self)@.contains_key(key@) && value@ == old(self)@[key@],
                Err(e) => !old(self)@.contains_key(key@) && e is NotFoundError && e.data_view()
                    == Some(key@) && final(self).blob() == old(self).blob(),
            },
    {
        let ghost before = self.entries();
        proof {
            lemma_without(before, key@);
        }
        let k = chars_of(key);
        match self.find_key(&k) {
            Some(i) => {
                proof {
                    lemma_position(before, key@, i as int);
                    lemma_remove_entry(before, i as int);
                    lemma_offsets_monotone(before, i as int, i as int);
                    lemma_serialize_around(before, i as int);
                }
                let ghost after = before.remove(i as int);
                assert(self.offset_table()[i as int] == offset_of(before, i as int));
                assert(kv_sep().len() == 7 && token_sep().len() == 8);
                assert(before[i as int].key == k@ && before[i as int].value == self.values[i as int]@);
                assert(token_of(before[i as int]).len() == k.len() + 7 + self.values[i as int].len()
                    + 8);
                assert(self.offsets[i as int] + k.len() + 7 + self.values[i as int].len() + 8
                    <= self.kv_string.len());
                let start = self.offsets[i];
                let removed = k.len() + KEY_VALUE_SEPARATOR_LENGTH + self.values[i].len()
                    + TOKEN_SEPARATOR_LENGTH;
                let end = start + removed;
                let nothing: Vec<char> = Vec::new();
                match self.___replace_kv_string_section(start, end, &nothing) {
                    Ok(_) => {},
                    Err(_) => {
                        assert(false);
                    },
                }
                self.keys.remove(i);
                let value = self.values.remove(i);
                self.offsets.remove(i);
                assert(self.entries() =~= after);
                assert(self.blob() =~= serialize(after));
                assert forall|j: int| i <= j < self.offset_table().len() implies removed <= (
                #[trigger] self.offset_table()[j]) && self.offset_table()[j] - removed + 0
                    <= usize::MAX by {
                    assert(self.offset_table()[j] == old(self).offset_table()[j + 1]);
                    assert(old(self).offset_table()[j + 1] == offset_of(before, j + 1));
                    lemma_offsets_monotone(before, i as int + 1, j + 1);
                    lemma_serialize_around(before, i as int);
                }
                let ghost middle = self.offset_table();
                self.shift_offsets(i, removed, 0);
                assert forall|j: int| 0 <= j < self.entries().len() implies (
                #[trigger] self.offset_table()[j]) == offset_of(self.entries(), j) by {
                    if j < i {
                        assert(middle[j] == old(self).offset_table()[j]);
                        assert(old(self).offset_table()[j] == offset_of(before, j));
                        assert(offset_of(after, j) == offset_of(before, j));
                    } else {
                        assert(middle[j] == old(self).offset_table()[j + 1]);
                        assert(old(self).offset_table()[j + 1] == offset_of(before, j + 1));
                        assert(self.offset_table()[j] == middle[j] - removed + 0);
                        if j == i {
                            assert(offset_of(after, j) == offset_of(before, j));
                        } else {
                            assert(offset_of(after, j) == offset_of(before, j + 1) - removed);
                        }
                    }
                }
                Ok(string_of(&value))
            },
            None => Err(Error::not_found(key)),
        }
    }

    /// Clears all data of the container.
    pub fn clear(&mut self)
        ensures
            final(self).wf(),
            final(self).entries() == Seq::<Pair>::empty(),
            final(self).blob() == Seq::<char>::empty(),
    {
        self.keys.clear();
        self.values.clear();
        self.offsets.clear();
        self.kv_string.clear();
        assert(self.entries() =~= Seq::<Pair>::empty());
    }

    /// Makes the container hold the entries that `content` stands for: the
    /// content is split on the token separator, then each token on the
    /// key-value separator, and a token without exactly one key-value
    /// separator is dropped.
    pub fn reload_from_str(&mut self, content: String)
        ensures
            final(self).wf(),
            final(self).entries() == parse_entries(content@),
    {
        self.clear();
        let chars = chars_of(content.as_str());
        let toks = tokens_of(&chars);
        let kv = key_value_separator_chars();
        let mut t: usize = 0;
        assert(views(toks@).take(0) =~= Seq::<Seq<char>>::empty());
        while t < toks.len()
            invariant
                t <= toks.len(),
                kv@ == kv_sep(),
                self.wf(),
                self.entries() == entries_of_tokens(views(toks@).take(t as int)),
            decreases toks.len() - t,
        {
            let ghost done = views(toks@).take(t as int);
            let ghost next = views(toks@).take(t as int + 1);
            assert(next.drop_last() =~= done);
            assert(next.last() == toks@[t as int]@);
            let mut parts = split_chars(&toks[t], &kv);
            assert(views(parts@).len() == parts.len());
            if parts.len() == 2 {
                let value = parts.pop().unwrap();
                let key = parts.pop().unwrap();
                assert(key@ == split(toks@[t as int]@, kv_sep())[0]);
                assert(value@ == split(toks@[t as int]@, kv_sep())[1]);
                self.insert_chars(key, value);
            }
            t += 1;
        }
        assert(views(toks@).take(toks.len() as int) =~= views(toks@));
    }

    /// The serialization of the container.
    pub fn to_string(&self) -> (text: String)
        ensures
            text@ == self.blob(),
    {
        string_of(&self.kv_string)
    }

    /// The container that `content` stands for.
    pub fn from_content(content: &str) -> (m: CkyMap)
        ensures
            m.wf(),
            m.entries() == parse_entries(content@),
    {
        let mut m = CkyMap::new();
        m.reload_from_str(content.to_owned());
        m
    }
}

impl Default for CkyMap {
    /// An empty container.
    fn default() -> (m: CkyMap)
        ensures
            m.wf(),
            m.entries() == Seq::<Pair>::empty(),
            m.blob() == Seq::<char>::empty(),
    {
        CkyMap::new()
    }
}

impl From<String> for CkyMap {
    /// The container that the content stands for.
    fn from(s: String) -> (m: CkyMap)
        ensures
            m.wf(),
            m.entries() == parse_entries(s@),
    {
        let mut m = CkyMap::new();
        m.reload_from_str(s);
        m
    }
}

impl vstd::std_specs::convert::FromSpecImpl<String> for CkyMap {
    open spec fn obeys_from_spec() -> bool {
        false
    }

    open spec fn from_spec(s: String) -> CkyMap {
        arbitrary()
    }
}

impl From<&str> for CkyMap {
    /// The container that the content stands for.
    fn from(s: &str) -> (m: CkyMap)
        ensures
            m.wf(),
            m.entries() == parse_entries(s@),
    {
        CkyMap::from_content(s)
    }
}

impl vstd::std_specs::convert::FromSpecImpl<&str> for CkyMap {
    open spec fn obeys_from_spec() -> bool {
        false
    }

    open spec fn from_spec(s: &str) -> CkyMap {
        arbitrary()
    }
}

impl From<&String> for CkyMap {
    /// The container that the content stands for.
    fn from(s: &String) -> (m: CkyMap)
        ensures
            m.wf(),
            m.entries() == parse_entries(s@),
    {
        CkyMap::from_content(s.as_str())
    }
}

impl vstd::std_specs::convert::FromSpecImpl<&String> for CkyMap {
    open spec fn obeys_from_spec() -> bool {
        false
    }

    open spec fn from_spec(s: &String) -> CkyMap {
        arbitrary()
    }
}

/// A copy of a character vector.
fn copy_of(v: &Vec<char>) -> (c: Vec<char>)
    ensures
        c@ == v@,
{
    let mut c: Vec<char> = Vec::new();
    append_chars(&mut c, v);
    assert(c@ =~= v@);
    c
}

} // verus!
