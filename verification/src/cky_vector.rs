//! The tokenized sequence: an ordered run of items and its textual
//! serialization, kept side by side and tied together by a table of offsets.

use vstd::prelude::*;
use vstd::string::StrSliceExecFns;
use crate::constants::{token_sep, token_separator_chars, TOKEN_SEPARATOR_LENGTH};
use crate::errors::Error;
use crate::text::{
    append_chars, append_str, byte_len, byte_length, chars_of, decimal, decimal_string,
    push_decimal, splice, string_of,
};
use crate::tokens::{
    join, join_offset, lemma_join_around, lemma_join_offsets_monotone, lemma_join_push,
    lemma_join_remove, string_views, tokens, tokens_of, views,
};

verus! {

/// An ordered run of items that carries its own serialization.
///
/// The serialization is the text `item$%#@*&^&` of every item, one after the
/// other. Beside it stand the items, and for every item the place in the
/// serialization where it begins.
#[derive(Debug, PartialEq, Clone)]
pub struct CkyVector {
    k_string: Vec<char>,
    inner_vector: Vec<String>,
    offsets: Vec<usize>,
}

/// The items that are left when the items at the positions `indices` are
/// taken out one after the other, each position counted in the run as it
/// stood at the beginning.
pub open spec fn remove_each(items: Seq<Seq<char>>, indices: Seq<usize>) -> Seq<Seq<char>>
    decreases indices.len(),
{
    if indices.len() == 0 {
        items
    } else {
        remove_each(items, indices.drop_last()).remove(indices.last() - (indices.len() - 1))
    }
}

/// The positions are in strictly growing order.
pub open spec fn strictly_growing(indices: Seq<usize>) -> bool {
    forall|i: int, j: int| 0 <= i < j < indices.len() ==> indices[i] < indices[j]
}

impl View for CkyVector {
    type V = Seq<Seq<char>>;

    /// The items, in order.
    closed spec fn view(&self) -> Seq<Seq<char>> {
        string_views(self.inner_vector@)
    }
}

impl CkyVector {
    /// The serialization that the container carries.
    pub closed spec fn blob(&self) -> Seq<char> {
        self.k_string@
    }

    /// For every item, the place in the serialization where it begins,
    /// counted in characters.
    pub closed spec fn offset_table(&self) -> Seq<int> {
        Seq::new(self.offsets.len() as nat, |i: int| self.offsets[i] as int)
    }

    /// The container is coherent: the serialization is that of the items,
    /// and every offset is the place where its item begins.
    pub open spec fn wf(&self) -> bool {
        &&& self.blob() == join(self@)
        &&& self.offset_table().len() == self@.len()
        &&& forall|i: int|
            0 <= i < self@.len() ==> #[trigger] self.offset_table()[i] == join_offset(self@, i)
    }

    /// An empty container.
    pub fn new() -> (v: CkyVector)
        ensures
            v.wf(),
            v@ == Seq::<Seq<char>>::empty(),
            v.blob() == Seq::<char>::empty(),
    {
        let v = CkyVector { k_string: Vec::new(), inner_vector: Vec::new(), offsets: Vec::new() };
        assert(v@ =~= Seq::<Seq<char>>::empty());
        v
    }

    /// The items of the container, in order.
    pub fn items(&self) -> (items: Vec<String>)
        ensures
            string_views(items@) == self@,
    {
        let mut items: Vec<String> = Vec::new();
        let mut i: usize = 0;
        while i < self.inner_vector.len()
            invariant
                i <= self.inner_vector.len(),
                items.len() == i,
                forall|j: int| 0 <= j < i ==> (#[trigger] items[j])@ == self.inner_vector[j]@,
            decreases self.inner_vector.len() - i,
        {
            items.push(self.inner_vector[i].clone());
            i += 1;
        }
        assert(string_views(items@) =~= self@);
        items
    }

    /// The offsets of the items, in order, as the container keeps them:
    /// counted in characters.
    pub fn offsets(&self) -> (offsets: Vec<usize>)
        ensures
            offsets@.len() == self.offset_table().len(),
            forall|i: int| 0 <= i < offsets.len() ==> offsets[i] == self.offset_table()[i],
    {
        let mut offsets: Vec<usize> = Vec::new();
        let mut i: usize = 0;
        while i < self.offsets.len()
            invariant
                i <= self.offsets.len(),
                offsets.len() == i,
                forall|j: int| 0 <= j < i ==> offsets[j] == self.offsets[j],
            decreases self.offsets.len() - i,
        {
            offsets.push(self.offsets[i]);
            i += 1;
        }
        offsets
    }

    /// The places of the items in a file that holds the serialization: for
    /// every item, the number of bytes that stand before it.
    pub fn byte_offsets(&self) -> (offsets: Vec<usize>)
        requires
            self.wf(),
        ensures
            offsets@.len() == self@.len(),
            forall|i: int|
                0 <= i < offsets.len() ==> #[trigger] offsets[i] == byte_len(join(self@.take(i))),
    {
        let mut offsets: Vec<usize> = Vec::new();
        let mut i: usize = 0;
        while i < self.offsets.len()
            invariant
                self.wf(),
                i <= self.offsets.len(),
                offsets.len() == i,
                forall|j: int|
                    0 <= j < i ==> #[trigger] offsets[j] == byte_len(join(self@.take(j))),
            decreases self.offsets.len() - i,
        {
            assert(self.offset_table()[i as int] == join_offset(self@, i as int));
            proof {
                lemma_join_around(self@, i as int);
            }
            let offset = byte_length(&self.k_string, self.offsets[i]);
            assert(self.k_string@.take(self.offsets[i as int] as int) =~= join(
                self@.take(i as int),
            ));
            offsets.push(offset);
            i += 1;
        }
        offsets
    }

    /// Appends a value to the end of the run, and its text to the end of
    /// the serialization.
    pub fn push(&mut self, value: &str)
        requires
            old(self).wf(),
        ensures
            final(self).wf(),
            final(self)@ == old(self)@.push(value@),
            final(self).blob() == old(self).blob() + value@ + token_sep(),
    {
        proof {
            lemma_join_push(self@, value@);
        }
        let ghost before = self@;
        let tok = token_separator_chars();
        self.inner_vector.push(value.to_owned());
        self.offsets.push(self.k_string.len());
        append_str(&mut self.k_string, value);
        append_chars(&mut self.k_string, &tok);
        assert(self@ =~= before.push(value@));
        assert forall|j: int| 0 <= j < self@.len() implies (#[trigger] self.offset_table()[j])
            == join_offset(self@, j) by {
            if j < before.len() {
                assert(old(self).offset_table()[j] == join_offset(before, j));
            }
        }
    }

    /// The number of items.
    pub fn len(&self) -> (n: usize)
        ensures
            n == self@.len(),
    {
        self.inner_vector.len()
    }

    /// The item at position `i`, or `None` where the run is shorter.
    pub fn get(&self, i: usize) -> (item: Option<&String>)
        ensures
            match item {
                Some(s) => i < self@.len() && s@ == self@[i as int],
                None => i >= self@.len(),
            },
    {
        if i < self.inner_vector.len() {
            Some(&self.inner_vector[i])
        } else {
            None
        }
    }

    /// Removes the item at position `i` and returns it: the item and its
    /// separator are cut out of the serialization, and the offsets of the
    /// items behind it move left by the length of what was cut.
    ///
    /// Fails with `NotFoundError`, which names the position, where the run
    /// has no such position; nothing is changed then.
    pub fn remove(&mut self, i: usize) -> (result: Result<String, Error>)
        requires
            old(self).wf(),
        ensures
            final(self).wf(),
            match result {
                Ok(item) => i < old(self)@.len() && item@ == old(self)@[i as int] && final(self)@
                    == old(self)@.remove(i as int),
                Err(e) => i >= old(self)@.len() && final(self)@ == old(self)@ && final(self).blob() == old(self).blob() && e is NotFoundError && e.data_view() == Some(
                    decimal(i as nat),
                ),
            },
    {
        if i < self.inner_vector.len() {
            let ghost before = self@;
            proof {
                lemma_join_remove(before, i as int);
                lemma_join_around(before, i as int);
                lemma_join_offsets_monotone(before, i as int, i as int);
            }
            assert(self.offset_table()[i as int] == join_offset(before, i as int));
            assert(token_sep().len() == 8);
            let old_value = self.inner_vector.remove(i);
            assert(old_value@ == before[i as int]);
            assert(self.offsets[i as int] + old_value@.len() + 8 <= self.k_string.len());
            let start = self.offsets[i];
            let removed = old_value.as_str().unicode_len() + TOKEN_SEPARATOR_LENGTH;
            let end = start + removed;
            let nothing: Vec<char> = Vec::new();
            match self.replace_k_string_section(start, end, &nothing) {
                Ok(_) => {},
                Err(_) => {
                    assert(false);
                },
            }
            self.offsets.remove(i);
            let ghost after = before.remove(i as int);
            assert(self@ =~= after);
            assert(self.blob() =~= join(after));
            let ghost middle = self.offset_table();
            assert forall|j: int| i <= j < self.offset_table().len() implies removed <= (
            #[trigger] self.offset_table()[j]) by {
                assert(middle[j] == old(self).offset_table()[j + 1]);
                assert(old(self).offset_table()[j + 1] == join_offset(before, j + 1));
                lemma_join_offsets_monotone(before, i as int + 1, j + 1);
            }
            self.shift_offsets_left(i, removed);
            assert forall|j: int| 0 <= j < self@.len() implies (#[trigger] self.offset_table()[j])
                == join_offset(self@, j) by {
                if j < i {
                    assert(middle[j] == old(self).offset_table()[j]);
                    assert(old(self).offset_table()[j] == join_offset(before, j));
                    assert(join_offset(after, j) == join_offset(before, j));
                } else {
                    assert(middle[j] == old(self).offset_table()[j + 1]);
                    assert(old(self).offset_table()[j + 1] == join_offset(before, j + 1));
                    assert(self.offset_table()[j] == middle[j] - removed);
                    if j == i {
                        assert(join_offset(after, j) == join_offset(before, j));
                    } else {
                        assert(join_offset(after, j) == join_offset(before, j + 1) - removed);
                    }
                }
            }
            return Ok(old_value);
        }
        Err(Error::NotFoundError { key: decimal_string(i as u128) })
    }

    /// Removes the items at the given positions, which are counted in the
    /// run as it stands before the call and come in strictly growing order,
    /// and returns them.
    ///
    /// Fails with `NotFoundError` at the first position that the run does
    /// not have; the items at the positions before it are removed then.
    pub fn remove_many(&mut self, indices: Vec<usize>) -> (result: Result<Vec<String>, Error>)
        requires
            old(self).wf(),
            strictly_growing(indices@),
        ensures
            final(self).wf(),
            match result {
                Ok(removed) => {
                    &&& forall|k: int| 0 <= k < indices.len() ==> indices[k] < old(self)@.len()
                    &&& removed.len() == indices.len()
                    &&& forall|k: int|
                        0 <= k < indices.len() ==> (#[trigger] removed[k])@ == old(
                            self,
                        )@[indices[k] as int]
                    &&& final(self)@ == remove_each(old(self)@, indices@)
                },
                Err(e) => exists|k: int|
                    {
                        &&& 0 <= k < indices.len()
                        &&& indices[k] >= old(self)@.len()
                        &&& forall|j: int| 0 <= j < k ==> indices[j] < old(self)@.len()
                        &&& final(self)@ == remove_each(old(self)@, indices@.take(k))
                        &&& e is NotFoundError
                        &&& e.data_view() == Some(decimal((indices[k] - k) as nat))
                    },
            },
    {
        let mut old_values: Vec<String> = Vec::new();
        let mut i: usize = 0;
        assert(indices@.take(0) =~= Seq::<usize>::empty());
        while i < indices.len()
            invariant
                i <= indices.len(),
                self.wf(),
                strictly_growing(indices@),
                old_values.len() == i,
                self@ == remove_each(old(self)@, indices@.take(i as int)),
                self@.len() == old(self)@.len() - i,
                forall|k: int| 0 <= k < i ==> indices[k] < old(self)@.len(),
                forall|k: int|
                    0 <= k < i ==> (#[trigger] old_values[k])@ == old(self)@[indices[k] as int],
                forall|p: int|
                    0 <= p < self@.len() && (i == 0 || p + i > indices[i - 1]) ==> self@[p] == old(
                        self,
                    )@[p + i],
            decreases indices.len() - i,
        {
            assert(i > 0 ==> indices[i - 1] < indices[i as int]);
            assert(indices[i as int] >= i) by {
                lemma_growing_bound(indices@, i as int);
            }
            let index = indices[i] - i;
            let ghost current = self@;
            assert(indices@.take(i as int + 1).drop_last() =~= indices@.take(i as int));
            assert(indices@.take(i as int + 1).last() == indices[i as int]);
            match self.remove(index) {
                Ok(v) => {
                    old_values.push(v);
                },
                Err(e) => {
                    assert(indices[i as int] >= old(self)@.len());
                    return Err(e);
                },
            }
            i += 1;
        }
        assert(indices@.take(indices.len() as int) =~= indices@);
        Ok(old_values)
    }

    /// Makes the container hold the tokens of `content`.
    pub fn reload_from_str(&mut self, content: String)
        ensures
            final(self).wf(),
            final(self)@ == tokens(content@),
    {
        self.clear();
        let chars = chars_of(content.as_str());
        let toks = tokens_of(&chars);
        let mut t: usize = 0;
        while t < toks.len()
            invariant
                t <= toks.len(),
                self.wf(),
                self@ == views(toks@).take(t as int),
            decreases toks.len() - t,
        {
            let item = string_of(&toks[t]);
            self.push(item.as_str());
            assert(views(toks@).take(t as int + 1) =~= views(toks@).take(t as int).push(
                toks@[t as int]@,
            ));
            t += 1;
        }
        assert(views(toks@).take(toks.len() as int) =~= views(toks@));
    }

    /// Clears all data of the container.
    pub fn clear(&mut self)
        ensures
            final(self).wf(),
            final(self)@ == Seq::<Seq<char>>::empty(),
            final(self).blob() == Seq::<char>::empty(),
    {
        self.inner_vector.clear();
        self.offsets.clear();
        self.k_string.clear();
        assert(self@ =~= Seq::<Seq<char>>::empty());
    }

    /// Replaces the characters `start..end` of the serialization by
    /// `replacement`, and leaves the items and the offsets as they are.
    ///
    /// Fails with `CorruptedDataError` where `end` lies beyond the
    /// serialization; nothing is changed then.
    fn replace_k_string_section(&mut self, start: usize, end: usize, replacement: &Vec<char>) -> (result:
        Result<(), Error>)
        requires
            start <= end,
        ensures
            final(self)@ == old(self)@,
            final(self).offset_table() == old(self).offset_table(),
            match result {
                Ok(_) => end <= old(self).blob().len() && final(self).blob() == old(
                    self,
                ).blob().subrange(0, start as int) + replacement@ + old(self).blob().subrange(
                    end as int,
                    old(self).blob().len() as int,
                ),
                Err(e) => end > old(self).blob().len() && final(self).blob() == old(self).blob()
                    && e is CorruptedDataError && e.data_view() == Some(
                    decimal(end as nat) + " is beyond length of raw string of length "@ + decimal(
                        old(self).blob().len(),
                    ),
                ),
            },
    {
        let string_length = self.k_string.len();
        if end > string_length {
            let mut text = String::new();
            push_decimal(&mut text, end as u128);
            let mut chars = chars_of(text.as_str());
            let middle = chars_of(" is beyond length of raw string of length ");
            append_chars(&mut chars, &middle);
            let mut text = string_of(&chars);
            push_decimal(&mut text, string_length as u128);
            assert(text@ =~= decimal(end as nat) + " is beyond length of raw string of length "@
                + decimal(string_length as nat));
            return Err(Error::CorruptedDataError { data: Some(text) });
        }
        splice(&mut self.k_string, start, end, replacement);
        Ok(())
    }

    /// Shifts the offsets from position `index` on by `delta`. The items and
    /// the serialization stay as they are, so the container is coherent
    /// afterwards only where the serialization has been changed to match.
    pub fn shift_offsets(&mut self, index: usize, delta: isize)
        requires
            forall|j: int|
                index <= j < old(self).offset_table().len() ==> 0 <= (
                #[trigger] old(self).offset_table()[j]) + delta <= usize::MAX,
        ensures
            final(self)@ == old(self)@,
            final(self).blob() == old(self).blob(),
            final(self).offset_table().len() == old(self).offset_table().len(),
            forall|j: int|
                0 <= j < index && j < old(self).offset_table().len() ==> (
                #[trigger] final(self).offset_table()[j]) == old(self).offset_table()[j],
            forall|j: int|
                index <= j < old(self).offset_table().len() ==> (
                #[trigger] final(self).offset_table()[j]) == old(self).offset_table()[j] + delta,
    {
        if delta >= 0 {
            self.shift_offsets_right(index, delta as usize);
        } else {
            self.shift_offsets_left(index, (-(delta as i128)) as usize);
        }
    }

    /// Lowers the offsets from position `index` on by `by`.
    fn shift_offsets_left(&mut self, index: usize, by: usize)
        requires
            forall|j: int|
                index <= j < old(self).offset_table().len() ==> by <= (
                #[trigger] old(self).offset_table()[j]),
        ensures
            final(self)@ == old(self)@,
            final(self).blob() == old(self).blob(),
            final(self).offset_table().len() == old(self).offset_table().len(),
            forall|j: int|
                0 <= j < index && j < old(self).offset_table().len() ==> (
                #[trigger] final(self).offset_table()[j]) == old(self).offset_table()[j],
            forall|j: int|
                index <= j < old(self).offset_table().len() ==> (
                #[trigger] final(self).offset_table()[j]) == old(self).offset_table()[j] - by,
    {
        let mut i: usize = index;
        while i < self.offsets.len()
            invariant
                index <= i,
                self@ == old(self)@,
                self.blob() == old(self).blob(),
                self.offsets.len() == old(self).offsets.len(),
                forall|k: int|
                    0 <= k < index && k < self.offsets.len() ==> self.offsets[k] == old(
                        self,
                    ).offsets[k],
                forall|k: int|
                    index <= k < i && k < self.offsets.len() ==> self.offsets[k] == old(
                        self,
                    ).offsets[k] - by,
                forall|k: int| i <= k < self.offsets.len() ==> self.offsets[k] == old(self).offsets[k],
                forall|k: int|
                    index <= k < old(self).offset_table().len() ==> by <= (
                    #[trigger] old(self).offset_table()[k]),
            decreases self.offsets.len() - i,
        {
            assert(old(self).offset_table()[i as int] == old(self).offsets[i as int]);
            let moved = self.offsets[i] - by;
            self.offsets.set(i, moved);
            i += 1;
        }
    }

    /// Raises the offsets from position `index` on by `by`.
    fn shift_offsets_right(&mut self, index: usize, by: usize)
        requires
            forall|j: int|
                index <= j < old(self).offset_table().len() ==> (
                #[trigger] old(self).offset_table()[j]) + by <= usize::MAX,
        ensures
            final(self)@ == old(self)@,
            final(self).blob() == old(self).blob(),
            final(self).offset_table().len() == old(self).offset_table().len(),
            forall|j: int|
                0 <= j < index && j < old(self).offset_table().len() ==> (
                #[trigger] final(self).offset_table()[j]) == old(self).offset_table()[j],
            forall|j: int|
                index <= j < old(self).offset_table().len() ==> (
                #[trigger] final(self).offset_table()[j]) == old(self).offset_table()[j] + by,
    {
        let mut i: usize = index;
        while i < self.offsets.len()
            invariant
                index <= i,
                self@ == old(self)@,
                self.blob() == old(self).blob(),
                self.offsets.len() == old(self).offsets.len(),
                forall|k: int|
                    0 <= k < index && k < self.offsets.len() ==> self.offsets[k] == old(
                        self,
                    ).offsets[k],
                forall|k: int|
                    index <= k < i && k < self.offsets.len() ==> self.offsets[k] == old(
                        self,
                    ).offsets[k] + by,
                forall|k: int| i <= k < self.offsets.len() ==> self.offsets[k] == old(self).offsets[k],
                forall|k: int|
                    index <= k < old(self).offset_table().len() ==> (
                    #[trigger] old(self).offset_table()[k]) + by <= usize::MAX,
            decreases self.offsets.len() - i,
        {
            assert(old(self).offset_table()[i as int] == old(self).offsets[i as int]);
            let moved = self.offsets[i] + by;
            self.offsets.set(i, moved);
            i += 1;
        }
    }

    /// The serialization of the container.
    pub fn to_string(&self) -> (text: String)
        ensures
            text@ == self.blob(),
    {
        string_of(&self.k_string)
    }
}

/// In a strictly growing run of positions, the position at place `i` is at
/// least `i`.
proof fn lemma_growing_bound(indices: Seq<usize>, i: int)
    requires
        strictly_growing(indices),
        0 <= i < indices.len(),
    ensures
        indices[i] >= i,
    decreases i,
{
    if i > 0 {
        lemma_growing_bound(indices, i - 1);
    }
}

impl Default for CkyVector {
    /// An empty container.
    fn default() -> (v: CkyVector)
        ensures
            v.wf(),
            v@ == Seq::<Seq<char>>::empty(),
            v.blob() == Seq::<char>::empty(),
    {
        CkyVector::new()
    }
}

impl From<String> for CkyVector {
    /// The container that holds the tokens of the content.
    fn from(s: String) -> (v: CkyVector)
        ensures
            v.wf(),
            v@ == tokens(s@),
    {
        let mut v = CkyVector::new();
        v.reload_from_str(s);
        v
    }
}

impl vstd::std_specs::convert::FromSpecImpl<String> for CkyVector {
    open spec fn obeys_from_spec() -> bool {
        false
    }

    open spec fn from_spec(s: String) -> CkyVector {
        arbitrary()
    }
}

impl From<&str> for CkyVector {
    /// The container that holds the tokens of the content.
    fn from(s: &str) -> (v: CkyVector)
        ensures
            v.wf(),
            v@ == tokens(s@),
    {
        let mut v = CkyVector::new();
        v.reload_from_str(s.to_owned());
        v
    }
}

impl vstd::std_specs::convert::FromSpecImpl<&str> for CkyVector {
    open spec fn obeys_from_spec() -> bool {
        false
    }

    open spec fn from_spec(s: &str) -> CkyVector {
        arbitrary()
    }
}

impl From<&String> for CkyVector {
    /// The container that holds the tokens of the content.
    fn from(s: &String) -> (v: CkyVector)
        ensures
            v.wf(),
            v@ == tokens(s@),
    {
        let mut v = CkyVector::new();
        v.reload_from_str(s.clone());
        v
    }
}

impl vstd::std_specs::convert::FromSpecImpl<&String> for CkyVector {
    open spec fn obeys_from_spec() -> bool {
        false
    }

    open spec fn from_spec(s: &String) -> CkyVector {
        arbitrary()
    }
}

} // verus!
