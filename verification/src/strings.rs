//! The tokenized string: a container that keeps nothing but its
//! serialization and, for every token, the places where its key and its
//! value stand in it.
//!
//! A token is a key alone, or a key and a value with the key-value separator
//! between them. Keys and values are read out of the serialization when they
//! are asked for.

use vstd::prelude::*;
use crate::constants::{
    key_value_separator_chars, kv_sep, token_sep, token_separator_chars, TOKEN_SEPARATOR_LENGTH,
};
use crate::errors::Error;
use crate::text::{append_chars, chars_of, decimal, push_decimal, splice, string_of, substring};
use crate::tokens::{matches_at, matches_at_chars, split, split_scan, tokens, tokens_of, views};

verus! {

/// One token of a tokenized string, as mathematics sees it.
pub struct Token {
    pub key: Seq<char>,
    pub value: Seq<char>,
    /// Whether the key-value separator stands between key and value.
    pub paired: bool,
}

/// The text that stands between the key and the value of a token.
pub open spec fn middle_of(t: Token) -> Seq<char> {
    if t.paired {
        kv_sep()
    } else {
        Seq::empty()
    }
}

/// The text of a token: key, separator where the token has one, value, and
/// the token separator.
pub open spec fn text_of(t: Token) -> Seq<char> {
    t.key + middle_of(t) + t.value + token_sep()
}

/// The text of a run of tokens.
pub open spec fn text_of_all(ts: Seq<Token>) -> Seq<char>
    decreases ts.len(),
{
    if ts.len() == 0 {
        Seq::empty()
    } else {
        text_of_all(ts.drop_last()) + text_of(ts.last())
    }
}

/// Where token `i` begins in the text of the run.
pub open spec fn place_of(ts: Seq<Token>, i: int) -> int {
    text_of_all(ts.take(i)).len() as int
}

/// The token that a text stands for. A text without key-value separator is
/// a key alone; any other text is cut at its first key-value separator into
/// key and value.
pub open spec fn token_from(text: Seq<char>) -> Token {
    let key = split(text, kv_sep())[0];
    if split(text, kv_sep()).len() == 1 {
        Token { key, value: Seq::empty(), paired: false }
    } else {
        Token {
            key,
            value: text.subrange((key.len() + kv_sep().len()) as int, text.len() as int),
            paired: true,
        }
    }
}

/// The tokens that a content stands for.
pub open spec fn tokens_from(content: Seq<char>) -> Seq<Token> {
    Seq::new(tokens(content).len(), |i: int| token_from(tokens(content)[i]))
}

/// The position of the first token with the key, or the number of tokens
/// where there is none.
pub open spec fn first_with(ts: Seq<Token>, key: Seq<char>) -> int
    decreases ts.len(),
{
    if ts.len() == 0 {
        0
    } else {
        let i = first_with(ts.drop_last(), key);
        if i < ts.len() - 1 {
            i
        } else if ts.last().key == key {
            ts.len() - 1
        } else {
            ts.len() as int
        }
    }
}

/// The position of the last token with the key, or -1 where there is none.
pub open spec fn last_with(ts: Seq<Token>, key: Seq<char>) -> int
    decreases ts.len(),
{
    if ts.len() == 0 {
        -1
    } else if ts.last().key == key {
        ts.len() - 1
    } else {
        last_with(ts.drop_last(), key)
    }
}

/// The tokens after `key` has been given `value`: the first token with the
/// key takes the value, or a new token of key and value goes to the end.
pub open spec fn with_value(ts: Seq<Token>, key: Seq<char>, value: Seq<char>) -> Seq<Token> {
    let i = first_with(ts, key);
    if i < ts.len() {
        ts.update(i, Token { value, ..ts[i] })
    } else {
        ts.push(Token { key, value, paired: true })
    }
}

/// The text of a run that is made of two runs is the two texts, one after
/// the other.
pub proof fn lemma_text_concat(a: Seq<Token>, b: Seq<Token>)
    ensures
        text_of_all(a + b) == text_of_all(a) + text_of_all(b),
    decreases b.len(),
{
    if b.len() == 0 {
        assert(a + b =~= a);
        assert(text_of_all(a) + text_of_all(b) =~= text_of_all(a));
    } else {
        lemma_text_concat(a, b.drop_last());
        assert((a + b).drop_last() =~= a + b.drop_last());
        assert((a + b).last() == b.last());
        assert(text_of_all(a + b) =~= text_of_all(a) + text_of_all(b));
    }
}

/// The text of a run is made of what stands before token `i`, the text of
/// token `i`, and what stands after it.
pub proof fn lemma_text_around(ts: Seq<Token>, i: int)
    requires
        0 <= i < ts.len(),
    ensures
        text_of_all(ts) == text_of_all(ts.take(i)) + text_of(ts[i]) + text_of_all(ts.skip(i + 1)),
        place_of(ts, i + 1) == place_of(ts, i) + text_of(ts[i]).len(),
        place_of(ts, i + 1) <= text_of_all(ts).len(),
        text_of_all(ts).subrange(place_of(ts, i), place_of(ts, i + 1)) == text_of(ts[i]),
{
    let before = ts.take(i);
    let after = ts.skip(i + 1);
    let one = seq![ts[i]];
    assert(ts =~= before + one + after);
    lemma_text_concat(before + one, after);
    lemma_text_concat(before, one);
    assert(one.drop_last() =~= Seq::<Token>::empty());
    assert(one.last() == ts[i]);
    assert(text_of_all(Seq::<Token>::empty()) =~= Seq::<char>::empty());
    assert(text_of_all(one) =~= text_of(ts[i]));
    assert(ts.take(i + 1) =~= before + one);
    let s = text_of_all(ts);
    let a = text_of_all(before);
    let t = text_of(ts[i]);
    assert(s == a + t + text_of_all(after));
    assert(s.subrange(a.len() as int, (a.len() + t.len()) as int) =~= t);
}

/// Places grow with the position.
pub proof fn lemma_places_monotone(ts: Seq<Token>, i: int, j: int)
    requires
        0 <= i <= j <= ts.len(),
    ensures
        place_of(ts, i) <= place_of(ts, j),
        place_of(ts, j) <= text_of_all(ts).len(),
        place_of(ts, ts.len() as int) == text_of_all(ts).len(),
{
    assert(ts.take(j) =~= ts.take(i) + ts.subrange(i, j));
    lemma_text_concat(ts.take(i), ts.subrange(i, j));
    assert(ts =~= ts.take(j) + ts.skip(j));
    lemma_text_concat(ts.take(j), ts.skip(j));
    assert(ts.take(ts.len() as int) =~= ts);
}

/// Replacing the value of token `i` changes the length of the text of the
/// run by the difference of the lengths of the two values.
pub proof fn lemma_text_update_len(ts: Seq<Token>, i: int, value: Seq<char>)
    requires
        0 <= i < ts.len(),
    ensures
        text_of_all(ts.update(i, Token { value, ..ts[i] })).len() == text_of_all(ts).len()
            + value.len() - ts[i].value.len(),
{
    let t = ts[i];
    let n = Token { value, ..t };
    let after = ts.update(i, n);
    lemma_text_around(ts, i);
    lemma_text_around(after, i);
    assert(after.take(i) =~= ts.take(i));
    assert(after.skip(i + 1) =~= ts.skip(i + 1));
    assert(middle_of(n) == middle_of(t));
}

/// Replacing the value of token `i` replaces the characters of that value
/// in the text of the run.
pub proof fn lemma_text_update_blob(ts: Seq<Token>, i: int, value: Seq<char>)
    requires
        0 <= i < ts.len(),
    ensures
        ({
            let t = ts[i];
            let s = text_of_all(ts);
            let from = place_of(ts, i) + t.key.len() + middle_of(t).len();
            let to = from + t.value.len();
            let after = ts.update(i, Token { value, ..t });
            &&& to + token_sep().len() <= s.len()
            &&& text_of_all(after) == s.subrange(0, from) + value + s.subrange(to, s.len() as int)
        }),
{
    let t = ts[i];
    let n = Token { value, ..t };
    let s = text_of_all(ts);
    let from = place_of(ts, i) + t.key.len() + middle_of(t).len();
    let to = from + t.value.len();
    let after = ts.update(i, n);
    lemma_text_around(ts, i);
    lemma_text_around(after, i);
    assert(after.take(i) =~= ts.take(i));
    assert(after.skip(i + 1) =~= ts.skip(i + 1));
    let pre = text_of_all(ts.take(i)) + t.key + middle_of(t);
    let post = token_sep() + text_of_all(ts.skip(i + 1));
    assert(middle_of(n) == middle_of(t));
    assert(s =~= pre + t.value + post);
    assert(text_of_all(after) =~= pre + value + post);
    assert(s.subrange(0, from) =~= pre);
    assert(s.subrange(to, s.len() as int) =~= post);
}

/// Replacing the value of token `i` replaces the characters of that value
/// in the text and moves every later token by the difference of the two
/// lengths.
pub proof fn lemma_text_update(ts: Seq<Token>, i: int, value: Seq<char>)
    requires
        0 <= i < ts.len(),
    ensures
        ({
            let t = ts[i];
            let s = text_of_all(ts);
            let from = place_of(ts, i) + t.key.len() + middle_of(t).len();
            let to = from + t.value.len();
            let after = ts.update(i, Token { value, ..t });
            &&& to + token_sep().len() <= s.len()
            &&& text_of_all(after) == s.subrange(0, from) + value + s.subrange(to, s.len() as int)
            &&& forall|j: int| 0 <= j <= i ==> place_of(after, j) == place_of(ts, j)
            &&& forall|j: int|
                i < j <= ts.len() ==> place_of(after, j) == place_of(ts, j) + value.len()
                    - t.value.len()
        }),
{
    let t = ts[i];
    let n = Token { value, ..t };
    let after = ts.update(i, n);
    lemma_text_update_blob(ts, i, value);
    assert forall|j: int| 0 <= j <= i implies place_of(after, j) == place_of(ts, j) by {
        assert(after.take(j) =~= ts.take(j));
    }
    assert forall|j: int| i < j <= ts.len() implies place_of(after, j) == place_of(ts, j)
        + value.len() - t.value.len() by {
        let tj = ts.take(j);
        assert(after.take(j) =~= tj.update(i, n));
        assert(tj[i] == t);
        lemma_text_update_len(tj, i, value);
    }
}

/// Removing token `i` cuts its text out of the text of the run and moves
/// every later token by the length of that text.
pub proof fn lemma_text_remove(ts: Seq<Token>, i: int)
    requires
        0 <= i < ts.len(),
    ensures
        ({
            let s = text_of_all(ts);
            let from = place_of(ts, i);
            let to = from + text_of(ts[i]).len();
            let after = ts.remove(i);
            &&& to <= s.len()
            &&& text_of_all(after) == s.subrange(0, from) + s.subrange(to, s.len() as int)
            &&& forall|j: int| 0 <= j <= i ==> place_of(after, j) == place_of(ts, j)
            &&& forall|j: int|
                i < j < ts.len() ==> place_of(after, j) == place_of(ts, j + 1) - text_of(
                    ts[i],
                ).len()
        }),
{
    let s = text_of_all(ts);
    let from = place_of(ts, i);
    let to = from + text_of(ts[i]).len();
    let after = ts.remove(i);
    lemma_text_around(ts, i);
    assert(after =~= ts.take(i) + ts.skip(i + 1));
    lemma_text_concat(ts.take(i), ts.skip(i + 1));
    let a = text_of_all(ts.take(i));
    let z = text_of_all(ts.skip(i + 1));
    assert(s == a + text_of(ts[i]) + z);
    assert(text_of_all(after) =~= s.subrange(0, from) + s.subrange(to, s.len() as int));
    assert forall|j: int| 0 <= j <= i implies place_of(after, j) == place_of(ts, j) by {
        assert(after.take(j) =~= ts.take(j));
    }
    assert forall|j: int| i < j < ts.len() implies place_of(after, j) == place_of(ts, j + 1)
        - text_of(ts[i]).len() by {
        let tj = ts.take(j + 1);
        assert(after.take(j) =~= tj.remove(i));
        lemma_text_around(tj, i);
        assert(tj.remove(i) =~= tj.take(i) + tj.skip(i + 1));
        lemma_text_concat(tj.take(i), tj.skip(i + 1));
    }
}

/// Adding a token at the end adds its text at the end of the text of the
/// run and leaves every other token where it was.
pub proof fn lemma_text_push(ts: Seq<Token>, t: Token)
    ensures
        text_of_all(ts.push(t)) == text_of_all(ts) + text_of(t),
        forall|j: int| 0 <= j <= ts.len() ==> place_of(ts.push(t), j) == place_of(ts, j),
        place_of(ts.push(t), ts.len() as int) == text_of_all(ts).len(),
{
    assert(ts.push(t).drop_last() =~= ts);
    assert forall|j: int| 0 <= j <= ts.len() implies place_of(ts.push(t), j) == place_of(ts, j) by {
        assert(ts.push(t).take(j) =~= ts.take(j));
    }
    assert(ts.take(ts.len() as int) =~= ts);
}

/// Where the key and the value of one token stand in the serialization.
#[derive(Debug, Clone, Copy, PartialEq, Eq, Structural)]
pub struct Span {
    pub k_start: usize,
    pub k_end: usize,
    pub v_start: usize,
    pub v_end: usize,
}

/// Where the key and the value of token `i` stand in the text of the run.
pub open spec fn span_fits(span: Span, ts: Seq<Token>, i: int) -> bool {
    &&& span.k_start == place_of(ts, i)
    &&& span.k_end == span.k_start + ts[i].key.len()
    &&& span.v_start == span.k_end + middle_of(ts[i]).len()
    &&& span.v_end == span.v_start + ts[i].value.len()
}

/// A run of tokens that carries nothing but its serialization and the
/// places of its keys and values.
pub struct TokenizedString {
    kv_string: Vec<char>,
    offsets: Vec<Span>,
    model: Ghost<Seq<Token>>,
}

impl View for TokenizedString {
    type V = Seq<Token>;

    /// The tokens, in order.
    closed spec fn view(&self) -> Seq<Token> {
        self.model@
    }
}

impl TokenizedString {
    /// The serialization that the container carries.
    pub closed spec fn blob(&self) -> Seq<char> {
        self.kv_string@
    }

    /// For every token, the places of its key and its value.
    pub closed spec fn spans(&self) -> Seq<Span> {
        self.offsets@
    }

    /// The container is coherent: the serialization is the text of the
    /// tokens, and the places of every token are those of its key and its
    /// value in the serialization.
    pub open spec fn wf(&self) -> bool {
        &&& self.blob() == text_of_all(self@)
        &&& self.spans().len() == self@.len()
        &&& forall|i: int| 0 <= i < self@.len() ==> span_fits(#[trigger] self.spans()[i], self@, i)
    }

    /// An empty container.
    pub fn new() -> (t: TokenizedString)
        ensures
            t.wf(),
            t@ == Seq::<Token>::empty(),
            t.blob() == Seq::<char>::empty(),
    {
        TokenizedString {
            kv_string: Vec::new(),
            offsets: Vec::new(),
            model: Ghost(Seq::empty()),
        }
    }

    /// The key and the value of token `i` stand in the serialization where
    /// its places say.
    proof fn lemma_token_in_place(&self, i: int)
        requires
            self.wf(),
            0 <= i < self@.len(),
        ensures
            self.spans()[i].v_end + token_sep().len() <= self.blob().len(),
            self.spans()[i].k_start <= self.spans()[i].k_end <= self.spans()[i].v_start
                <= self.spans()[i].v_end,
            self.blob().subrange(self.spans()[i].k_start as int, self.spans()[i].k_end as int)
                == self@[i].key,
            self.blob().subrange(self.spans()[i].v_start as int, self.spans()[i].v_end as int)
                == self@[i].value,
            text_of(self@[i]).len() == self.spans()[i].v_end + token_sep().len()
                - self.spans()[i].k_start,
    {
        let ts = self@;
        let t = ts[i];
        let span = self.spans()[i];
        lemma_text_around(ts, i);
        let s = self.blob();
        let text = text_of(t);
        assert(s.subrange(place_of(ts, i), place_of(ts, i + 1)) == text);
        assert(text.subrange(0, t.key.len() as int) =~= t.key);
        let vs = t.key.len() + middle_of(t).len();
        assert(text.subrange(vs as int, (vs + t.value.len()) as int) =~= t.value);
        assert(s.subrange(span.k_start as int, span.k_end as int) =~= text.subrange(
            0,
            t.key.len() as int,
        ));
        assert(s.subrange(span.v_start as int, span.v_end as int) =~= text.subrange(
            vs as int,
            (vs + t.value.len()) as int,
        ));
    }

    /// Returns the keys and values of the tokens, in the order of the
    /// serialization.
    pub fn map(&self) -> (pairs: Vec<(String, String)>)
        requires
            self.wf(),
        ensures
            pairs.len() == self@.len(),
            forall|i: int|
                0 <= i < pairs.len() ==> (#[trigger] pairs[i]).0@ == self@[i].key && pairs[i].1@
                    == self@[i].value,
    {
        let mut pairs: Vec<(String, String)> = Vec::new();
        let mut i: usize = 0;
        while i < self.offsets.len()
            invariant
                self.wf(),
                i <= self.offsets.len(),
                pairs.len() == i,
                forall|j: int|
                    0 <= j < i ==> (#[trigger] pairs[j]).0@ == self@[j].key && pairs[j].1@
                        == self@[j].value,
            decreases self.offsets.len() - i,
        {
            proof {
                self.lemma_token_in_place(i as int);
            }
            let span = self.offsets[i];
            pairs.push(
                (
                    substring(&self.kv_string, span.k_start, span.k_end),
                    substring(&self.kv_string, span.v_start, span.v_end),
                ),
            );
            i += 1;
        }
        pairs
    }

    /// Returns the keys of the tokens, in the order of the serialization.
    pub fn keys(&self) -> (keys: Vec<String>)
        requires
            self.wf(),
        ensures
            keys.len() == self@.len(),
            forall|i: int| 0 <= i < keys.len() ==> (#[trigger] keys[i])@ == self@[i].key,
    {
        let mut keys: Vec<String> = Vec::new();
        let mut i: usize = 0;
        while i < self.offsets.len()
            invariant
                self.wf(),
                i <= self.offsets.len(),
                keys.len() == i,
                forall|j: int| 0 <= j < i ==> (#[trigger] keys[j])@ == self@[j].key,
            decreases self.offsets.len() - i,
        {
            proof {
                self.lemma_token_in_place(i as int);
            }
            let span = self.offsets[i];
            keys.push(substring(&self.kv_string, span.k_start, span.k_end));
            i += 1;
        }
        keys
    }

    /// Whether the key of token `i` is `key`.
    fn key_is(&self, i: usize, key: &Vec<char>) -> (r: bool)
        requires
            self.wf(),
            i < self@.len(),
        ensures
            r == (self@[i as int].key == key@),
    {
        proof {
            self.lemma_token_in_place(i as int);
        }
        let span = self.offsets[i];
        if span.k_end - span.k_start != key.len() {
            return false;
        }
        let r = matches_at_chars(&self.kv_string, key, span.k_start);
        assert(self.blob().subrange(span.k_start as int, span.k_start + key.len()) == self@[i as int].key);
        r
    }

    /// The position of the first token with the key.
    fn find_first(&self, key: &Vec<char>) -> (i: usize)
        requires
            self.wf(),
        ensures
            i == first_with(self@, key@),
            i <= self@.len(),
            i < self@.len() ==> self@[i as int].key == key@,
    {
        let mut i: usize = 0;
        assert(self@.take(0) =~= Seq::<Token>::empty());
        while i < self.offsets.len()
            invariant
                self.wf(),
                i <= self.offsets.len(),
                first_with(self@.take(i as int), key@) == i,
            decreases self.offsets.len() - i,
        {
            if self.key_is(i, key) {
                proof {
                    lemma_first_found(self@, key@, i as int);
                }
                return i;
            }
            let ghost next = self@.take(i as int + 1);
            assert(next.drop_last() =~= self@.take(i as int));
            assert(next.last() == self@[i as int]);
            i += 1;
        }
        assert(self@.take(i as int) =~= self@);
        i
    }

    /// Gets the value of the key: that of the last token with the key.
    ///
    /// Fails with `NotFoundError`, which names the key, where no token has
    /// the key.
    pub fn get(&self, key: &str) -> (result: Result<String, Error>)
        requires
            self.wf(),
        ensures
            match result {
                Ok(value) => last_with(self@, key@) >= 0 && value@ == self@[last_with(
                    self@,
                    key@,
                )].value,
                Err(e) => last_with(self@, key@) < 0 && e is NotFoundError && e.data_view()
                    == Some(key@),
            },
    {
        let k = chars_of(key);
        let mut i: usize = self.offsets.len();
        assert(self@.take(i as int) =~= self@);
        while i > 0
            invariant
                self.wf(),
                i <= self.offsets.len(),
                last_with(self@, key@) == last_with(self@.take(i as int), key@),
                k@ == key@,
            decreases i,
        {
            let ghost upto = self@.take(i as int);
            i -= 1;
            assert(upto.drop_last() =~= self@.take(i as int));
            assert(upto.last() == self@[i as int]);
            if self.key_is(i, &k) {
                proof {
                    self.lemma_token_in_place(i as int);
                }
                let span = self.offsets[i];
                return Ok(substring(&self.kv_string, span.v_start, span.v_end));
            }
        }
        Err(Error::not_found(key))
    }

    /// Replaces the characters `start..end` of the serialization by
    /// `replacement`, and leaves the places and the tokens as they are.
    ///
    /// Fails with `CorruptedDataError` where `end` lies beyond the
    /// serialization; nothing is changed then.
    fn ___replace_kv_string_section(
        &mut self,
        start: usize,
        end: usize,
        replacement: &Vec<char>,
    ) -> (result: Result<(), Error>)
        requires
            start <= end,
        ensures
            final(self)@ == old(self)@,
            final(self).spans() == old(self).spans(),
            match result {
                Ok(_) => end <= old(self).blob().len() && final(self).blob() == old(
                    self,
                ).blob().subrange(0, start as int) + replacement@ + old(self).blob().subrange(
                    end as int,
                    old(self).blob().len() as int,
                ),
                Err(e) => end > old(self).blob().len() && final(self).blob() == old(self).blob()
                    && e is CorruptedDataError && e.data_view() == Some(
                    decimal(end as nat) + " is beyond length of raw string of length "@ + decimal(
                        old(self).blob().len(),
                    ),
                ),
            },
    {
        let string_length = self.kv_string.len();
        if end > string_length {
            let mut text = String::new();
            push_decimal(&mut text, end as u128);
            let mut chars = chars_of(text.as_str());
            let middle = chars_of(" is beyond length of raw string of length ");
            append_chars(&mut chars, &middle);
            let mut text = string_of(&chars);
            push_decimal(&mut text, string_length as u128);
            assert(text@ =~= decimal(end as nat) + " is beyond length of raw string of length "@
                + decimal(string_length as nat));
            return Err(Error::CorruptedDataError { data: Some(text) });
        }
        splice(&mut self.kv_string, start, end, replacement);
        Ok(())
    }

    /// Moves the places of the tokens from position `from` on: each loses
    /// `removed` and gains `added`.
    fn shift_spans(&mut self, from: usize, removed: usize, added: usize)
        requires
            forall|j: int|
                from <= j < old(self).spans().len() ==> removed <= (
                #[trigger] old(self).spans()[j]).k_start && old(self).spans()[j].v_end - removed
                    + added <= usize::MAX && old(self).spans()[j].k_start <= old(
                    self,
                ).spans()[j].k_end <= old(self).spans()[j].v_start <= old(self).spans()[j].v_end,
        ensures
            final(self)@ == old(self)@,
            final(self).blob() == old(self).blob(),
            final(self).spans().len() == old(self).spans().len(),
            forall|j: int|
                0 <= j < from && j < old(self).spans().len() ==> (#[trigger] final(self).spans()[j]) == old(self).spans()[j],
            forall|j: int|
                from <= j < old(self).spans().len() ==> (#[trigger] final(self).spans()[j]) == (Span {
                    k_start: (old(self).spans()[j].k_start - removed + added) as usize,
                    k_end: (old(self).spans()[j].k_end - removed + added) as usize,
                    v_start: (old(self).spans()[j].v_start - removed + added) as usize,
                    v_end: (old(self).spans()[j].v_end - removed + added) as usize,
                }),
    {
        let mut j: usize = from;
        while j < self.offsets.len()
            invariant
                from <= j,
                self@ == old(self)@,
                self.blob() == old(self).blob(),
                self.offsets.len() == old(self).offsets.len(),
                forall|k: int|
                    0 <= k < from && k < self.offsets.len() ==> self.offsets[k] == old(
                        self,
                    ).offsets[k],
                forall|k: int|
                    from <= k < j && k < self.offsets.len() ==> self.offsets[k] == (Span {
                        k_start: (old(self).offsets[k].k_start - removed + added) as usize,
                        k_end: (old(self).offsets[k].k_end - removed + added) as usize,
                        v_start: (old(self).offsets[k].v_start - removed + added) as usize,
                        v_end: (old(self).offsets[k].v_end - removed + added) as usize,
                    }),
                forall|k: int| j <= k < self.offsets.len() ==> self.offsets[k] == old(self).offsets[k],
                forall|k: int|
                    from <= k < old(self).spans().len() ==> removed <= (
                    #[trigger] old(self).spans()[k]).k_start && old(self).spans()[k].v_end
                        - removed + added <= usize::MAX && old(self).spans()[k].k_start <= old(
                        self,
                    ).spans()[k].k_end <= old(self).spans()[k].v_start <= old(
                        self,
                    ).spans()[k].v_end,
            decreases self.offsets.len() - j,
        {
            assert(old(self).spans()[j as int] == old(self).offsets[j as int]);
            let span = self.offsets[j];
            let moved = Span {
                k_start: span.k_start - removed + added,
                k_end: span.k_end - removed + added,
                v_start: span.v_start - removed + added,
                v_end: span.v_end - removed + added,
            };
            self.offsets.set(j, moved);
            j += 1;
        }
    }

    /// Removes the place of token `index` from the table and lowers the
    /// places behind it by the length of the text of that token.
    fn __remove_offset(&mut self, index: usize)
        requires
            index < old(self).spans().len(),
            old(self).spans().len() == old(self)@.len(),
            old(self).blob() == text_of_all(old(self)@.remove(index as int)),
            forall|i: int|
                0 <= i < old(self)@.len() ==> span_fits(
                    #[trigger] old(self).spans()[i],
                    old(self)@,
                    i,
                ),
            old(self).spans()[index as int].v_end + token_sep().len() <= usize::MAX,
        ensures
            final(self).wf(),
            final(self)@ == old(self)@.remove(index as int),
            final(self).blob() == old(self).blob(),
    {
        let ghost before = self@;
        let ghost after = before.remove(index as int);
        proof {
            lemma_text_remove(before, index as int);
            lemma_text_around(before, index as int);
            lemma_places_monotone(before, index as int, index as int);
        }
        let span = self.offsets[index];
        assert(span_fits(self.spans()[index as int], before, index as int));
        assert(token_sep().len() == 8);
        assert(text_of(before[index as int]).len() == span.v_end + 8 - span.k_start);
        let delta = (span.v_end + TOKEN_SEPARATOR_LENGTH) - span.k_start;
        self.offsets.remove(index);
        self.model = Ghost(after);
        let ghost middle = self.spans();
        assert forall|j: int| index <= j < self.spans().len() implies delta <= (
        #[trigger] self.spans()[j]).k_start && self.spans()[j].v_end - delta + 0 <= usize::MAX
            && self.spans()[j].k_start <= self.spans()[j].k_end <= self.spans()[j].v_start
            <= self.spans()[j].v_end by {
            assert(middle[j] == old(self).spans()[j + 1]);
            assert(span_fits(old(self).spans()[j + 1], before, j + 1));
            lemma_places_monotone(before, index as int + 1, j + 1);
        }
        self.shift_spans(index, delta, 0);
        assert forall|j: int| 0 <= j < self@.len() implies span_fits(
            #[trigger] self.spans()[j],
            self@,
            j,
        ) by {
            if j < index {
                assert(middle[j] == old(self).spans()[j]);
                assert(span_fits(old(self).spans()[j], before, j));
                assert(after[j] == before[j]);
                assert(place_of(after, j) == place_of(before, j));
            } else {
                assert(middle[j] == old(self).spans()[j + 1]);
                assert(span_fits(old(self).spans()[j + 1], before, j + 1));
                assert(after[j] == before[j + 1]);
                if j == index {
                    assert(place_of(after, j) == place_of(before, j));
                } else {
                    assert(place_of(after, j) == place_of(before, j + 1) - delta);
                }
            }
        }
    }

    /// Gives token `index` its new places and moves the places behind it by
    /// the difference of the lengths of the new value and the old one.
    fn __replace_offset(&mut self, index: usize, new: Span, Ghost(value): Ghost<Seq<char>>)
        requires
            index < old(self).spans().len(),
            old(self).spans().len() == old(self)@.len(),
            old(self).blob() == text_of_all(
                old(self)@.update(
                    index as int,
                    Token { value, ..old(self)@[index as int] },
                ),
            ),
            forall|i: int|
                0 <= i < old(self)@.len() ==> span_fits(
                    #[trigger] old(self).spans()[i],
                    old(self)@,
                    i,
                ),
            new == (Span {
                v_end: (old(self).spans()[index as int].v_start + value.len()) as usize,
                ..old(self).spans()[index as int]
            }),
            old(self).spans()[index as int].v_start + value.len() <= usize::MAX,
        ensures
            final(self).wf(),
            final(self)@ == old(self)@.update(
                index as int,
                Token { value, ..old(self)@[index as int] },
            ),
            final(self).blob() == old(self).blob(),
    {
        let ghost before = self@;
        let ghost token = Token { value, ..before[index as int] };
        let ghost after = before.update(index as int, token);
        proof {
            lemma_text_update(before, index as int, value);
            lemma_text_around(before, index as int);
        }
        let old_span = self.offsets[index];
        assert(span_fits(self.spans()[index as int], before, index as int));
        let removed = old_span.v_end - old_span.v_start;
        let added = new.v_end - new.v_start;
        self.offsets.set(index, new);
        self.model = Ghost(after);
        let ghost middle = self.spans();
        assert forall|j: int| index < j < self.spans().len() implies removed <= (
        #[trigger] self.spans()[j]).k_start && self.spans()[j].v_end - removed + added
            <= usize::MAX && self.spans()[j].k_start <= self.spans()[j].k_end
            <= self.spans()[j].v_start <= self.spans()[j].v_end by {
            assert(middle[j] == old(self).spans()[j]);
            assert(span_fits(old(self).spans()[j], before, j));
            lemma_places_monotone(before, index as int + 1, j);
            lemma_text_around(after, j);
            lemma_places_monotone(after, j + 1, j + 1);
            assert(place_of(after, j) == place_of(before, j) + added - removed);
            assert(text_of_all(after).len() == self.kv_string.len());
            assert(after[j] == before[j]);
        }
        assert(index < self.offsets.len());
        self.shift_spans(index + 1, removed, added);
        assert forall|j: int| 0 <= j < self@.len() implies span_fits(
            #[trigger] self.spans()[j],
            self@,
            j,
        ) by {
            assert(span_fits(old(self).spans()[j], before, j));
            if j < index {
                assert(middle[j] == old(self).spans()[j]);
                assert(after[j] == before[j]);
            } else if j == index {
                assert(self.spans()[j] == new);
                assert(middle_of(token) == middle_of(before[j]));
            } else {
                assert(middle[j] == old(self).spans()[j]);
                assert(after[j] == before[j]);
                assert(place_of(after, j) == place_of(before, j) + added - removed);
            }
        }
    }

    /// Appends a token of the key and the value to the end.
    fn __append_key_value(&mut self, key: &Vec<char>, value: &Vec<char>)
        requires
            old(self).wf(),
        ensures
            final(self).wf(),
            final(self)@ == old(self)@.push(Token { key: key@, value: value@, paired: true }),
    {
        let ghost before = self@;
        let ghost token = Token { key: key@, value: value@, paired: true };
        proof {
            lemma_text_push(before, token);
        }
        let kv = key_value_separator_chars();
        let tok = token_separator_chars();
        let k_start = self.kv_string.len();
        append_chars(&mut self.kv_string, key);
        let k_end = self.kv_string.len();
        append_chars(&mut self.kv_string, &kv);
        let v_start = self.kv_string.len();
        append_chars(&mut self.kv_string, value);
        let v_end = self.kv_string.len();
        append_chars(&mut self.kv_string, &tok);
        self.offsets.push(Span { k_start, k_end, v_start, v_end });
        self.model = Ghost(before.push(token));
        assert(self.blob() =~= text_of_all(before) + text_of(token));
        assert forall|j: int| 0 <= j < self@.len() implies span_fits(
            #[trigger] self.spans()[j],
            self@,
            j,
        ) by {
            if j < before.len() {
                assert(self.spans()[j] == old(self).spans()[j]);
                assert(span_fits(old(self).spans()[j], before, j));
                assert(self@[j] == before[j]);
            }
        }
    }

    /// Inserts a key-value pair: the first token with the key takes the
    /// value, in the place of the one that it had, and every token behind it
    /// moves by the difference of the two lengths; where no token has the
    /// key, a token of the key and the value goes to the end.
    ///
    /// The result is `Err` only where a place lies beyond the serialization,
    /// which a coherent container excludes.
    pub fn insert(&mut self, key: &str, value: &str) -> (result: Result<(), Error>)
        requires
            old(self).wf(),
        ensures
            final(self).wf(),
            final(self)@ == with_value(old(self)@, key@, value@),
            result is Ok,
    {
        let k = chars_of(key);
        let v = chars_of(value);
        let i = self.find_first(&k);
        if i < self.offsets.len() {
            proof {
                self.lemma_token_in_place(i as int);
                lemma_text_update(self@, i as int, value@);
            }
            let span = self.offsets[i];
            assert(span_fits(self.spans()[i as int], self@, i as int));
            match self.___replace_kv_string_section(span.v_start, span.v_end, &v) {
                Ok(_) => {},
                Err(_) => {
                    assert(false);
                },
            }
            let ghost after = self@.update(i as int, Token { value: value@, ..self@[i as int] });
            assert(self.blob() =~= text_of_all(after));
            proof {
                lemma_text_around(after, i as int);
                assert(span.v_start + v.len() + 8 <= self.kv_string.len());
            }
            self.__replace_offset(i, Span { v_end: span.v_start + v.len(), ..span }, Ghost(value@));
            return Ok(());
        }
        self.__append_key_value(&k, &v);
        Ok(())
    }

    /// Deletes the first token with the key: its text is cut out of the
    /// serialization, and every token behind it moves by the length of that
    /// text.
    ///
    /// Fails with `NotFoundError`, which names the key, where no token has
    /// the key; nothing is changed then.
    pub fn delete(&mut self, key: &str) -> (result: Result<(), Error>)
        requires
            old(self).wf(),
        ensures
            final(self).wf(),
            match result {
                Ok(_) => first_with(old(self)@, key@) < old(self)@.len() && final(self)@ == old(
                    self,
                )@.remove(first_with(old(self)@, key@)),
                Err(e) => first_with(old(self)@, key@) >= old(self)@.len() && final(self)@ == old(
                    self,
                )@ && final(self).blob() == old(self).blob() && e is NotFoundError
                    && e.data_view() == Some(key@),
            },
    {
        let k = chars_of(key);
        let i = self.find_first(&k);
        if i < self.offsets.len() {
            proof {
                self.lemma_token_in_place(i as int);
                lemma_text_remove(self@, i as int);
            }
            let span = self.offsets[i];
            assert(span_fits(self.spans()[i as int], self@, i as int));
            assert(token_sep().len() == 8);
            assert(span.v_end + 8 <= self.kv_string.len());
            let end = span.v_end + TOKEN_SEPARATOR_LENGTH;
            let nothing: Vec<char> = Vec::new();
            match self.___replace_kv_string_section(span.k_start, end, &nothing) {
                Ok(_) => {},
                Err(_) => {
                    assert(false);
                },
            }
            assert(self.blob() =~= text_of_all(self@.remove(i as int)));
            self.__remove_offset(i);
            return Ok(());
        }
        Err(Error::not_found(key))
    }

    /// The serialization of the container.
    pub fn to_string(&self) -> (text: String)
        ensures
            text@ == self.blob(),
    {
        string_of(&self.kv_string)
    }
}

/// A token with the key before which no token has the key is the first
/// with the key.
proof fn lemma_first_found(ts: Seq<Token>, key: Seq<char>, i: int)
    requires
        0 <= i < ts.len(),
        first_with(ts.take(i), key) == i,
        ts[i].key == key,
    ensures
        first_with(ts, key) == i,
    decreases ts.len() - i,
{
    let upto = ts.take(i + 1);
    assert(upto.drop_last() =~= ts.take(i));
    assert(upto.last() == ts[i]);
    assert(first_with(upto, key) == i);
    lemma_first_stays(ts, key, i, i + 1);
}

/// The first token with the key in a part of a run is the first in the
/// whole run.
proof fn lemma_first_stays(ts: Seq<Token>, key: Seq<char>, i: int, n: int)
    requires
        0 <= i < n <= ts.len(),
        first_with(ts.take(n), key) == i,
    ensures
        first_with(ts, key) == i,
    decreases ts.len() - n,
{
    if n < ts.len() {
        let upto = ts.take(n + 1);
        assert(upto.drop_last() =~= ts.take(n));
        lemma_first_stays(ts, key, i, n + 1);
    } else {
        assert(ts.take(n) =~= ts);
    }
}

impl Default for TokenizedString {
    /// An empty container.
    fn default() -> (t: TokenizedString)
        ensures
            t.wf(),
            t@ == Seq::<Token>::empty(),
    {
        TokenizedString::new()
    }
}

impl From<String> for TokenizedString {
    /// The container that holds the tokens of the content. A token without
    /// key-value separator is a key alone; any other token is cut at its
    /// first key-value separator into key and value.
    fn from(s: String) -> (t: TokenizedString)
        ensures
            t.wf(),
            t@ == tokens_from(s@),
    {
        let mut token_string = TokenizedString::new();
        let chars = chars_of(s.as_str());
        let toks = tokens_of(&chars);
        let kv = key_value_separator_chars();
        let tok = token_separator_chars();
        let mut n: usize = 0;
        assert(token_string@ =~= tokens_from(s@).take(0));
        while n < toks.len()
            invariant
                n <= toks.len(),
                kv@ == kv_sep(),
                tok@ == token_sep(),
                views(toks@) == tokens(s@),
                token_string.wf(),
                token_string@ == tokens_from(s@).take(n as int),
            decreases toks.len() - n,
        {
            let text = &toks[n];
            assert(views(toks@)[n as int] == text@);
            let ghost before = token_string@;
            let ghost token = token_from(text@);
            proof {
                lemma_text_push(before, token);
                lemma_token_text(text@);
            }
            // the key ends where the key-value separator first stands, or at the end of the token
            let m = kv.len();
            let mut at: usize = 0;
            let mut found = false;
            while !found && text.len() >= m && at <= text.len() - m
                invariant
                    m == kv.len(),
                    m == 7,
                    kv@ == kv_sep(),
                    at <= text.len(),
                    split(text@, kv_sep()) == split_scan(text@, kv_sep(), 0, at as int),
                    found ==> matches_at(text@, kv_sep(), at as int),
                decreases text.len() - at + if found { 0int } else { 1int },
            {
                if matches_at_chars(text, &kv, at) {
                    found = true;
                } else {
                    at += 1;
                }
            }
            let k_start = token_string.kv_string.len();
            append_chars(&mut token_string.kv_string, text);
            let v_end = token_string.kv_string.len();
            append_chars(&mut token_string.kv_string, &tok);
            assert(v_end == k_start + text.len());
            if found {
                assert(split(text@, kv_sep())[0] == text@.subrange(0, at as int));
                assert(split(text@, kv_sep()).len() >= 2);
                let k_end = k_start + at;
                let v_start = k_end + m;
                token_string.offsets.push(Span { k_start, k_end, v_start, v_end });
            } else {
                assert(split(text@, kv_sep()) == seq![text@.subrange(0, text@.len() as int)]);
                assert(text@.subrange(0, text@.len() as int) =~= text@);
                token_string.offsets.push(
                    Span { k_start, k_end: v_end, v_start: v_end, v_end },
                );
            }
            token_string.model = Ghost(before.push(token));
            assert(token_string.blob() =~= text_of_all(before) + text_of(token));
            assert(tokens_from(s@).take(n as int + 1) =~= before.push(token));
            assert forall|j: int| 0 <= j < token_string@.len() implies span_fits(
                #[trigger] token_string.spans()[j],
                token_string@,
                j,
            ) by {
                if j < before.len() {
                    assert(token_string@[j] == before[j]);
                }
            }
            n += 1;
        }
        assert(tokens_from(s@).take(toks.len() as int) =~= tokens_from(s@));
        token_string
    }
}

impl vstd::std_specs::convert::FromSpecImpl<String> for TokenizedString {
    open spec fn obeys_from_spec() -> bool {
        false
    }

    open spec fn from_spec(s: String) -> TokenizedString {
        arbitrary()
    }
}

/// The text of the token that a text stands for is the text with the token
/// separator behind it.
pub proof fn lemma_token_text(text: Seq<char>)
    ensures
        text_of(token_from(text)) == text + token_sep(),
        split(text, kv_sep()).len() >= 1,
{
    lemma_first_part(text, kv_sep(), 0);
    let parts = split(text, kv_sep());
    let key = parts[0];
    if parts.len() == 1 {
        assert(key + Seq::<char>::empty() + Seq::<char>::empty() =~= key);
    } else {
        let p = key.len() as int;
        assert(text.subrange(p, p + 7) == kv_sep());
        assert(text =~= key + kv_sep() + text.subrange(p + 7, text.len() as int));
    }
}

/// The first part of a text that is cut by a separator is the text before
/// the first place where the separator stands, or the whole text where the
/// separator stands nowhere; and there is a second part just where the
/// separator stands somewhere.
pub proof fn lemma_first_part(text: Seq<char>, sep: Seq<char>, at: int)
    requires
        sep.len() > 0,
        0 <= at,
        forall|p: int| 0 <= p < at ==> !matches_at(text, sep, p),
    ensures
        split_scan(text, sep, 0, at).len() >= 1,
        split_scan(text, sep, 0, at).len() == 1 ==> split_scan(text, sep, 0, at)[0] == text,
        split_scan(text, sep, 0, at).len() > 1 ==> ({
            let key = split_scan(text, sep, 0, at)[0];
            &&& key.len() + sep.len() <= text.len()
            &&& key == text.subrange(0, key.len() as int)
            &&& text.subrange(key.len() as int, (key.len() + sep.len()) as int) == sep
        }),
    decreases text.len() - at,
{
    if at + sep.len() > text.len() {
        assert(text.subrange(0, text.len() as int) =~= text);
    } else if matches_at(text, sep, at) {
        let first = text.subrange(0, at);
        let rest = split_scan(text, sep, at + sep.len(), at + sep.len());
        assert((seq![first] + rest)[0] == first);
        assert(first.subrange(0, at) =~= first);
        lemma_scan_not_empty(text, sep, at + sep.len(), at + sep.len());
    } else {
        lemma_first_part(text, sep, at + 1);
    }
}

/// A scan gives at least one part.
pub proof fn lemma_scan_not_empty(text: Seq<char>, sep: Seq<char>, start: int, at: int)
    ensures
        split_scan(text, sep, start, at).len() >= 1,
    decreases text.len() - at,
{
    if !(sep.len() == 0 || start < 0 || at < start || at + sep.len() > text.len()) {
        if matches_at(text, sep, at) {
            lemma_scan_not_empty(text, sep, at + sep.len(), at + sep.len());
        } else {
            lemma_scan_not_empty(text, sep, start, at + 1);
        }
    }
}

} // verus!
