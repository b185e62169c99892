//! Splitting text on a separator.
//!
//! A file of the database is a run of tokens, each followed by the token
//! separator. This module says what the tokens of a text are and computes
//! them.

use vstd::prelude::*;
use crate::constants::{token_sep, token_separator_chars};

verus! {

/// Whether `sep` stands in `s` at position `at`.
pub open spec fn matches_at(s: Seq<char>, sep: Seq<char>, at: int) -> bool {
    0 <= at && at + sep.len() <= s.len() && s.subrange(at, at + sep.len()) == sep
}

/// Whether `sep` stands nowhere in `s`.
pub open spec fn free_of(s: Seq<char>, sep: Seq<char>) -> bool {
    forall|at: int| !matches_at(s, sep, at)
}

/// The parts of `s` from position `start` on, where `s` has been searched for
/// `sep` up to position `at` and the part that began at `start` is still open.
pub open spec fn split_scan(s: Seq<char>, sep: Seq<char>, start: int, at: int) -> Seq<Seq<char>>
    decreases s.len() - at,
{
    if sep.len() == 0 || start < 0 || at < start || at + sep.len() > s.len() {
        seq![s.subrange(start, s.len() as int)]
    } else if matches_at(s, sep, at) {
        seq![s.subrange(start, at)] + split_scan(s, sep, at + sep.len(), at + sep.len())
    } else {
        split_scan(s, sep, start, at + 1)
    }
}

/// The parts that `s` falls into when it is cut at every place where `sep`
/// stands, searched from the left. A text without `sep` is one part; a text
/// that ends in `sep` has an empty last part.
pub open spec fn split(s: Seq<char>, sep: Seq<char>) -> Seq<Seq<char>> {
    split_scan(s, sep, 0, 0)
}

/// `s` without every `sep` that stands at its end.
pub open spec fn trim_end(s: Seq<char>, sep: Seq<char>) -> Seq<char>
    decreases s.len(),
{
    if sep.len() > 0 && s.len() >= sep.len() && s.subrange(s.len() - sep.len(), s.len() as int)
        == sep {
        trim_end(s.subrange(0, s.len() - sep.len()), sep)
    } else {
        s
    }
}

/// The tokens of a file's content: the token separators at the end are
/// dropped, and what is left is split on the token separator. A content that
/// holds nothing but token separators has no tokens.
pub open spec fn tokens(content: Seq<char>) -> Seq<Seq<char>> {
    let trimmed = trim_end(content, token_sep());
    if trimmed.len() == 0 {
        Seq::empty()
    } else {
        split(trimmed, token_sep())
    }
}

/// The character sequences that the vectors of `parts` hold.
pub open spec fn views(parts: Seq<Vec<char>>) -> Seq<Seq<char>> {
    Seq::new(parts.len(), |i: int| parts[i]@)
}

/// The character sequences that the strings of `items` hold.
pub open spec fn string_views(items: Seq<String>) -> Seq<Seq<char>> {
    Seq::new(items.len(), |i: int| items[i]@)
}

/// Whether `sep` stands in `s` at position `at`.
pub fn matches_at_chars(s: &Vec<char>, sep: &Vec<char>, at: usize) -> (r: bool)
    ensures
        r == matches_at(s@, sep@, at as int),
{
    let m = sep.len();
    if m > s.len() || at > s.len() - m {
        return false;
    }
    let mut j: usize = 0;
    while j < m
        invariant
            m == sep.len(),
            m <= s.len(),
            at <= s.len() - m,
            j <= m,
            forall|k: int| 0 <= k < j ==> s@[at + k] == sep@[k],
        decreases m - j,
    {
        if s[at + j] != sep[j] {
            assert(s@.subrange(at as int, at + m)[j as int] == s@[at + j]);
            return false;
        }
        j += 1;
    }
    assert(s@.subrange(at as int, at + m) =~= sep@);
    true
}

/// A copy of the characters `s[from..to]`.
pub fn copy_range(s: &Vec<char>, from: usize, to: usize) -> (v: Vec<char>)
    requires
        from <= to <= s.len(),
    ensures
        v@ == s@.subrange(from as int, to as int),
{
    let mut v: Vec<char> = Vec::new();
    let mut i: usize = from;
    while i < to
        invariant
            from <= i <= to <= s.len(),
            v@ == s@.subrange(from as int, i as int),
        decreases to - i,
    {
        v.push(s[i]);
        i += 1;
    }
    v
}

/// Cuts `s` at every place where `sep` stands.
pub fn split_chars(s: &Vec<char>, sep: &Vec<char>) -> (parts: Vec<Vec<char>>)
    requires
        sep.len() > 0,
    ensures
        views(parts@) == split(s@, sep@),
{
    let m = sep.len();
    let n = s.len();
    let mut parts: Vec<Vec<char>> = Vec::new();
    let mut start: usize = 0;
    let mut at: usize = 0;
    assert(views(parts@) + split_scan(s@, sep@, 0, 0) =~= split(s@, sep@));
    while m <= n && at <= n - m
        invariant
            m == sep.len(),
            n == s.len(),
            m > 0,
            start <= at <= n,
            split(s@, sep@) == views(parts@) + split_scan(s@, sep@, start as int, at as int),
        decreases n - at,
    {
        if matches_at_chars(s, sep, at) {
            let part = copy_range(s, start, at);
            let ghost before = views(parts@);
            parts.push(part);
            assert(views(parts@) =~= before + seq![s@.subrange(start as int, at as int)]);
            at = at + m;
            start = at;
        } else {
            at = at + 1;
        }
    }
    let part = copy_range(s, start, n);
    let ghost before = views(parts@);
    parts.push(part);
    assert(views(parts@) =~= before + seq![s@.subrange(start as int, n as int)]);
    parts
}

/// Drops every `sep` that stands at the end of `s`.
pub fn trim_end_chars(s: &mut Vec<char>, sep: &Vec<char>)
    ensures
        final(s)@ == trim_end(old(s)@, sep@),
{
    let m = sep.len();
    if m == 0 {
        return ;
    }
    while s.len() >= m && matches_at_chars(s, sep, s.len() - m)
        invariant
            m == sep.len(),
            m > 0,
            trim_end(s@, sep@) == trim_end(old(s)@, sep@),
        decreases s.len(),
    {
        let keep = s.len() - m;
        s.truncate(keep);
    }
}

/// The tokens of `content`.
pub fn tokens_of(content: &Vec<char>) -> (parts: Vec<Vec<char>>)
    ensures
        views(parts@) == tokens(content@),
{
    let sep = token_separator_chars();
    let mut trimmed = copy_range(content, 0, content.len());
    assert(trimmed@ =~= content@);
    trim_end_chars(&mut trimmed, &sep);
    if trimmed.len() == 0 {
        let parts: Vec<Vec<char>> = Vec::new();
        assert(views(parts@) =~= tokens(content@));
        parts
    } else {
        split_chars(&trimmed, &sep)
    }
}

/// The text of a run of tokens: every token followed by the token separator.
pub open spec fn join(ts: Seq<Seq<char>>) -> Seq<char>
    decreases ts.len(),
{
    if ts.len() == 0 {
        Seq::empty()
    } else {
        join(ts.drop_last()) + ts.last() + token_sep()
    }
}

/// Where token `i` begins in the text of the run.
pub open spec fn join_offset(ts: Seq<Seq<char>>, i: int) -> int {
    join(ts.take(i)).len() as int
}

/// The text of a run that is made of two runs is the two texts, one after the
/// other.
pub proof fn lemma_join_concat(a: Seq<Seq<char>>, b: Seq<Seq<char>>)
    ensures
        join(a + b) == join(a) + join(b),
    decreases b.len(),
{
    if b.len() == 0 {
        assert(a + b =~= a);
        assert(join(a) + join(b) =~= join(a));
    } else {
        lemma_join_concat(a, b.drop_last());
        assert((a + b).drop_last() =~= a + b.drop_last());
        assert((a + b).last() == b.last());
        assert(join(a + b) =~= join(a) + join(b));
    }
}

/// The text of a run of one token.
pub proof fn lemma_join_one(t: Seq<char>)
    ensures
        join(seq![t]) == t + token_sep(),
{
    assert(seq![t].drop_last() =~= Seq::<Seq<char>>::empty());
    assert(seq![t].last() == t);
    assert(join(Seq::<Seq<char>>::empty()) =~= Seq::<char>::empty());
    assert(join(seq![t]) =~= t + token_sep());
}

/// The text of a run is made of what stands before token `i`, token `i` with
/// its separator, and what stands after it.
pub proof fn lemma_join_around(ts: Seq<Seq<char>>, i: int)
    requires
        0 <= i < ts.len(),
    ensures
        join(ts) == join(ts.take(i)) + (ts[i] + token_sep()) + join(ts.skip(i + 1)),
        join_offset(ts, i + 1) == join_offset(ts, i) + ts[i].len() + token_sep().len(),
        join_offset(ts, i + 1) <= join(ts).len(),
        join(ts).subrange(join_offset(ts, i), join_offset(ts, i + 1)) == ts[i] + token_sep(),
        join(ts).subrange(0, join_offset(ts, i)) == join(ts.take(i)),
        join(ts).subrange(join_offset(ts, i + 1), join(ts).len() as int) == join(ts.skip(i + 1)),
{
    let before = ts.take(i);
    let after = ts.skip(i + 1);
    let one = seq![ts[i]];
    assert(ts =~= before + one + after);
    lemma_join_concat(before + one, after);
    lemma_join_concat(before, one);
    lemma_join_one(ts[i]);
    assert(ts.take(i + 1) =~= before + one);
    let s = join(ts);
    let a = join(before);
    let t = ts[i] + token_sep();
    let z = join(after);
    assert(s == a + t + z);
    assert(s.subrange(a.len() as int, (a.len() + t.len()) as int) =~= t);
    assert(s.subrange(0, a.len() as int) =~= a);
    assert(s.subrange((a.len() + t.len()) as int, s.len() as int) =~= z);
}

/// Offsets grow with the position.
pub proof fn lemma_join_offsets_monotone(ts: Seq<Seq<char>>, i: int, j: int)
    requires
        0 <= i <= j <= ts.len(),
    ensures
        join_offset(ts, i) <= join_offset(ts, j),
        join_offset(ts, j) <= join(ts).len(),
        join_offset(ts, ts.len() as int) == join(ts).len(),
{
    assert(ts.take(j) =~= ts.take(i) + ts.subrange(i, j));
    lemma_join_concat(ts.take(i), ts.subrange(i, j));
    assert(ts =~= ts.take(j) + ts.skip(j));
    lemma_join_concat(ts.take(j), ts.skip(j));
    assert(ts.take(ts.len() as int) =~= ts);
}

/// Removing token `i` cuts it and its separator out of the text and moves
/// every later token by the length of what was cut.
pub proof fn lemma_join_remove(ts: Seq<Seq<char>>, i: int)
    requires
        0 <= i < ts.len(),
    ensures
        ({
            let s = join(ts);
            let from = join_offset(ts, i);
            let to = from + ts[i].len() + token_sep().len();
            let after = ts.remove(i);
            &&& to <= s.len()
            &&& join(after) == s.subrange(0, from) + s.subrange(to, s.len() as int)
            &&& forall|j: int| 0 <= j <= i ==> join_offset(after, j) == join_offset(ts, j)
            &&& forall|j: int|
                i < j < ts.len() ==> join_offset(after, j) == join_offset(ts, j + 1) - ts[i].len()
                    - token_sep().len()
        }),
{
    let s = join(ts);
    let from = join_offset(ts, i);
    let to = from + ts[i].len() + token_sep().len();
    let after = ts.remove(i);
    lemma_join_around(ts, i);
    assert(after =~= ts.take(i) + ts.skip(i + 1));
    lemma_join_concat(ts.take(i), ts.skip(i + 1));
    assert(join(after) =~= s.subrange(0, from) + s.subrange(to, s.len() as int));
    assert forall|j: int| 0 <= j <= i implies join_offset(after, j) == join_offset(ts, j) by {
        assert(after.take(j) =~= ts.take(j));
    }
    assert forall|j: int| i < j < ts.len() implies join_offset(after, j) == join_offset(ts, j + 1)
        - ts[i].len() - token_sep().len() by {
        let tj = ts.take(j + 1);
        assert(after.take(j) =~= tj.remove(i));
        lemma_join_around(tj, i);
        assert(tj.remove(i) =~= tj.take(i) + tj.skip(i + 1));
        lemma_join_concat(tj.take(i), tj.skip(i + 1));
    }
}

/// Adding a token at the end adds it and its separator at the end of the
/// text and leaves every other token where it was.
pub proof fn lemma_join_push(ts: Seq<Seq<char>>, t: Seq<char>)
    ensures
        join(ts.push(t)) == join(ts) + t + token_sep(),
        forall|j: int| 0 <= j <= ts.len() ==> join_offset(ts.push(t), j) == join_offset(ts, j),
        join_offset(ts.push(t), ts.len() as int) == join(ts).len(),
{
    assert(ts.push(t).drop_last() =~= ts);
    assert forall|j: int| 0 <= j <= ts.len() implies join_offset(ts.push(t), j) == join_offset(
        ts,
        j,
    ) by {
        assert(ts.push(t).take(j) =~= ts.take(j));
    }
    assert(ts.take(ts.len() as int) =~= ts);
}

} // verus!
