//! Reading back what was written: the tokens of a serialization are the
//! tokens that were serialized, and the entries of a serialized container are
//! the entries of the container.

use vstd::prelude::*;
use crate::cky_map::CkyMap;
use crate::cky_vector::CkyVector;
use crate::constants::{kv_sep, token_sep};
use crate::entries::{
    distinct_keys, entries_of_tokens, has_key, parse_entries, position_of, serialize, upsert, Pair,
};
use crate::tokens::{
    free_of, join, lemma_join_concat, lemma_join_one, matches_at, split, split_scan, tokens,
    trim_end,
};
use crate::utils::all_pairs;

verus! {

/// The first character of the separator stands nowhere else in it.
pub open spec fn head_unique(sep: Seq<char>) -> bool {
    sep.len() > 0 && forall|j: int| 0 < j < sep.len() ==> #[trigger] sep[j] != sep[0]
}

/// The character stands nowhere in the text.
pub open spec fn lacks(s: Seq<char>, c: char) -> bool {
    forall|j: int| 0 <= j < s.len() ==> #[trigger] s[j] != c
}

/// In the text followed by the separator, the separator does not stand
/// before the end of the text.
pub open spec fn tight(t: Seq<char>, sep: Seq<char>) -> bool {
    forall|p: int| 0 <= p < t.len() ==> !matches_at(t + sep, sep, p)
}

/// Neither the key nor the value of any entry holds a separator.
pub open spec fn clean(entries: Seq<Pair>) -> bool {
    forall|i: int|
        0 <= i < entries.len() ==> {
            &&& free_of((#[trigger] entries[i]).key, kv_sep())
            &&& free_of(entries[i].key, token_sep())
            &&& free_of(entries[i].value, kv_sep())
            &&& free_of(entries[i].value, token_sep())
        }
}

/// The text of an entry without the token separator.
pub open spec fn body_of(e: Pair) -> Seq<char> {
    e.key + kv_sep() + e.value
}

/// The texts of the entries without their token separators.
pub open spec fn bodies(entries: Seq<Pair>) -> Seq<Seq<char>> {
    Seq::new(entries.len(), |i: int| body_of(entries[i]))
}

/// What the two separators are made of: the first character of each stands
/// nowhere else in it and nowhere in the other.
pub proof fn lemma_separator_shapes()
    ensures
        head_unique(token_sep()),
        head_unique(kv_sep()),
        lacks(token_sep(), kv_sep()[0]),
        lacks(kv_sep(), token_sep()[0]),
        token_sep().len() == 8,
        kv_sep().len() == 7,
{
    let t = token_sep();
    let k = kv_sep();
    assert(t[0] == '$' && t[1] == '%' && t[2] == '#' && t[3] == '@' && t[4] == '*' && t[5] == '&'
        && t[6] == '^' && t[7] == '&');
    assert(k[0] == '>' && k[1] == '<' && k[2] == '?' && k[3] == '&' && k[4] == '(' && k[5] == '^'
        && k[6] == '#');
}

/// Where a separator stands in a text, its characters are those of the
/// text.
pub proof fn lemma_match_chars(s: Seq<char>, sep: Seq<char>, p: int, j: int)
    requires
        matches_at(s, sep, p),
        0 <= j < sep.len(),
    ensures
        s[p + j] == sep[j],
{
    assert(s.subrange(p, p + sep.len())[j] == s[p + j]);
}

/// A separator stands in the second of two joined texts where it stands in
/// the whole, moved by the length of the first.
pub proof fn lemma_match_shift(a: Seq<char>, b: Seq<char>, sep: Seq<char>, q: int)
    requires
        0 <= q,
    ensures
        matches_at(a + b, sep, a.len() + q) == matches_at(b, sep, q),
{
    if q + sep.len() <= b.len() {
        assert((a + b).subrange(a.len() + q, a.len() + q + sep.len()) =~= b.subrange(
            q,
            q + sep.len(),
        ));
    }
}

/// A separator that stands in the first of two joined texts stands in the
/// whole, and one that stands in the whole before the end of the first, and
/// ends there too, stands in the first.
pub proof fn lemma_match_prefix(a: Seq<char>, b: Seq<char>, sep: Seq<char>, p: int)
    requires
        0 <= p,
        p + sep.len() <= a.len(),
    ensures
        matches_at(a + b, sep, p) == matches_at(a, sep, p),
{
    assert((a + b).subrange(p, p + sep.len()) =~= a.subrange(p, p + sep.len()));
}

/// A text that is free of a separator whose first character stands nowhere
/// else in it is tight.
pub proof fn lemma_tight_from_free(t: Seq<char>, sep: Seq<char>)
    requires
        free_of(t, sep),
        head_unique(sep),
    ensures
        tight(t, sep),
{
    assert forall|p: int| 0 <= p < t.len() implies !matches_at(t + sep, sep, p) by {
        if matches_at(t + sep, sep, p) {
            if p + sep.len() <= t.len() {
                lemma_match_prefix(t, sep, sep, p);
                assert(matches_at(t, sep, p));
            } else {
                let j = t.len() - p;
                lemma_match_chars(t + sep, sep, p, j);
                assert((t + sep)[t.len() as int] == sep[0]);
            }
        }
    }
}

/// A tight text is free of the separator.
pub proof fn lemma_free_from_tight(t: Seq<char>, sep: Seq<char>)
    requires
        tight(t, sep),
        sep.len() > 0,
    ensures
        free_of(t, sep),
{
    assert forall|p: int| !matches_at(t, sep, p) by {
        if matches_at(t, sep, p) {
            lemma_match_prefix(t, sep, sep, p);
            assert(matches_at(t + sep, sep, p));
        }
    }
}

/// The body of an entry with clean key and value is tight for the token
/// separator.
pub proof fn lemma_body_tight(e: Pair)
    requires
        free_of(e.key, token_sep()),
        free_of(e.value, token_sep()),
    ensures
        tight(body_of(e), token_sep()),
        body_of(e).len() > 0,
{
    lemma_separator_shapes();
    let tok = token_sep();
    let kv = kv_sep();
    let b = body_of(e);
    let s = b + tok;
    let kl = e.key.len() as int;
    lemma_tight_from_free(e.value, tok);
    assert forall|p: int| 0 <= p < b.len() implies !matches_at(s, tok, p) by {
        if matches_at(s, tok, p) {
            if p >= kl + 7 {
                assert(s =~= (e.key + kv) + (e.value + tok));
                lemma_match_shift(e.key + kv, e.value + tok, tok, p - kl - 7);
                assert(matches_at(e.value + tok, tok, p - kl - 7));
            } else if p >= kl {
                lemma_match_chars(s, tok, p, 0);
                assert(s[p] == kv[p - kl]);
            } else if p + 8 <= kl {
                assert(s =~= e.key + (kv + e.value + tok));
                lemma_match_prefix(e.key, kv + e.value + tok, tok, p);
                assert(matches_at(e.key, tok, p));
            } else {
                let j = kl - p;
                lemma_match_chars(s, tok, p, j);
                assert(s[kl] == kv[0]);
            }
        }
    }
}

/// A stretch of a text in which the separator does not stand is passed over
/// by the scan.
pub proof fn lemma_scan_skip(s: Seq<char>, sep: Seq<char>, start: int, at: int, to: int)
    requires
        sep.len() > 0,
        0 <= start <= at <= to,
        to + sep.len() <= s.len(),
        forall|p: int| at <= p < to ==> !matches_at(s, sep, p),
    ensures
        split_scan(s, sep, start, at) == split_scan(s, sep, start, to),
    decreases to - at,
{
    if at < to {
        lemma_scan_skip(s, sep, start, at + 1, to);
    }
}

/// A text in which the separator stands nowhere from `at` on is one part.
pub proof fn lemma_scan_rest(s: Seq<char>, sep: Seq<char>, start: int, at: int)
    requires
        sep.len() > 0,
        0 <= start <= at,
        forall|p: int| at <= p ==> !matches_at(s, sep, p),
    ensures
        split_scan(s, sep, start, at) == seq![s.subrange(start, s.len() as int)],
    decreases s.len() - at,
{
    if at + sep.len() <= s.len() {
        lemma_scan_rest(s, sep, start, at + 1);
    }
}

/// The scan of the second of two joined texts is the scan of the whole from
/// the end of the first.
pub proof fn lemma_scan_shift(a: Seq<char>, b: Seq<char>, sep: Seq<char>, start: int, at: int)
    requires
        sep.len() > 0,
        0 <= start <= at <= b.len(),
    ensures
        split_scan(a + b, sep, a.len() + start, a.len() + at) == split_scan(b, sep, start, at),
    decreases b.len() - at,
{
    let s = a + b;
    let n = a.len() as int;
    if at + sep.len() > b.len() {
        assert(s.subrange(n + start, s.len() as int) =~= b.subrange(start, b.len() as int));
    } else {
        lemma_match_shift(a, b, sep, at);
        if matches_at(b, sep, at) {
            assert(s.subrange(n + start, n + at) =~= b.subrange(start, at));
            lemma_scan_shift(a, b, sep, at + sep.len(), at + sep.len());
        } else {
            lemma_scan_shift(a, b, sep, start, at + 1);
        }
    }
}

/// A text that is free of the separator is one part.
pub proof fn lemma_split_none(t: Seq<char>, sep: Seq<char>)
    requires
        sep.len() > 0,
        free_of(t, sep),
    ensures
        split(t, sep) == seq![t],
{
    lemma_scan_rest(t, sep, 0, 0);
    assert(t.subrange(0, t.len() as int) =~= t);
}

/// A tight text, the separator and a rest fall into the text and the parts
/// of the rest.
pub proof fn lemma_split_first(t: Seq<char>, rest: Seq<char>, sep: Seq<char>)
    requires
        sep.len() > 0,
        tight(t, sep),
    ensures
        split(t + sep + rest, sep) == seq![t] + split(rest, sep),
{
    let s = t + sep + rest;
    let n = t.len() as int;
    let m = sep.len() as int;
    assert forall|p: int| 0 <= p < n implies !matches_at(s, sep, p) by {
        if matches_at(s, sep, p) {
            assert(p + m <= n + m);
            lemma_match_prefix(t + sep, rest, sep, p);
            assert(matches_at(t + sep, sep, p));
        }
    }
    lemma_scan_skip(s, sep, 0, 0, n);
    assert(s.subrange(n, n + m) =~= sep);
    assert(matches_at(s, sep, n));
    assert(s.subrange(0, n) =~= t);
    lemma_scan_shift(t + sep, rest, sep, 0, 0);
}

/// The text of a run of tokens without the separator of the last one.
pub open spec fn join_bare(ts: Seq<Seq<char>>) -> Seq<char> {
    join(ts.drop_last()) + ts.last()
}

/// The text of a run of tokens begins with the first token and its
/// separator.
pub proof fn lemma_join_front(ts: Seq<Seq<char>>)
    requires
        ts.len() > 0,
    ensures
        join(ts) == ts[0] + token_sep() + join(ts.drop_first()),
        ts.len() >= 2 ==> join_bare(ts) == ts[0] + token_sep() + join_bare(ts.drop_first()),
{
    assert(ts =~= seq![ts[0]] + ts.drop_first());
    lemma_join_concat(seq![ts[0]], ts.drop_first());
    lemma_join_one(ts[0]);
    if ts.len() >= 2 {
        let front = ts.drop_last();
        assert(front =~= seq![ts[0]] + front.drop_first());
        lemma_join_concat(seq![ts[0]], front.drop_first());
        assert(front.drop_first() =~= ts.drop_first().drop_last());
        assert(ts.drop_first().last() == ts.last());
        assert(join_bare(ts) =~= ts[0] + token_sep() + join_bare(ts.drop_first()));
    }
}

/// A run of tight tokens, joined without the separator of the last one,
/// falls into its tokens.
pub proof fn lemma_split_join_bare(ts: Seq<Seq<char>>)
    requires
        ts.len() > 0,
        forall|i: int| 0 <= i < ts.len() ==> tight(#[trigger] ts[i], token_sep()),
    ensures
        split(join_bare(ts), token_sep()) == ts,
    decreases ts.len(),
{
    lemma_separator_shapes();
    if ts.len() == 1 {
        assert(ts.drop_last() =~= Seq::<Seq<char>>::empty());
        assert(join_bare(ts) =~= ts[0]);
        lemma_free_from_tight(ts[0], token_sep());
        lemma_split_none(ts[0], token_sep());
        assert(ts =~= seq![ts[0]]);
    } else {
        lemma_join_front(ts);
        let rest = ts.drop_first();
        assert forall|i: int| 0 <= i < rest.len() implies tight(#[trigger] rest[i], token_sep()) by {
            assert(rest[i] == ts[i + 1]);
        }
        lemma_split_join_bare(rest);
        lemma_split_first(ts[0], join_bare(rest), token_sep());
        assert(seq![ts[0]] + rest =~= ts);
    }
}

/// The text of a run of tokens is empty or ends with the token separator.
pub proof fn lemma_join_ends(ts: Seq<Seq<char>>)
    ensures
        ts.len() == 0 ==> join(ts).len() == 0,
        ts.len() > 0 ==> join(ts).len() >= token_sep().len() && join(ts).subrange(
            join(ts).len() - token_sep().len(),
            join(ts).len() as int,
        ) == token_sep(),
{
    if ts.len() > 0 {
        let s = join(ts);
        let m = token_sep().len();
        assert(s == join(ts.drop_last()) + ts.last() + token_sep());
        assert(s.subrange(s.len() - m, s.len() as int) =~= token_sep());
    }
}

/// Behind a text that is empty or ends with the separator, a text that is
/// not empty and free of the separator does not end with it.
pub proof fn lemma_no_trailing_separator(x: Seq<char>, t: Seq<char>, sep: Seq<char>)
    requires
        head_unique(sep),
        free_of(t, sep),
        t.len() > 0,
        x.len() == 0 || (x.len() >= sep.len() && x.subrange(x.len() - sep.len(), x.len() as int)
            == sep),
    ensures
        trim_end(x + t, sep) == x + t,
{
    let s = x + t;
    let m = sep.len() as int;
    if s.len() >= m && s.subrange(s.len() - m, s.len() as int) == sep {
        let p = s.len() - m;
        assert(matches_at(s, sep, p));
        if t.len() >= m {
            lemma_match_shift(x, t, sep, p - x.len());
            assert(matches_at(t, sep, p - x.len()));
        } else {
            // the match begins in `x`, behind the first character of the separator that ends `x`
            let j = m - t.len();
            lemma_match_chars(s, sep, p, 0);
            assert(s[p] == x[p]);
            assert(x.subrange(x.len() - m, x.len() as int)[t.len() as int] == x[p]);
            assert(x[p] == sep[t.len() as int]);
        }
    }
}

/// The tokens of the text of a run of tokens are the tokens of the run,
/// where every token is tight and the last one is not empty.
pub proof fn lemma_tokens_of_join(ts: Seq<Seq<char>>)
    requires
        forall|i: int| 0 <= i < ts.len() ==> tight(#[trigger] ts[i], token_sep()),
        ts.len() > 0 ==> ts.last().len() > 0,
    ensures
        tokens(join(ts)) == ts,
{
    lemma_separator_shapes();
    let tok = token_sep();
    if ts.len() == 0 {
        assert(join(ts) =~= Seq::<char>::empty());
        assert(trim_end(join(ts), tok) =~= Seq::<char>::empty());
        assert(tokens(join(ts)) =~= ts);
    } else {
        let s = join(ts);
        let bare = join_bare(ts);
        assert(s =~= bare + tok);
        assert(s.subrange(s.len() - tok.len(), s.len() as int) =~= tok);
        assert(s.subrange(0, s.len() - tok.len()) =~= bare);
        assert(trim_end(s, tok) == trim_end(bare, tok));
        lemma_join_ends(ts.drop_last());
        lemma_free_from_tight(ts.last(), tok);
        lemma_no_trailing_separator(join(ts.drop_last()), ts.last(), tok);
        assert(trim_end(bare, tok) == bare);
        assert(bare.len() > 0);
        lemma_split_join_bare(ts);
    }
}

/// The tokens of a run of items, written one after the other with their
/// separators, are the items, where no item holds the token separator and
/// the last one is not empty.
pub proof fn lemma_tokens_of_items(items: Seq<Seq<char>>)
    requires
        forall|i: int| 0 <= i < items.len() ==> free_of(#[trigger] items[i], token_sep()),
        items.len() > 0 ==> items.last().len() > 0,
    ensures
        tokens(join(items)) == items,
{
    lemma_separator_shapes();
    assert forall|i: int| 0 <= i < items.len() implies tight(#[trigger] items[i], token_sep()) by {
        lemma_tight_from_free(items[i], token_sep());
    }
    lemma_tokens_of_join(items);
}

/// The serialization of a run of entries is the text of their bodies as
/// tokens.
pub proof fn lemma_serialize_is_join(entries: Seq<Pair>)
    ensures
        serialize(entries) == join(bodies(entries)),
    decreases entries.len(),
{
    if entries.len() == 0 {
        assert(bodies(entries) =~= Seq::<Seq<char>>::empty());
    } else {
        lemma_serialize_is_join(entries.drop_last());
        assert(bodies(entries).drop_last() =~= bodies(entries.drop_last()));
        assert(bodies(entries).last() == body_of(entries.last()));
        assert(serialize(entries) =~= join(bodies(entries)));
    }
}

/// The body of an entry with clean key and value is cut by the key-value
/// separator into the key and the value.
pub proof fn lemma_split_body(e: Pair)
    requires
        free_of(e.key, kv_sep()),
        free_of(e.value, kv_sep()),
    ensures
        split(body_of(e), kv_sep()) == seq![e.key, e.value],
{
    lemma_separator_shapes();
    lemma_tight_from_free(e.key, kv_sep());
    lemma_split_first(e.key, e.value, kv_sep());
    lemma_split_none(e.value, kv_sep());
}

/// The entries of the bodies of a run of clean entries with distinct keys
/// are the entries of the run.
pub proof fn lemma_entries_of_bodies(entries: Seq<Pair>)
    requires
        distinct_keys(entries),
        clean(entries),
    ensures
        entries_of_tokens(bodies(entries)) == entries,
    decreases entries.len(),
{
    if entries.len() == 0 {
        assert(bodies(entries) =~= Seq::<Seq<char>>::empty());
        assert(entries =~= Seq::<Pair>::empty());
    } else {
        let front = entries.drop_last();
        let e = entries.last();
        assert forall|i: int, j: int| 0 <= i < j < front.len() implies (#[trigger] front[i]).key != (
        #[trigger] front[j]).key by {
            assert(front[i] == entries[i] && front[j] == entries[j]);
        }
        assert forall|i: int| 0 <= i < front.len() implies {
            &&& free_of((#[trigger] front[i]).key, kv_sep())
            &&& free_of(front[i].key, token_sep())
            &&& free_of(front[i].value, kv_sep())
            &&& free_of(front[i].value, token_sep())
        } by {
            assert(front[i] == entries[i]);
        }
        lemma_entries_of_bodies(front);
        assert(bodies(entries).drop_last() =~= bodies(front));
        assert(bodies(entries).last() == body_of(e));
        lemma_split_body(e);
        assert(!has_key(front, e.key)) by {
            if has_key(front, e.key) {
                let i = position_of(front, e.key);
                assert(front[i] == entries[i]);
                assert(entries[i].key != entries[entries.len() - 1].key);
            }
        }
        assert(upsert(front, e.key, e.value) =~= entries);
    }
}

/// Reading back a serialization: the entries that the serialization of a
/// run of clean entries with distinct keys stands for are the entries of the
/// run.
pub proof fn lemma_parse_serialize(entries: Seq<Pair>)
    requires
        distinct_keys(entries),
        clean(entries),
    ensures
        parse_entries(serialize(entries)) == entries,
{
    lemma_serialize_is_join(entries);
    let ts = bodies(entries);
    assert forall|i: int| 0 <= i < ts.len() implies tight(#[trigger] ts[i], token_sep()) by {
        lemma_body_tight(entries[i]);
    }
    if ts.len() > 0 {
        lemma_body_tight(entries.last());
    }
    lemma_tokens_of_join(ts);
    lemma_entries_of_bodies(entries);
}

/// The tokens of the serialization of clean entries are the bodies of the
/// entries, and each of them is a key-value pair.
pub proof fn lemma_tokens_of_serialization(entries: Seq<Pair>)
    requires
        clean(entries),
    ensures
        tokens(serialize(entries)) == bodies(entries),
        all_pairs(tokens(serialize(entries))),
{
    lemma_serialize_is_join(entries);
    let ts = bodies(entries);
    assert forall|i: int| 0 <= i < ts.len() implies tight(
        #[trigger] ts[i],
        token_sep(),
    ) by {
        lemma_body_tight(entries[i]);
    }
    if ts.len() > 0 {
        lemma_body_tight(entries.last());
    }
    lemma_tokens_of_join(ts);
    assert forall|i: int| 0 <= i < ts.len() implies (#[trigger] split(
        ts[i],
        kv_sep(),
    )).len() == 2 by {
        lemma_split_body(entries[i]);
    }
}

/// A tokenized mapping that is reloaded from its own serialization is what
/// it was: the entries, the mapping, the serialization and the offsets are
/// the same. This holds where no key and no value holds a separator.
pub proof fn lemma_map_reload_is_identity(container: CkyMap, reloaded: CkyMap)
    requires
        container.wf(),
        clean(container.entries()),
        reloaded.wf(),
        reloaded.entries() == parse_entries(container.blob()),
    ensures
        reloaded.entries() == container.entries(),
        reloaded@ == container@,
        reloaded.blob() == container.blob(),
        reloaded.offset_table() == container.offset_table(),
{
    lemma_parse_serialize(container.entries());
    assert(reloaded.offset_table() =~= container.offset_table());
}

/// A tokenized sequence that is reloaded from its own serialization is what
/// it was: the items, the serialization and the offsets are the same. This
/// holds where no item holds the token separator and the last item is not
/// empty.
pub proof fn lemma_vector_reload_is_identity(container: CkyVector, reloaded: CkyVector)
    requires
        container.wf(),
        forall|i: int| 0 <= i < container@.len() ==> free_of(#[trigger] container@[i], token_sep()),
        container@.len() > 0 ==> container@.last().len() > 0,
        reloaded.wf(),
        reloaded@ == tokens(container.blob()),
    ensures
        reloaded@ == container@,
        reloaded.blob() == container.blob(),
        reloaded.offset_table() == container.offset_table(),
{
    lemma_tokens_of_items(container@);
    assert(reloaded.offset_table() =~= container.offset_table());
}

} // verus!
