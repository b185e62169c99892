//! The order of the segments: the ranges of timestamped keys between the
//! names of neighbouring segments, and what sorting does to them.

use vstd::prelude::*;
use crate::cache::in_range;
use crate::model::{
    cache_covers, in_memtable, insert_sorted, range_from, rolled, segment_range, StoreState,
};
use crate::text::{lemma_lex_strict, lex_le, lex_lt};

verus! {

/// The segments of the store are in order: every data file comes before the
/// active log, and so does every key that the cached page covers.
pub open spec fn ordered(s: StoreState) -> bool {
    &&& forall|i: int|
        0 <= i < s.data_files.len() ==> lex_lt(#[trigger] s.data_files[i], s.current_log_file)
    &&& forall|k: Seq<char>|
        #[trigger] in_range(s.cache_start, s.cache_end, k) ==> lex_lt(k, s.current_log_file)
}

/// A range that is found for a key holds the key.
pub proof fn lemma_range_holds_key(timestamps: Seq<Seq<char>>, tk: Seq<char>, i: int)
    requires
        0 <= i,
        range_from(timestamps, tk, i) is Some,
    ensures
        in_range(
            range_from(timestamps, tk, i).unwrap().0,
            range_from(timestamps, tk, i).unwrap().1,
            tk,
        ),
        exists|j: int|
            i <= j < timestamps.len() - 1 && range_from(timestamps, tk, i) == Some(
                (#[trigger] timestamps[j], timestamps[j + 1]),
            ),
    decreases timestamps.len() - i,
{
    if i + 1 < timestamps.len() {
        if in_range(timestamps[i], timestamps[i + 1], tk) {
            assert(range_from(timestamps, tk, i) == Some((timestamps[i], timestamps[i + 1])));
        } else {
            lemma_range_holds_key(timestamps, tk, i + 1);
        }
    }
}

/// The search for a range passes over neighbours between which the key does
/// not lie.
pub proof fn lemma_range_skip(timestamps: Seq<Seq<char>>, tk: Seq<char>, i: int, j: int)
    requires
        0 <= i <= j,
        forall|k: int|
            i <= k < j && k + 1 < timestamps.len() ==> !in_range(
                #[trigger] timestamps[k],
                timestamps[k + 1],
                tk,
            ),
    ensures
        range_from(timestamps, tk, i) == range_from(timestamps, tk, j),
    decreases j - i,
{
    if i < j {
        lemma_range_skip(timestamps, tk, i + 1, j);
    }
}

/// One more timestamp at the end, which does not make a range for the key
/// with the last one, changes nothing in the search for the range of the key.
pub proof fn lemma_range_extend(
    timestamps: Seq<Seq<char>>,
    extra: Seq<char>,
    tk: Seq<char>,
    i: int,
)
    requires
        0 <= i,
        timestamps.len() > 0,
        !in_range(timestamps.last(), extra, tk),
    ensures
        range_from(timestamps.push(extra), tk, i) == range_from(timestamps, tk, i),
    decreases timestamps.len() - i,
{
    let more = timestamps.push(extra);
    if i + 1 < timestamps.len() {
        assert(more[i] == timestamps[i] && more[i + 1] == timestamps[i + 1]);
        lemma_range_extend(timestamps, extra, tk, i + 1);
    } else if i + 1 == timestamps.len() {
        assert(more[i] == timestamps.last() && more[i + 1] == extra);
        assert(range_from(more, tk, i + 1) is None);
    }
}

/// Every name comes strictly before those behind it.
pub open spec fn strictly_sorted(names: Seq<Seq<char>>) -> bool {
    forall|i: int, j: int| 0 <= i < j < names.len() ==> lex_lt(#[trigger] names[i], #[trigger] names[j])
}

/// Among sorted timestamps, a key lies between one pair of neighbours
/// only.
pub proof fn lemma_range_unique(timestamps: Seq<Seq<char>>, tk: Seq<char>, j: int)
    requires
        strictly_sorted(timestamps),
        0 <= j,
        j + 1 < timestamps.len(),
        in_range(timestamps[j], timestamps[j + 1], tk),
    ensures
        range_from(timestamps, tk, 0) == Some((timestamps[j], timestamps[j + 1])),
{
    assert forall|k: int| 0 <= k < j && k + 1 < timestamps.len() implies !in_range(
        #[trigger] timestamps[k],
        timestamps[k + 1],
        tk,
    ) by {
        if k + 1 < j {
            assert(lex_lt(timestamps[k + 1], timestamps[j]));
            lemma_lex_strict(timestamps[k + 1], timestamps[j], tk);
            lemma_lex_strict(tk, timestamps[k + 1], tk);
        }
    }
    lemma_range_skip(timestamps, tk, 0, j);
}

/// A name that comes behind every sorted name goes to their end.
pub proof fn lemma_insert_behind(names: Seq<Seq<char>>, name: Seq<char>)
    requires
        forall|i: int| 0 <= i < names.len() ==> lex_lt(#[trigger] names[i], name),
    ensures
        insert_sorted(names, name) == names.push(name),
{
    if names.len() > 0 {
        lemma_lex_strict(names.last(), name, name);
    } else {
        assert(names.push(name) =~= seq![name]);
    }
}

/// Putting a name into sorted names gives one name more.
pub proof fn lemma_insert_sorted_len(names: Seq<Seq<char>>, name: Seq<char>)
    ensures
        insert_sorted(names, name).len() == names.len() + 1,
    decreases names.len(),
{
    if names.len() > 0 && !lex_le(names.last(), name) {
        lemma_insert_sorted_len(names.drop_last(), name);
    }
}

/// After a roll, the segment of a key that lived in the memtable, and that
/// comes before the new log, is the old log.
pub proof fn lemma_range_after_roll(s: StoreState, tk: Seq<char>, later: Seq<char>)
    requires
        ordered(s),
        in_memtable(s, tk),
        lex_lt(tk, later),
    ensures
        !in_memtable(rolled(s, later), tk),
        !cache_covers(rolled(s, later), tk),
        segment_range(rolled(s, later), tk) == Some((s.current_log_file, later)),
{
    let cur = s.current_log_file;
    let after = rolled(s, later);
    lemma_insert_behind(s.data_files, cur);
    let ts = after.data_files.push(later);
    let n = s.data_files.len() as int;
    assert(ts[n] == cur && ts[n + 1] == later);
    if cache_covers(s, tk) {
        lemma_lex_strict(tk, cur, tk);
    }
    assert forall|k: int| 0 <= k < n && k + 1 < ts.len() implies !in_range(
        #[trigger] ts[k],
        ts[k + 1],
        tk,
    ) by {
        if k + 1 < n {
            assert(ts[k + 1] == s.data_files[k + 1]);
            lemma_lex_strict(ts[k + 1], cur, tk);
            lemma_lex_strict(tk, ts[k + 1], tk);
        } else {
            assert(ts[k + 1] == cur);
        }
    }
    lemma_range_skip(ts, tk, 0, n);
    assert(in_range(cur, later, tk));
    assert(range_from(ts, tk, n) == Some((cur, later)));
}

} // verus!
