//! Reading the text of the database files: tokens, key-value pairs, the
//! removal of keys from a content, and file names.

use vstd::prelude::*;
use std::time::{Duration, SystemTime, SystemTimeError};
use crate::cky_map::CkyMap;
use crate::constants::{key_value_separator_chars, kv_sep, token_sep, token_separator_chars};
use crate::entries::{entries_of_tokens, parse_entries};
use crate::errors::Error;
use crate::text::{
    append_chars, chars_of, decimal, decimal_string, is_prefix_of, str_eq, string_of, substring,
};
use crate::tokens::{
    join, matches_at_chars, split, split_chars, string_views, tokens, tokens_of, views,
};

verus! {

/// Whether one of the prefixes stands at the beginning of the phrase.
pub open spec fn has_any_prefix(phrase: Seq<char>, prefixes: Seq<Seq<char>>) -> bool {
    exists|i: int| 0 <= i < prefixes.len() && is_prefix_of(#[trigger] prefixes[i], phrase)
}

/// For every key, the text with which a token of that key begins: the key
/// and the key-value separator.
pub open spec fn key_prefixes(keys: Seq<Seq<char>>) -> Seq<Seq<char>> {
    Seq::new(keys.len(), |i: int| keys[i] + kv_sep())
}

/// The tokens that begin with none of the prefixes, in their order.
pub open spec fn surviving(ts: Seq<Seq<char>>, prefixes: Seq<Seq<char>>) -> Seq<Seq<char>>
    decreases ts.len(),
{
    if ts.len() == 0 {
        Seq::empty()
    } else {
        let rest = surviving(ts.drop_last(), prefixes);
        if has_any_prefix(ts.last(), prefixes) {
            rest
        } else {
            rest.push(ts.last())
        }
    }
}

/// The content without the tokens of the given keys: the tokens that are
/// left, each followed by the token separator.
pub open spec fn without_keys(content: Seq<char>, keys: Seq<Seq<char>>) -> Seq<char> {
    join(surviving(tokens(content), key_prefixes(keys)))
}

/// Every token of the content is cut by the key-value separator into exactly
/// two parts.
pub open spec fn all_pairs(ts: Seq<Seq<char>>) -> bool {
    forall|i: int| 0 <= i < ts.len() ==> (#[trigger] split(ts[i], kv_sep())).len() == 2
}

/// Extracts the tokens of a content.
pub fn extract_tokens_from_str(content: &str) -> (items: Vec<String>)
    ensures
        string_views(items@) == tokens(content@),
{
    let chars = chars_of(content);
    let toks = tokens_of(&chars);
    let mut items: Vec<String> = Vec::new();
    let mut t: usize = 0;
    while t < toks.len()
        invariant
            t <= toks.len(),
            items.len() == t,
            forall|j: int| 0 <= j < t ==> (#[trigger] items[j])@ == toks[j]@,
        decreases toks.len() - t,
    {
        items.push(string_of(&toks[t]));
        t += 1;
    }
    assert(string_views(items@) =~= views(toks@));
    items
}

/// Extracts the key-value pairs of a content. Of two tokens with one key the
/// later gives the value.
///
/// Fails with `CorruptedDataError` where some token is not cut by the
/// key-value separator into exactly two parts.
pub fn extract_key_values_from_str(content: &str) -> (result: Result<CkyMap, Error>)
    ensures
        match result {
            Ok(m) => all_pairs(tokens(content@)) && m.wf() && m.entries() == parse_entries(
                content@,
            ),
            Err(e) => !all_pairs(tokens(content@)) && e is CorruptedDataError && e.data_view()
                == Some("key-value pair not separated on file"@),
        },
{
    let chars = chars_of(content);
    let toks = tokens_of(&chars);
    let kv = key_value_separator_chars();
    let mut results = CkyMap::new();
    let mut t: usize = 0;
    assert(views(toks@).take(0) =~= Seq::<Seq<char>>::empty());
    while t < toks.len()
        invariant
            t <= toks.len(),
            kv@ == kv_sep(),
            views(toks@) == tokens(content@),
            results.wf(),
            results.entries() == entries_of_tokens(views(toks@).take(t as int)),
            forall|i: int| 0 <= i < t ==> (#[trigger] split(views(toks@)[i], kv_sep())).len() == 2,
        decreases toks.len() - t,
    {
        let ghost done = views(toks@).take(t as int);
        let ghost next = views(toks@).take(t as int + 1);
        assert(next.drop_last() =~= done);
        assert(next.last() == toks@[t as int]@);
        let mut parts = split_chars(&toks[t], &kv);
        assert(views(parts@).len() == parts.len());
        if parts.len() != 2 {
            assert(split(views(toks@)[t as int], kv_sep()).len() != 2);
            return Err(Error::corrupted("key-value pair not separated on file"));
        }
        let value = parts.pop().unwrap();
        let key = parts.pop().unwrap();
        assert(key@ == split(toks@[t as int]@, kv_sep())[0]);
        assert(value@ == split(toks@[t as int]@, kv_sep())[1]);
        results.insert_chars(key, value);
        t += 1;
    }
    assert(views(toks@).take(toks.len() as int) =~= views(toks@));
    Ok(results)
}

/// Whether one of the prefixes stands at the beginning of the phrase, on
/// character vectors.
fn has_any_of_prefixes_chars(phrase: &Vec<char>, prefixes: &Vec<Vec<char>>) -> (r: bool)
    ensures
        r == has_any_prefix(phrase@, views(prefixes@)),
{
    let mut i: usize = 0;
    while i < prefixes.len()
        invariant
            i <= prefixes.len(),
            forall|j: int| 0 <= j < i ==> !is_prefix_of(#[trigger] views(prefixes@)[j], phrase@),
        decreases prefixes.len() - i,
    {
        assert(views(prefixes@)[i as int] == prefixes[i as int]@);
        if matches_at_chars(phrase, &prefixes[i], 0) {
            return true;
        }
        i += 1;
    }
    false
}

/// Checks whether the phrase starts with any of the prefixes.
pub fn has_any_of_prefixes(phrase: &str, prefixes: &Vec<String>) -> (r: bool)
    ensures
        r == has_any_prefix(phrase@, string_views(prefixes@)),
{
    let p = chars_of(phrase);
    let mut all: Vec<Vec<char>> = Vec::new();
    let mut i: usize = 0;
    while i < prefixes.len()
        invariant
            i <= prefixes.len(),
            all.len() == i,
            forall|j: int| 0 <= j < i ==> (#[trigger] all[j])@ == prefixes[j]@,
        decreases prefixes.len() - i,
    {
        all.push(chars_of(prefixes[i].as_str()));
        i += 1;
    }
    assert(views(all@) =~= string_views(prefixes@));
    has_any_of_prefixes_chars(&p, &all)
}

/// Removes from a content the tokens of the given keys: a token goes where
/// it begins with one of the keys followed by the key-value separator. The
/// tokens that stay are written one after the other, each followed by the
/// token separator.
pub fn delete_key_values_from_str(content: &str, keys_to_delete: &Vec<String>) -> (new_content:
    String)
    ensures
        new_content@ == without_keys(content@, string_views(keys_to_delete@)),
{
    let kv = key_value_separator_chars();
    let tok = token_separator_chars();
    let mut prefixes_to_delete: Vec<Vec<char>> = Vec::new();
    let mut i: usize = 0;
    while i < keys_to_delete.len()
        invariant
            i <= keys_to_delete.len(),
            kv@ == kv_sep(),
            prefixes_to_delete.len() == i,
            forall|j: int|
                0 <= j < i ==> (#[trigger] prefixes_to_delete[j])@ == keys_to_delete[j]@ + kv_sep(),
        decreases keys_to_delete.len() - i,
    {
        let mut prefix = chars_of(keys_to_delete[i].as_str());
        append_chars(&mut prefix, &kv);
        prefixes_to_delete.push(prefix);
        i += 1;
    }
    let ghost prefixes = key_prefixes(string_views(keys_to_delete@));
    assert(views(prefixes_to_delete@) =~= prefixes);
    let chars = chars_of(content);
    let toks = tokens_of(&chars);
    let mut new_content: Vec<char> = Vec::new();
    let mut t: usize = 0;
    assert(views(toks@).take(0) =~= Seq::<Seq<char>>::empty());
    while t < toks.len()
        invariant
            t <= toks.len(),
            tok@ == token_sep(),
            views(prefixes_to_delete@) == prefixes,
            new_content@ == join(surviving(views(toks@).take(t as int), prefixes)),
        decreases toks.len() - t,
    {
        let ghost done = views(toks@).take(t as int);
        let ghost next = views(toks@).take(t as int + 1);
        assert(next.drop_last() =~= done);
        assert(next.last() == toks@[t as int]@);
        if !has_any_of_prefixes_chars(&toks[t], &prefixes_to_delete) {
            assert(surviving(done, prefixes).push(toks@[t as int]@).drop_last() =~= surviving(
                done,
                prefixes,
            ));
            append_chars(&mut new_content, &toks[t]);
            append_chars(&mut new_content, &tok);
        }
        t += 1;
    }
    assert(views(toks@).take(toks.len() as int) =~= views(toks@));
    string_of(&new_content)
}

/// The position of the last dot of a file name, or -1 where it has none.
pub open spec fn last_dot(name: Seq<char>) -> int
    decreases name.len(),
{
    if name.len() == 0 {
        -1
    } else if name.last() == '.' {
        name.len() - 1
    } else {
        last_dot(name.drop_last())
    }
}

/// The last dot of a name lies inside the name.
pub proof fn lemma_last_dot_bound(name: Seq<char>)
    ensures
        -1 <= last_dot(name) < name.len(),
        last_dot(name) >= 0 ==> name[last_dot(name)] == '.',
    decreases name.len(),
{
    if name.len() > 0 && name.last() != '.' {
        lemma_last_dot_bound(name.drop_last());
    }
}

/// The part of a file name before its last dot.
pub open spec fn base_name(name: Seq<char>) -> Seq<char> {
    name.subrange(0, last_dot(name))
}

/// The part of a file name after its last dot.
pub open spec fn extension(name: Seq<char>) -> Seq<char> {
    name.subrange(last_dot(name) + 1, name.len() as int)
}

/// Cuts a file name at its last dot into base name and extension. A name
/// without a dot has neither.
pub fn split_file_name(name: &str) -> (parts: Option<(String, String)>)
    ensures
        match parts {
            Some((base, ext)) => last_dot(name@) >= 0 && base@ == base_name(name@) && ext@
                == extension(name@),
            None => last_dot(name@) < 0,
        },
{
    let chars = chars_of(name);
    let mut i: usize = chars.len();
    assert(name@.take(i as int) =~= name@);
    while i > 0
        invariant
            i <= chars.len(),
            chars@ == name@,
            last_dot(name@) == last_dot(name@.take(i as int)),
        decreases i,
    {
        let ghost upto = name@.take(i as int);
        i -= 1;
        assert(upto.drop_last() =~= name@.take(i as int));
        assert(upto.last() == name@[i as int]);
        if chars[i] == '.' {
            let base = substring(&chars, 0, i);
            let ext = substring(&chars, i + 1, chars.len());
            return Some((base, ext));
        }
    }
    None
}

/// The file name made of a base name and an extension.
pub fn file_name(base: &str, ext: &str) -> (name: String)
    ensures
        name@ == base@ + seq!['.'] + ext@,
{
    let mut chars = chars_of(base);
    chars.push('.');
    let e = chars_of(ext);
    append_chars(&mut chars, &e);
    assert(chars@ =~= base@ + seq!['.'] + ext@);
    string_of(&chars)
}

/// Whether a file name has a non-empty base name and one of the given
/// extensions.
pub open spec fn has_extension_in(name: Seq<char>, exts: Seq<Seq<char>>) -> bool {
    last_dot(name) > 0 && exists|i: int|
        0 <= i < exts.len() && #[trigger] exts[i] == extension(name)
}

/// The names with one of the given extensions, in their order.
pub open spec fn names_with_extensions(names: Seq<Seq<char>>, exts: Seq<Seq<char>>) -> Seq<
    Seq<char>,
>
    decreases names.len(),
{
    if names.len() == 0 {
        Seq::empty()
    } else {
        let rest = names_with_extensions(names.drop_last(), exts);
        if has_extension_in(names.last(), exts) {
            rest.push(names.last())
        } else {
            rest
        }
    }
}

/// Picks from the names of the files in a folder those that have one of the
/// given extensions.
pub fn get_files_with_extensions(names: &Vec<String>, exts: &Vec<String>) -> (found: Vec<String>)
    ensures
        string_views(found@) == names_with_extensions(string_views(names@), string_views(exts@)),
{
    let mut found: Vec<String> = Vec::new();
    let mut n: usize = 0;
    assert(string_views(names@).take(0) =~= Seq::<Seq<char>>::empty());
    assert(string_views(found@) =~= Seq::<Seq<char>>::empty());
    while n < names.len()
        invariant
            n <= names.len(),
            string_views(found@) == names_with_extensions(
                string_views(names@).take(n as int),
                string_views(exts@),
            ),
        decreases names.len() - n,
    {
        let ghost done = string_views(names@).take(n as int);
        let ghost next = string_views(names@).take(n as int + 1);
        assert(next.drop_last() =~= done);
        assert(next.last() == names@[n as int]@);
        let ghost before = string_views(found@);
        proof {
            lemma_last_dot_bound(names@[n as int]@);
        }
        match split_file_name(names[n].as_str()) {
            Some((base, ext)) => {
                let mut matched = false;
                let mut e: usize = 0;
                while e < exts.len()
                    invariant
                        e <= exts.len(),
                        matched == exists|i: int|
                            0 <= i < e && #[trigger] string_views(exts@)[i] == ext@,
                    decreases exts.len() - e,
                {
                    assert(string_views(exts@)[e as int] == exts[e as int]@);
                    if str_eq(exts[e].as_str(), ext.as_str()) {
                        matched = true;
                    }
                    e += 1;
                }
                let base_chars = chars_of(base.as_str());
                if matched && base_chars.len() > 0 {
                    found.push(names[n].clone());
                    assert(string_views(found@) =~= before.push(names@[n as int]@));
                } else {
                    assert(string_views(found@) =~= before);
                }
            },
            None => {
                assert(string_views(found@) =~= before);
            },
        }
        n += 1;
    }
    assert(string_views(names@).take(names.len() as int) =~= string_views(names@));
    found
}

/// Whether a file name has a non-empty base name and the given extension.
pub open spec fn has_extension(name: Seq<char>, ext: Seq<char>) -> bool {
    last_dot(name) > 0 && extension(name) == ext
}

/// The base names of the names that have the given extension, in their
/// order.
pub open spec fn bases_with_extension(names: Seq<Seq<char>>, ext: Seq<char>) -> Seq<Seq<char>>
    decreases names.len(),
{
    if names.len() == 0 {
        Seq::empty()
    } else {
        let rest = bases_with_extension(names.drop_last(), ext);
        if has_extension(names.last(), ext) {
            rest.push(base_name(names.last()))
        } else {
            rest
        }
    }
}

/// Checks whether a file name has a non-empty base name and the given
/// extension, and returns the base name where it has.
pub fn base_name_with_extension(name: &str, ext: &str) -> (base: Option<String>)
    ensures
        match base {
            Some(b) => has_extension(name@, ext@) && b@ == base_name(name@),
            None => !has_extension(name@, ext@),
        },
{
    proof {
        lemma_last_dot_bound(name@);
    }
    match split_file_name(name) {
        Some((base, found)) => {
            let base_chars = chars_of(base.as_str());
            if base_chars.len() > 0 && str_eq(found.as_str(), ext) {
                Some(base)
            } else {
                None
            }
        },
        None => None,
    }
}

/// Picks from the names of the files in a folder those that have the given
/// extension, and returns their base names.
pub fn base_names_with_extension(names: &Vec<String>, ext: &str) -> (bases: Vec<String>)
    ensures
        string_views(bases@) == bases_with_extension(string_views(names@), ext@),
{
    let mut bases: Vec<String> = Vec::new();
    let mut n: usize = 0;
    assert(string_views(names@).take(0) =~= Seq::<Seq<char>>::empty());
    assert(string_views(bases@) =~= Seq::<Seq<char>>::empty());
    while n < names.len()
        invariant
            n <= names.len(),
            string_views(bases@) == bases_with_extension(
                string_views(names@).take(n as int),
                ext@,
            ),
        decreases names.len() - n,
    {
        let ghost done = string_views(names@).take(n as int);
        let ghost next = string_views(names@).take(n as int + 1);
        assert(next.drop_last() =~= done);
        assert(next.last() == names@[n as int]@);
        let ghost before = string_views(bases@);
        match base_name_with_extension(names[n].as_str(), ext) {
            Some(base) => {
                bases.push(base);
                assert(string_views(bases@) =~= before.push(base_name(names@[n as int]@)));
            },
            None => {
                assert(string_views(bases@) =~= before);
            },
        }
        n += 1;
    }
    assert(string_views(names@).take(names.len() as int) =~= string_views(names@));
    bases
}

/// A point in time of the system clock.
#[verifier::external_type_specification]
#[verifier::external_body]
pub struct ExSystemTime(SystemTime);

/// The error of a comparison of two points in time that stand in the wrong
/// order.
#[verifier::external_type_specification]
#[verifier::external_body]
pub struct ExSystemTimeError(SystemTimeError);

/// `SystemTime::now` reads the system clock. Nothing is said of what it
/// returns.
pub assume_specification[ SystemTime::now ]() -> (now: SystemTime)
;

/// `SystemTime::duration_since` gives the time that has passed since an
/// earlier point in time, or an error where that point is the later one.
/// Nothing is said of which it returns.
pub assume_specification[ SystemTime::duration_since ](
    time: &SystemTime,
    earlier: SystemTime,
) -> (elapsed: Result<Duration, SystemTimeError>)
;

/// `Duration::as_nanos` gives the whole nanoseconds of a span of time.
/// Nothing is said of their number.
pub assume_specification[ Duration::as_nanos ](span: &Duration) -> (nanos: u128)
;

/// `SystemTime::UNIX_EPOCH`, the point in time from which timestamps count.
#[verifier::external_body]
fn unix_epoch() -> (epoch: SystemTime) {
    SystemTime::UNIX_EPOCH
}

/// Whether the text is the decimal numeral of a number.
pub open spec fn is_decimal(text: Seq<char>) -> bool {
    exists|n: nat| text == #[trigger] decimal(n)
}

/// Returns the timestamp of the current time: the decimal numeral of the
/// nanoseconds that have passed since the Unix epoch.
///
/// Fails with `CorruptedDataError` where the system clock stands before the
/// Unix epoch.
pub fn get_current_timestamp_str() -> (result: Result<String, Error>)
    ensures
        match result {
            Ok(timestamp) => is_decimal(timestamp@),
            Err(e) => e is CorruptedDataError && e.data_view() == Some(
                "second time provided was later than self"@,
            ),
        },
{
    let now = SystemTime::now();
    match now.duration_since(unix_epoch()) {
        Ok(elapsed) => {
            let nanos = elapsed.as_nanos();
            let timestamp = decimal_string(nanos);
            assert(timestamp@ == decimal(nanos as nat));
            Ok(timestamp)
        },
        Err(_) => Err(Error::corrupted("second time provided was later than self")),
    }
}

} // verus!
