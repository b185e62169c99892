//! The page cache: one immutable segment held in memory, with the range of
//! timestamped keys that the segment covers.

use vstd::prelude::*;
use vstd::string::StringExecFns;
use crate::cky_map::CkyMap;
use crate::entries::{parse_entries, upsert, without, Pair};
use crate::errors::{option_view, Error};
use crate::text::{lex_le, lex_lt, str_le, str_lt};

verus! {

/// Whether `key` lies in the range that begins with `start` and ends before
/// `end`.
pub open spec fn in_range(start: Seq<char>, end: Seq<char>, key: Seq<char>) -> bool {
    lex_le(start, key) && lex_lt(key, end)
}

/// The content of one data file, and the bounds between which its
/// timestamped keys lie: `start` is the base name of the file, `end` that of
/// the next segment.
#[derive(Debug, PartialEq, Clone)]
pub struct Cache {
    pub data: CkyMap,
    pub start: String,
    pub end: String,
}

impl Cache {
    /// The page is coherent.
    pub open spec fn wf(&self) -> bool {
        self.data.wf()
    }

    /// A page that holds the given content of the segment between the given
    /// bounds.
    pub fn new(content: String, start: String, end: String) -> (cache: Cache)
        ensures
            cache.wf(),
            cache.data.entries() == parse_entries(content@),
            cache.start@ == start@,
            cache.end@ == end@,
    {
        Cache { data: CkyMap::from(content), start, end }
    }

    /// The empty page: it holds nothing, and both its bounds are `"0"`, so
    /// that no key lies in its range.
    pub fn new_empty() -> (cache: Cache)
        ensures
            cache.wf(),
            cache.data.entries() == Seq::<Pair>::empty(),
            cache.start@ == "0"@,
            cache.end@ == "0"@,
    {
        Cache { data: CkyMap::new(), start: String::from_str("0"), end: String::from_str("0") }
    }

    /// Replaces the content and the bounds of the page.
    pub fn reload(&mut self, content: String, start: String, end: String)
        ensures
            final(self).wf(),
            final(self).data.entries() == parse_entries(content@),
            final(self).start@ == start@,
            final(self).end@ == end@,
    {
        self.data.reload_from_str(content);
        self.start = start;
        self.end = end;
    }

    /// Checks whether the key lies within the bounds of the page: not before
    /// `start`, and before `end`.
    pub fn is_in_range(&self, key: &str) -> (r: bool)
        ensures
            r == in_range(self.start@, self.end@, key@),
    {
        str_le(self.start.as_str(), key) && str_lt(key, self.end.as_str())
    }

    /// Removes the entry of the key from the page and returns its value.
    ///
    /// Fails with `NotFoundError` where the page has no such key.
    pub fn remove(&mut self, key: &str) -> (result: Result<String, Error>)
        requires
            old(self).wf(),
        ensures
            final(self).wf(),
            final(self).start == old(self).start,
            final(self).end == old(self).end,
            final(self).data.entries() == without(old(self).data.entries(), key@),
            match result {
                Ok(value) => old(self).data@.contains_key(key@) && value@ == old(self).data@[key@],
                Err(e) => !old(self).data@.contains_key(key@) && e is NotFoundError
                    && e.data_view() == Some(key@),
            },
    {
        self.data.delete(key)
    }

    /// Gives the key the value in the page and returns the value that stood
    /// there before.
    pub fn update(&mut self, key: &str, value: &str) -> (result: Result<Option<String>, Error>)
        requires
            old(self).wf(),
        ensures
            final(self).wf(),
            final(self).start == old(self).start,
            final(self).end == old(self).end,
            final(self).data.entries() == upsert(old(self).data.entries(), key@, value@),
            match result {
                Ok(previous) => option_view(previous) == if old(self).data@.contains_key(key@) {
                    Some(old(self).data@[key@])
                } else {
                    None
                },
                Err(_) => false,
            },
    {
        self.data.insert(key, value)
    }

    /// Retrieves the value that stands under the key in the page.
    ///
    /// Fails with `NotFoundError` where the page has no such key.
    pub fn get(&self, key: &str) -> (result: Result<String, Error>)
        requires
            self.wf(),
        ensures
            match result {
                Ok(value) => self.data@.contains_key(key@) && value@ == self.data@[key@],
                Err(e) => !self.data@.contains_key(key@) && e is NotFoundError && e.data_view()
                    == Some(key@),
            },
    {
        self.data.get(key)
    }
}

} // verus!
