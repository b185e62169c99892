//! Separators of the on-disk text format and the names of the files.

use vstd::prelude::*;

verus! {

/// Separates a key from its value inside one token.
pub const KEY_VALUE_SEPARATOR: &'static str = "><?&(^#";

/// Number of characters of [`KEY_VALUE_SEPARATOR`].
pub const KEY_VALUE_SEPARATOR_LENGTH: usize = 7;

/// Ends every token.
pub const TOKEN_SEPARATOR: &'static str = "$%#@*&^&";

/// Number of characters of [`TOKEN_SEPARATOR`].
pub const TOKEN_SEPARATOR_LENGTH: usize = 8;

/// Extension of the one segment that receives writes.
pub const LOG_FILE_EXT: &'static str = "log";

/// Extension of the immutable segments.
pub const DATA_FILE_EXT: &'static str = "cky";

/// Name of the file that persists the index.
pub const INDEX_FILENAME: &'static str = "index.idx";

/// Name of the file that persists the tombstones.
pub const DEL_FILENAME: &'static str = "delete.del";

/// The characters of [`KEY_VALUE_SEPARATOR`].
pub open spec fn kv_sep() -> Seq<char> {
    seq!['>', '<', '?', '&', '(', '^', '#']
}

/// The characters of [`TOKEN_SEPARATOR`].
pub open spec fn token_sep() -> Seq<char> {
    seq!['$', '%', '#', '@', '*', '&', '^', '&']
}

/// The two separator constants hold exactly the characters of `kv_sep` and
/// `token_sep`.
pub proof fn lemma_separator_literals()
    ensures
        KEY_VALUE_SEPARATOR@ == kv_sep(),
        TOKEN_SEPARATOR@ == token_sep(),
        kv_sep().len() == KEY_VALUE_SEPARATOR_LENGTH,
        token_sep().len() == TOKEN_SEPARATOR_LENGTH,
{
    reveal_strlit("><?&(^#");
    reveal_strlit("$%#@*&^&");
    assert(KEY_VALUE_SEPARATOR@ =~= kv_sep());
    assert(TOKEN_SEPARATOR@ =~= token_sep());
}

/// The key-value separator as a vector of characters.
pub fn key_value_separator_chars() -> (v: Vec<char>)
    ensures
        v@ == kv_sep(),
{
    let v: Vec<char> = vec!['>', '<', '?', '&', '(', '^', '#'];
    assert(v@ =~= kv_sep());
    v
}

/// The token separator as a vector of characters.
pub fn token_separator_chars() -> (v: Vec<char>)
    ensures
        v@ == token_sep(),
{
    let v: Vec<char> = vec!['$', '%', '#', '@', '*', '&', '^', '&'];
    assert(v@ =~= token_sep());
    v
}

} // verus!
