//! The files of a folder by their names: how the names of the files of a
//! database differ, which of them are log files and which are data files, and
//! what the file actions do to the listing.

use vstd::prelude::*;
use crate::compaction::among;
use crate::constants::{DATA_FILE_EXT, DEL_FILENAME, INDEX_FILENAME, LOG_FILE_EXT};
use crate::disk::{apply_action, ActionView};
use crate::entries::{
    distinct_keys, has_key, lemma_map_facts, lemma_without, position_of, without, Pair,
};
use crate::model::{data_name, insert_sorted, is_segment, log_name, name_of, names_of, sort_names};
use crate::roundtrip::lacks;
use crate::text::lex_le;
use crate::utils::{base_name, bases_with_extension, extension, has_extension, last_dot};

verus! {

/// The parts of a file name that is made of a base name and an extension
/// without a dot are that base name and that extension.
pub proof fn lemma_name_parts(base: Seq<char>, ext: Seq<char>)
    requires
        lacks(ext, '.'),
    ensures
        last_dot(name_of(base, ext)) == base.len(),
        base_name(name_of(base, ext)) == base,
        extension(name_of(base, ext)) == ext,
        has_extension(name_of(base, ext), ext) == (base.len() > 0),
    decreases ext.len(),
{
    let name = name_of(base, ext);
    if ext.len() == 0 {
        assert(name.last() == '.');
    } else {
        assert(name.last() == ext.last());
        assert(ext[ext.len() - 1] != '.');
        let shorter = ext.drop_last();
        assert(name.drop_last() =~= name_of(base, shorter));
        lemma_name_parts(base, shorter);
    }
    assert(name.subrange(0, base.len() as int) =~= base);
    assert(name.subrange(base.len() as int + 1, name.len() as int) =~= ext);
}

/// The extensions of the log files and of the data files hold no dot and
/// differ, and neither the index file nor the tombstone file has one of
/// them.
pub proof fn lemma_extensions()
    ensures
        lacks(LOG_FILE_EXT@, '.'),
        lacks(DATA_FILE_EXT@, '.'),
        LOG_FILE_EXT@ != DATA_FILE_EXT@,
        !has_extension(INDEX_FILENAME@, LOG_FILE_EXT@),
        !has_extension(INDEX_FILENAME@, DATA_FILE_EXT@),
        !has_extension(DEL_FILENAME@, LOG_FILE_EXT@),
        !has_extension(DEL_FILENAME@, DATA_FILE_EXT@),
{
    reveal_strlit("log");
    reveal_strlit("cky");
    reveal_strlit("index.idx");
    reveal_strlit("delete.del");
    reveal_strlit("index");
    reveal_strlit("delete");
    reveal_strlit("idx");
    reveal_strlit("del");
    assert(LOG_FILE_EXT@[0] == 'l' && DATA_FILE_EXT@[0] == 'c');
    assert(INDEX_FILENAME@ =~= name_of("index"@, "idx"@));
    assert(DEL_FILENAME@ =~= name_of("delete"@, "del"@));
    lemma_name_parts("index"@, "idx"@);
    lemma_name_parts("delete"@, "del"@);
    assert("idx"@[0] == 'i' && "del"@[0] == 'd');
}

/// The names of the files of a database are apart: a data file is neither
/// the index file nor the tombstone file nor a log file, and so is a log
/// file; and two data files, or two log files, of one name have one base
/// name.
pub proof fn lemma_names_apart(a: Seq<char>, b: Seq<char>)
    ensures
        data_name(a) != INDEX_FILENAME@,
        data_name(a) != DEL_FILENAME@,
        log_name(a) != INDEX_FILENAME@,
        log_name(a) != DEL_FILENAME@,
        data_name(a) != log_name(b),
        INDEX_FILENAME@ != DEL_FILENAME@,
        data_name(a) == data_name(b) ==> a == b,
        log_name(a) == log_name(b) ==> a == b,
{
    reveal_strlit("cky");
    reveal_strlit("log");
    reveal_strlit("index.idx");
    reveal_strlit("delete.del");
    let d = data_name(a);
    let l = log_name(a);
    let lb = log_name(b);
    assert(d.len() == a.len() + 4 && d[d.len() - 1] == 'y');
    assert(l.len() == a.len() + 4 && l[l.len() - 1] == 'g');
    assert(lb.len() == b.len() + 4 && lb[lb.len() - 1] == 'g');
    assert(INDEX_FILENAME@.len() == 9 && INDEX_FILENAME@[8] == 'x');
    assert(DEL_FILENAME@.len() == 10 && DEL_FILENAME@[9] == 'l');
    if data_name(a) == data_name(b) {
        assert(a =~= data_name(a).subrange(0, a.len() as int));
        assert(b =~= data_name(b).subrange(0, b.len() as int));
    }
    if log_name(a) == log_name(b) {
        assert(a =~= log_name(a).subrange(0, a.len() as int));
        assert(b =~= log_name(b).subrange(0, b.len() as int));
    }
}

/// The index file and the tombstone file are no segments.
pub proof fn lemma_index_is_no_segment()
    ensures
        !is_segment(INDEX_FILENAME@),
{
    reveal_strlit("index.idx");
    reveal_strlit("log");
    reveal_strlit("cky");
    let name = INDEX_FILENAME@;
    let n8 = name.drop_last();
    let n7 = n8.drop_last();
    let n6 = n7.drop_last();
    assert(name.last() == 'x');
    assert(n8.last() == 'd');
    assert(n7.last() == 'i');
    assert(n6.last() == '.');
    assert(last_dot(n6) == 5);
    assert(last_dot(n7) == 5);
    assert(last_dot(n8) == 5);
    assert(last_dot(name) == 5);
    assert(extension(name).len() == 3);
    assert(extension(name)[0] == 'i');
}

/// The base names of a listing with one more name at its end.
pub proof fn lemma_bases_push(names: Seq<Seq<char>>, name: Seq<char>, ext: Seq<char>)
    ensures
        bases_with_extension(names.push(name), ext) == if has_extension(name, ext) {
            bases_with_extension(names, ext).push(base_name(name))
        } else {
            bases_with_extension(names, ext)
        },
{
    assert(names.push(name).drop_last() =~= names);
}

/// The base names of a listing without the name at position `p`: where that
/// name has not the extension, they are those of the listing, and where it
/// has, there is one less of them.
pub proof fn lemma_bases_remove(names: Seq<Seq<char>>, p: int, ext: Seq<char>)
    requires
        0 <= p < names.len(),
    ensures
        !has_extension(names[p], ext) ==> bases_with_extension(names.remove(p), ext)
            == bases_with_extension(names, ext),
        has_extension(names[p], ext) ==> bases_with_extension(names.remove(p), ext).len()
            == bases_with_extension(names, ext).len() - 1,
    decreases names.len(),
{
    if p == names.len() - 1 {
        assert(names.remove(p) =~= names.drop_last());
    } else {
        let front = names.drop_last();
        assert(names.remove(p).drop_last() =~= front.remove(p));
        assert(names.remove(p).last() == names.last());
        assert(front[p] == names[p]);
        lemma_bases_remove(front, p, ext);
    }
}

/// The base name of a name of the listing that has the extension is among
/// the base names of the listing.
pub proof fn lemma_bases_has(names: Seq<Seq<char>>, i: int, ext: Seq<char>)
    requires
        0 <= i < names.len(),
        has_extension(names[i], ext),
    ensures
        among(bases_with_extension(names, ext), base_name(names[i])),
    decreases names.len(),
{
    let bases = bases_with_extension(names, ext);
    let front = bases_with_extension(names.drop_last(), ext);
    if i == names.len() - 1 {
        assert(bases[bases.len() - 1] == base_name(names[i]));
    } else {
        assert(names.drop_last()[i] == names[i]);
        lemma_bases_has(names.drop_last(), i, ext);
        let j = choose|j: int| 0 <= j < front.len() && #[trigger] front[j] == base_name(names[i]);
        assert(bases[j] == front[j]);
    }
}

/// A name is among the sorted names with one more name just where it is
/// among the names or is that name.
pub proof fn lemma_insert_has(names: Seq<Seq<char>>, name: Seq<char>, other: Seq<char>)
    ensures
        among(insert_sorted(names, name), other) == (among(names, other) || other == name),
    decreases names.len(),
{
    let more = insert_sorted(names, name);
    if names.len() == 0 {
        assert(more[0] == name);
        if among(more, other) {
            let i = choose|i: int| 0 <= i < more.len() && #[trigger] more[i] == other;
        }
    } else if lex_le(names.last(), name) {
        if among(more, other) {
            let i = choose|i: int| 0 <= i < more.len() && #[trigger] more[i] == other;
            if i < names.len() {
                assert(names[i] == other);
            }
        }
        if among(names, other) {
            let i = choose|i: int| 0 <= i < names.len() && #[trigger] names[i] == other;
            assert(more[i] == other);
        }
        if other == name {
            assert(more[names.len() as int] == other);
        }
    } else {
        let front = names.drop_last();
        let inner = insert_sorted(front, name);
        lemma_insert_has(front, name, other);
        if among(more, other) {
            let i = choose|i: int| 0 <= i < more.len() && #[trigger] more[i] == other;
            if i < inner.len() {
                assert(inner[i] == other);
            } else {
                assert(names[names.len() - 1] == other);
            }
        }
        if among(inner, other) {
            let i = choose|i: int| 0 <= i < inner.len() && #[trigger] inner[i] == other;
            assert(more[i] == other);
        }
        if among(front, other) {
            let i = choose|i: int| 0 <= i < front.len() && #[trigger] front[i] == other;
            assert(names[i] == other);
        }
        if among(names, other) {
            let i = choose|i: int| 0 <= i < names.len() && #[trigger] names[i] == other;
            if i < front.len() {
                assert(front[i] == other);
            } else {
                assert(more[more.len() - 1] == other);
            }
        }
    }
}

/// Sorting keeps the names.
pub proof fn lemma_sort_has(names: Seq<Seq<char>>, other: Seq<char>)
    ensures
        among(sort_names(names), other) == among(names, other),
    decreases names.len(),
{
    if names.len() > 0 {
        let front = names.drop_last();
        lemma_sort_has(front, other);
        lemma_insert_has(sort_names(front), names.last(), other);
        if among(front, other) {
            let i = choose|i: int| 0 <= i < front.len() && #[trigger] front[i] == other;
            assert(names[i] == other);
        }
        if among(names, other) {
            let i = choose|i: int| 0 <= i < names.len() && #[trigger] names[i] == other;
            if i < front.len() {
                assert(front[i] == other);
            }
        }
        if other == names.last() {
            assert(names[names.len() - 1] == other);
        }
    } else {
        if among(sort_names(names), other) {
            let i = choose|i: int|
                0 <= i < sort_names(names).len() && #[trigger] sort_names(names)[i] == other;
        }
        if among(names, other) {
            let i = choose|i: int| 0 <= i < names.len() && #[trigger] names[i] == other;
        }
    }
}

/// An action on a file that is there keeps the names of the files, but for
/// a renaming.
pub proof fn lemma_names_kept(files: Seq<Pair>, action: ActionView)
    requires
        distinct_keys(files),
        match action {
            ActionView::Create { name } => has_key(files, name),
            ActionView::Write { name, content } => has_key(files, name),
            ActionView::Append { name, content } => has_key(files, name),
            ActionView::Rename { from, to } => false,
            ActionView::RemoveAll => false,
        },
    ensures
        names_of(apply_action(files, action)) == names_of(files),
{
    assert(names_of(apply_action(files, action)) =~= names_of(files));
}

/// The names of the files after a file has been renamed to a name that no
/// file has: the old name is gone, and the new one stands at the end.
pub proof fn lemma_names_renamed(files: Seq<Pair>, from: Seq<char>, to: Seq<char>)
    requires
        distinct_keys(files),
        has_key(files, from),
        !has_key(files, to),
        from != to,
    ensures
        names_of(apply_action(files, ActionView::Rename { from, to })) == names_of(files).remove(
            position_of(files, from),
        ).push(to),
{
    let p = position_of(files, from);
    let less = without(files, from);
    assert(less == files.remove(p));
    lemma_without(files, from);
    lemma_map_facts(files, to);
    lemma_map_facts(less, to);
    assert(!has_key(less, to));
    assert(names_of(apply_action(files, ActionView::Rename { from, to })) =~= names_of(
        files,
    ).remove(p).push(to));
}

/// The names of the files after a file has been created that was not
/// there: the new name stands at the end.
pub proof fn lemma_names_created(files: Seq<Pair>, name: Seq<char>)
    requires
        !has_key(files, name),
    ensures
        names_of(apply_action(files, ActionView::Create { name })) == names_of(files).push(name),
{
    assert(names_of(apply_action(files, ActionView::Create { name })) =~= names_of(files).push(
        name,
    ));
}

/// A file of the folder has its name in the listing, at its position.
pub proof fn lemma_name_listed(files: Seq<Pair>, name: Seq<char>)
    requires
        has_key(files, name),
    ensures
        0 <= position_of(files, name) < names_of(files).len(),
        names_of(files)[position_of(files, name)] == name,
{
}

} // verus!
