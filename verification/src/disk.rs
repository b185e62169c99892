//! The folder of the database as the engine sees it: named files with their
//! contents, and the operations on them that the engine asks for.
//!
//! The engine itself touches no file. It is handed the files that it needs
//! to read as a [`Disk`], and it hands back the [`FileAction`]s that bring
//! the folder in line with its memory. A `Disk` in memory follows those
//! actions with [`Disk::apply`].

use vstd::prelude::*;
use crate::entries::{
    as_map, distinct_keys, has_key, lemma_map_facts, lemma_position, lemma_upsert, lemma_without,
    upsert, value_of, without, Pair,
};
use crate::text::{append_chars, chars_of, str_eq, string_of};

verus! {

/// One file of the folder.
#[derive(Debug, PartialEq)]
pub struct DiskFile {
    pub name: String,
    pub content: String,
}

/// An operation on the folder of the database.
#[derive(Debug, PartialEq)]
pub enum FileAction {
    /// Creates the file, empty, unless it exists.
    Create { name: String },
    /// Replaces the content of the file, which is created where it is
    /// missing.
    Write { name: String, content: String },
    /// Adds the content at the end of the file.
    Append { name: String, content: String },
    /// Gives the file `from` the name `to`; a file that had that name is
    /// replaced.
    Rename { from: String, to: String },
    /// Removes every file of the folder.
    RemoveAll,
}

/// A file action as mathematics sees it.
pub enum ActionView {
    Create { name: Seq<char> },
    Write { name: Seq<char>, content: Seq<char> },
    Append { name: Seq<char>, content: Seq<char> },
    Rename { from: Seq<char>, to: Seq<char> },
    RemoveAll,
}

impl View for FileAction {
    type V = ActionView;

    open spec fn view(&self) -> ActionView {
        match *self {
            FileAction::Create { name } => ActionView::Create { name: name@ },
            FileAction::Write { name, content } => ActionView::Write {
                name: name@,
                content: content@,
            },
            FileAction::Append { name, content } => ActionView::Append {
                name: name@,
                content: content@,
            },
            FileAction::Rename { from, to } => ActionView::Rename { from: from@, to: to@ },
            FileAction::RemoveAll => ActionView::RemoveAll,
        }
    }
}

/// The views of a run of actions.
pub open spec fn action_views(actions: Seq<FileAction>) -> Seq<ActionView> {
    Seq::new(actions.len(), |i: int| actions[i]@)
}

/// The content of the file with the given name, or the empty text where the
/// folder has no such file.
pub open spec fn content_of(files: Seq<Pair>, name: Seq<char>) -> Seq<char> {
    if has_key(files, name) {
        value_of(files, name)
    } else {
        Seq::empty()
    }
}

/// The files of a folder after one action. A file is an entry whose key is
/// the name and whose value is the content.
pub open spec fn apply_action(files: Seq<Pair>, action: ActionView) -> Seq<Pair> {
    match action {
        ActionView::Create { name } => if has_key(files, name) {
            files
        } else {
            files.push(Pair { key: name, value: Seq::empty() })
        },
        ActionView::Write { name, content } => upsert(files, name, content),
        ActionView::Append { name, content } => upsert(
            files,
            name,
            content_of(files, name) + content,
        ),
        ActionView::Rename { from, to } => if has_key(files, from) && from != to {
            upsert(without(files, from), to, value_of(files, from))
        } else {
            files
        },
        ActionView::RemoveAll => Seq::empty(),
    }
}

/// The files of a folder after a run of actions, taken in order.
pub open spec fn apply_actions(files: Seq<Pair>, actions: Seq<ActionView>) -> Seq<Pair>
    decreases actions.len(),
{
    if actions.len() == 0 {
        files
    } else {
        apply_action(apply_actions(files, actions.drop_last()), actions.last())
    }
}

/// An action keeps the names of the files distinct.
pub proof fn lemma_apply_action_distinct(files: Seq<Pair>, action: ActionView)
    requires
        distinct_keys(files),
    ensures
        distinct_keys(apply_action(files, action)),
{
    match action {
        ActionView::Create { name } => {
            if !has_key(files, name) {
                lemma_upsert(files, name, Seq::empty());
            }
        },
        ActionView::Write { name, content } => {
            lemma_upsert(files, name, content);
        },
        ActionView::Append { name, content } => {
            lemma_upsert(files, name, content_of(files, name) + content);
        },
        ActionView::Rename { from, to } => {
            lemma_without(files, from);
            lemma_upsert(without(files, from), to, value_of(files, from));
        },
        ActionView::RemoveAll => {},
    }
}

/// What an action does to the mapping from the names of a folder to the
/// contents.
pub proof fn lemma_apply_action_map(files: Seq<Pair>, action: ActionView)
    requires
        distinct_keys(files),
    ensures
        distinct_keys(apply_action(files, action)),
        as_map(apply_action(files, action)) == match action {
            ActionView::Create { name } => if has_key(files, name) {
                as_map(files)
            } else {
                as_map(files).insert(name, Seq::empty())
            },
            ActionView::Write { name, content } => as_map(files).insert(name, content),
            ActionView::Append { name, content } => as_map(files).insert(
                name,
                content_of(files, name) + content,
            ),
            ActionView::Rename { from, to } => if has_key(files, from) && from != to {
                as_map(files).remove(from).insert(to, value_of(files, from))
            } else {
                as_map(files)
            },
            ActionView::RemoveAll => Map::empty(),
        },
{
    lemma_apply_action_distinct(files, action);
    match action {
        ActionView::Create { name } => {
            if !has_key(files, name) {
                lemma_upsert(files, name, Seq::empty());
            }
        },
        ActionView::Write { name, content } => {
            lemma_upsert(files, name, content);
        },
        ActionView::Append { name, content } => {
            lemma_upsert(files, name, content_of(files, name) + content);
        },
        ActionView::Rename { from, to } => {
            if has_key(files, from) && from != to {
                lemma_without(files, from);
                lemma_upsert(without(files, from), to, value_of(files, from));
            }
        },
        ActionView::RemoveAll => {
            assert(as_map(Seq::<Pair>::empty()) =~= Map::empty());
        },
    }
}

/// A run of actions of which two runs are made does what the two runs do,
/// one after the other.
pub proof fn lemma_apply_concat(files: Seq<Pair>, a: Seq<ActionView>, b: Seq<ActionView>)
    ensures
        apply_actions(files, a + b) == apply_actions(apply_actions(files, a), b),
    decreases b.len(),
{
    if b.len() == 0 {
        assert(a + b =~= a);
    } else {
        lemma_apply_concat(files, a, b.drop_last());
        assert((a + b).drop_last() =~= a + b.drop_last());
        assert((a + b).last() == b.last());
    }
}

/// What a run of no action, of one action and of two actions does.
pub proof fn lemma_apply_few(files: Seq<Pair>, a: ActionView, b: ActionView)
    ensures
        apply_actions(files, Seq::empty()) == files,
        apply_actions(files, seq![a]) == apply_action(files, a),
        apply_actions(files, seq![a, b]) == apply_action(apply_action(files, a), b),
{
    assert(apply_actions(files, Seq::<ActionView>::empty()) == files);
    assert(seq![a].drop_last() =~= Seq::<ActionView>::empty());
    assert(seq![a].last() == a);
    assert(apply_actions(files, seq![a]) == apply_action(files, a));
    assert(seq![a, b].drop_last() =~= seq![a]);
    assert(seq![a, b].last() == b);
}

/// A run of actions keeps the names of the files distinct.
pub proof fn lemma_apply_actions_distinct(files: Seq<Pair>, actions: Seq<ActionView>)
    requires
        distinct_keys(files),
    ensures
        distinct_keys(apply_actions(files, actions)),
    decreases actions.len(),
{
    if actions.len() > 0 {
        lemma_apply_actions_distinct(files, actions.drop_last());
        lemma_apply_action_distinct(
            apply_actions(files, actions.drop_last()),
            actions.last(),
        );
    }
}

/// A file that an action does not name is after the action what it was
/// before.
pub proof fn lemma_other_file(files: Seq<Pair>, action: ActionView, name: Seq<char>)
    requires
        distinct_keys(files),
        match action {
            ActionView::Create { name: n } => n != name,
            ActionView::Write { name: n, content } => n != name,
            ActionView::Append { name: n, content } => n != name,
            ActionView::Rename { from, to } => from != name && to != name,
            ActionView::RemoveAll => false,
        },
    ensures
        has_key(apply_action(files, action), name) == has_key(files, name),
        has_key(files, name) ==> value_of(apply_action(files, action), name) == value_of(
            files,
            name,
        ),
{
    lemma_apply_action_map(files, action);
    lemma_map_facts(files, name);
    lemma_map_facts(apply_action(files, action), name);
}

/// A file that is written, or to which is appended, is there after the
/// action and holds what the action says.
pub proof fn lemma_written_file(files: Seq<Pair>, action: ActionView)
    requires
        distinct_keys(files),
    ensures
        distinct_keys(apply_action(files, action)),
        match action {
            ActionView::Write { name, content } => has_key(apply_action(files, action), name)
                && value_of(apply_action(files, action), name) == content,
            ActionView::Append { name, content } => has_key(apply_action(files, action), name)
                && value_of(apply_action(files, action), name) == content_of(files, name)
                + content,
            _ => true,
        },
{
    lemma_apply_action_map(files, action);
    match action {
        ActionView::Write { name, content } => {
            lemma_map_facts(apply_action(files, action), name);
        },
        ActionView::Append { name, content } => {
            lemma_map_facts(apply_action(files, action), name);
        },
        _ => {},
    }
}

/// The files of a folder, held in memory.
#[derive(Debug, PartialEq)]
pub struct Disk {
    files: Vec<DiskFile>,
}

impl View for Disk {
    type V = Seq<Pair>;

    /// The files: the key of an entry is the name, the value the content.
    closed spec fn view(&self) -> Seq<Pair> {
        Seq::new(
            self.files.len() as nat,
            |i: int| Pair { key: self.files[i].name@, value: self.files[i].content@ },
        )
    }
}

impl Disk {
    /// No two files have the same name.
    pub open spec fn wf(&self) -> bool {
        distinct_keys(self@)
    }

    /// A folder without files.
    pub fn new() -> (disk: Disk)
        ensures
            disk.wf(),
            disk@ == Seq::<Pair>::empty(),
    {
        let disk = Disk { files: Vec::new() };
        assert(disk@ =~= Seq::<Pair>::empty());
        disk
    }

    /// The position of the file with the given name.
    fn find(&self, name: &str) -> (r: Option<usize>)
        ensures
            match r {
                Some(i) => i < self@.len() && self@[i as int].key == name@,
                None => !has_key(self@, name@),
            },
    {
        let mut i: usize = 0;
        while i < self.files.len()
            invariant
                i <= self.files.len(),
                forall|j: int| 0 <= j < i ==> (#[trigger] self@[j]).key != name@,
            decreases self.files.len() - i,
        {
            if str_eq(self.files[i].name.as_str(), name) {
                return Some(i);
            }
            i += 1;
        }
        None
    }

    /// Whether the folder has a file with the given name.
    pub fn contains(&self, name: &str) -> (r: bool)
        ensures
            r == has_key(self@, name@),
    {
        match self.find(name) {
            Some(i) => {
                true
            },
            None => false,
        }
    }

    /// The content of the file with the given name.
    pub fn read(&self, name: &str) -> (content: Option<String>)
        requires
            self.wf(),
        ensures
            match content {
                Some(c) => has_key(self@, name@) && c@ == value_of(self@, name@),
                None => !has_key(self@, name@),
            },
    {
        match self.find(name) {
            Some(i) => {
                proof {
                    lemma_position(self@, name@, i as int);
                }
                Some(self.files[i].content.clone())
            },
            None => None,
        }
    }

    /// The names of the files, in the order of the folder.
    pub fn names(&self) -> (names: Vec<String>)
        ensures
            names.len() == self@.len(),
            forall|i: int| 0 <= i < names.len() ==> (#[trigger] names[i])@ == self@[i].key,
    {
        let mut names: Vec<String> = Vec::new();
        let mut i: usize = 0;
        while i < self.files.len()
            invariant
                i <= self.files.len(),
                names.len() == i,
                forall|j: int| 0 <= j < i ==> (#[trigger] names[j])@ == self@[j].key,
            decreases self.files.len() - i,
        {
            names.push(self.files[i].name.clone());
            i += 1;
        }
        names
    }

    /// The name of the file at position `i` of the folder.
    pub fn name_at(&self, i: usize) -> (name: &String)
        requires
            i < self@.len(),
        ensures
            name@ == self@[i as int].key,
    {
        &self.files[i].name
    }

    /// The content of the file at position `i` of the folder.
    pub fn content_at(&self, i: usize) -> (content: &String)
        requires
            i < self@.len(),
        ensures
            content@ == self@[i as int].value,
    {
        &self.files[i].content
    }

    /// A folder in memory that holds the same files.
    pub fn copy(&self) -> (disk: Disk)
        ensures
            disk@ == self@,
    {
        let mut files: Vec<DiskFile> = Vec::new();
        let mut i: usize = 0;
        while i < self.files.len()
            invariant
                i <= self.files.len(),
                files.len() == i,
                forall|j: int|
                    0 <= j < i ==> (#[trigger] files[j]).name@ == self.files[j].name@
                        && files[j].content@ == self.files[j].content@,
            decreases self.files.len() - i,
        {
            files.push(
                DiskFile { name: self.files[i].name.clone(), content: self.files[i].content.clone() },
            );
            i += 1;
        }
        let disk = Disk { files };
        assert(disk@ =~= self@);
        disk
    }

    /// The number of files.
    pub fn len(&self) -> (n: usize)
        ensures
            n == self@.len(),
    {
        self.files.len()
    }

    /// Gives the file with the given name the given content; the file is
    /// added where the folder has none of that name.
    pub fn write(&mut self, name: &str, content: String)
        requires
            old(self).wf(),
        ensures
            final(self).wf(),
            final(self)@ == upsert(old(self)@, name@, content@),
    {
        proof {
            lemma_upsert(self@, name@, content@);
        }
        let ghost before = self@;
        match self.find(name) {
            Some(i) => {
                proof {
                    lemma_position(before, name@, i as int);
                }
                let file = DiskFile { name: name.to_owned(), content };
                self.files.set(i, file);
                assert(self@ =~= upsert(before, name@, content@));
            },
            None => {
                self.files.push(DiskFile { name: name.to_owned(), content });
                assert(self@ =~= upsert(before, name@, content@));
            },
        }
    }

    /// Takes the file with the given name out of the folder.
    pub fn remove(&mut self, name: &str)
        requires
            old(self).wf(),
        ensures
            final(self).wf(),
            final(self)@ == without(old(self)@, name@),
    {
        proof {
            lemma_without(self@, name@);
        }
        let ghost before = self@;
        match self.find(name) {
            Some(i) => {
                proof {
                    lemma_position(before, name@, i as int);
                }
                self.files.remove(i);
                assert(self@ =~= without(before, name@));
            },
            None => {},
        }
    }

    /// Carries out one action on the folder.
    pub fn apply(&mut self, action: &FileAction)
        requires
            old(self).wf(),
        ensures
            final(self).wf(),
            final(self)@ == apply_action(old(self)@, action@),
    {
        proof {
            lemma_apply_action_distinct(self@, action@);
        }
        match action {
            FileAction::Create { name } => {
                if !self.contains(name.as_str()) {
                    let ghost before = self@;
                    self.files.push(DiskFile { name: name.clone(), content: String::new() });
                    assert(self@ =~= before.push(Pair { key: name@, value: Seq::empty() }));
                }
            },
            FileAction::Write { name, content } => {
                self.write(name.as_str(), content.clone());
            },
            FileAction::Append { name, content } => {
                let mut chars: Vec<char> = match self.read(name.as_str()) {
                    Some(c) => chars_of(c.as_str()),
                    None => Vec::new(),
                };
                let more = chars_of(content.as_str());
                append_chars(&mut chars, &more);
                self.write(name.as_str(), string_of(&chars));
            },
            FileAction::Rename { from, to } => {
                let same = str_eq(from.as_str(), to.as_str());
                if !same {
                    match self.read(from.as_str()) {
                        Some(c) => {
                            self.remove(from.as_str());
                            self.write(to.as_str(), c);
                        },
                        None => {},
                    }
                }
            },
            FileAction::RemoveAll => {
                self.files.clear();
                assert(self@ =~= Seq::<Pair>::empty());
            },
        }
    }

    /// Carries out a run of actions on the folder, in order.
    pub fn apply_all(&mut self, actions: &Vec<FileAction>)
        requires
            old(self).wf(),
        ensures
            final(self).wf(),
            final(self)@ == apply_actions(old(self)@, action_views(actions@)),
    {
        let mut i: usize = 0;
        assert(action_views(actions@).take(0) =~= Seq::<ActionView>::empty());
        while i < actions.len()
            invariant
                i <= actions.len(),
                self.wf(),
                self@ == apply_actions(old(self)@, action_views(actions@).take(i as int)),
            decreases actions.len() - i,
        {
            let ghost next = action_views(actions@).take(i as int + 1);
            assert(next.drop_last() =~= action_views(actions@).take(i as int));
            assert(next.last() == actions@[i as int]@);
            self.apply(&actions[i]);
            i += 1;
        }
        assert(action_views(actions@).take(actions.len() as int) =~= action_views(actions@));
    }
}

} // verus!
