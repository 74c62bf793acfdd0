//! A tag: the files that carry it, each under its filename.

use vstd::prelude::*;
use vstd::string::*;
use vstd::std_specs::cmp::PartialEqSpecImpl;
use crate::names::lists_exactly;
use crate::path::{filename_of, is_filename_start, is_separator, lemma_filename_start_unique};

verus! {

/// One file of a tag: its filename and its canonical absolute path.
#[derive(Debug)]
struct FileEntry {
    name: String,
    path: String,
}

/// A named set of files. Each file is recorded under its filename, with its
/// canonical absolute path; a filename occurs at most once.
#[derive(Debug)]
pub struct Tag {
    entries: Vec<FileEntry>,
}

fn is_separator_char(c: char) -> (b: bool)
    ensures
        b == is_separator(c),
{
    c == '/' || c == '\\'
}

/// The files that a list of pairs, each a filename with a canonical path,
/// stands for: a later pair replaces an earlier pair of the same filename.
pub open spec fn files_of(entries: Seq<(String, String)>) -> Map<Seq<char>, Seq<char>>
    decreases entries.len(),
{
    if entries.len() == 0 {
        Map::empty()
    } else {
        files_of(entries.drop_last()).insert(entries.last().0@, entries.last().1@)
    }
}

/// Whether no filename stands twice in `entries`.
pub open spec fn filenames_distinct(entries: Seq<(String, String)>) -> bool {
    forall|i: int, j: int|
        0 <= i < j < entries.len() ==> (#[trigger] entries[i]).0@ != (#[trigger] entries[j]).0@
}

/// A list without repeated filenames stands for the map that holds each of
/// its pairs and nothing else.
pub proof fn lemma_files_of(entries: Seq<(String, String)>)
    requires
        filenames_distinct(entries),
    ensures
        forall|i: int|
            0 <= i < entries.len() ==> files_of(entries).contains_key((#[trigger] entries[i]).0@)
                && files_of(entries)[entries[i].0@] == entries[i].1@,
        forall|k: Seq<char>|
            files_of(entries).contains_key(k) ==> exists|i: int|
                0 <= i < entries.len() && (#[trigger] entries[i]).0@ == k,
    decreases entries.len(),
{
    if entries.len() > 0 {
        let rest = entries.drop_last();
        let last = entries.len() - 1;
        assert forall|i: int, j: int| 0 <= i < j < rest.len() implies (#[trigger] rest[i]).0@ != (
        #[trigger] rest[j]).0@ by {
            assert(rest[i] == entries[i] && rest[j] == entries[j]);
        }
        lemma_files_of(rest);
        assert forall|i: int| 0 <= i < entries.len() implies files_of(entries).contains_key(
            (#[trigger] entries[i]).0@,
        ) && files_of(entries)[entries[i].0@] == entries[i].1@ by {
            if i < last {
                assert(rest[i] == entries[i]);
                assert(entries[i].0@ != entries[last].0@);
            }
        }
        assert forall|k: Seq<char>| files_of(entries).contains_key(k) implies exists|i: int|
            0 <= i < entries.len() && (#[trigger] entries[i]).0@ == k by {
            if k == entries[last].0@ {
                assert(entries[last].0@ == k);
            } else {
                assert(files_of(rest).contains_key(k));
                let i = choose|i: int| 0 <= i < rest.len() && (#[trigger] rest[i]).0@ == k;
                assert(entries[i] == rest[i]);
            }
        }
    }
}

impl Tag {
    spec fn name_at(&self, i: int) -> Seq<char> {
        self.entries[i].name@
    }

    spec fn path_at(&self, i: int) -> Seq<char> {
        self.entries[i].path@
    }

    spec fn holds_at(&self, k: Seq<char>, i: int) -> bool {
        0 <= i < self.entries.len() && self.name_at(i) == k
    }

    spec fn index_of(&self, k: Seq<char>) -> int {
        choose|i: int| self.holds_at(k, i)
    }

    /// No filename occurs twice.
    #[verifier::type_invariant]
    spec fn names_distinct(&self) -> bool {
        forall|i: int, j: int|
            0 <= i < j < self.entries.len() ==> self.name_at(i) != self.name_at(j)
    }

    /// The tag as a map from filename to canonical path.
    pub closed spec fn view(&self) -> Map<Seq<char>, Seq<char>> {
        Map::new(
            |k: Seq<char>| exists|i: int| self.holds_at(k, i),
            |k: Seq<char>| self.path_at(self.index_of(k)),
        )
    }

    proof fn lemma_entry(&self, i: int)
        requires
            self.names_distinct(),
            0 <= i < self.entries.len(),
        ensures
            self@.contains_key(self.name_at(i)),
            self@[self.name_at(i)] == self.path_at(i),
    {
        let k = self.name_at(i);
        assert(self.holds_at(k, i));
        let j = self.index_of(k);
        assert(self.holds_at(k, j));
        assert(i == j);
    }

    proof fn lemma_key(&self, k: Seq<char>)
        requires
            self.names_distinct(),
            self@.contains_key(k),
        ensures
            self.holds_at(k, self.index_of(k)),
            self@[k] == self.path_at(self.index_of(k)),
    {
    }

    /// Returns a tag without files.
    pub fn new() -> (tag: Tag)
        ensures
            tag@ == Map::<Seq<char>, Seq<char>>::empty(),
    {
        let tag = Tag { entries: Vec::new() };
        assert(tag@ =~= Map::<Seq<char>, Seq<char>>::empty()) by {
            assert forall|k: Seq<char>| !tag@.contains_key(k) by {
                if tag@.contains_key(k) {
                    let i = choose|i: int| tag.holds_at(k, i);
                    assert(tag.holds_at(k, i));
                }
            }
        }
        tag
    }

    /// Returns the filename of `path`: its final component.
    pub fn get_filename(path: &str) -> (name: String)
        ensures
            name@ == filename_of(path@),
            is_filename_start(path@, path@.len() - name@.len()),
    {
        let n: usize = path.unicode_len();
        let mut start: usize = n;
        while start > 0 && !is_separator_char(path.get_char(start - 1))
            invariant
                n == path@.len(),
                start <= n,
                forall|i: int| start <= i < n ==> !is_separator(#[trigger] path@[i]),
            decreases start,
        {
            start = start - 1;
        }
        proof {
            lemma_filename_start_unique(path@, start as int);
        }
        path.substring_char(start, n).to_owned()
    }

    fn find(&self, name: &String) -> (at: Option<usize>)
        ensures
            match at {
                Some(i) => self.holds_at(name@, i as int),
                None => !self@.contains_key(name@),
            },
    {
        let mut i: usize = 0;
        while i < self.entries.len()
            invariant
                i <= self.entries.len(),
                forall|j: int| 0 <= j < i ==> !self.holds_at(name@, j),
            decreases self.entries.len() - i,
        {
            if self.entries[i].name == *name {
                return Some(i);
            }
            i = i + 1;
        }
        None
    }

    /// Records the canonical path `path` under the filename `name`. An
    /// entry of that filename is overwritten.
    pub fn insert(&mut self, name: String, path: String)
        ensures
            final(self)@ == old(self)@.insert(name@, path@),
    {
        proof {
            use_type_invariant(&*self);
        }
        let ghost k = name@;
        let ghost v = path@;
        let entry = FileEntry { name, path };
        let ghost before = *self;
        let found = self.find(&entry.name);
        // The entries are taken out, changed and put back whole, so that no
        // filename stands twice in the tag at any step.
        let mut entries: Vec<FileEntry> = Vec::new();
        core::mem::swap(&mut self.entries, &mut entries);
        match found {
            Some(i) => {
                entries.set(i, entry);
            },
            None => {
                entries.push(entry);
            },
        }
        let ghost after = Tag { entries };
        proof {
            assert(after.names_distinct()) by {
                assert forall|i: int, j: int| 0 <= i < j < after.entries.len() implies after.name_at(
                    i,
                ) != after.name_at(j) by {
                    if j < before.entries.len() {
                        assert(before.name_at(i) == after.name_at(i));
                        assert(before.name_at(j) == after.name_at(j));
                    } else {
                        assert(!before.holds_at(k, i));
                    }
                }
            }
            assert forall|q: Seq<char>| #[trigger]
                after@.contains_key(q) == before@.insert(k, v).contains_key(q) by {
                if after@.contains_key(q) {
                    after.lemma_key(q);
                    let i = after.index_of(q);
                    if q != k {
                        assert(before.holds_at(q, i));
                    }
                } else if q == k {
                    assert(after.holds_at(k, after.entries.len() - 1) || exists|i: int|
                        before.holds_at(k, i) && after.holds_at(k, i));
                } else if before@.contains_key(q) {
                    before.lemma_key(q);
                    assert(after.holds_at(q, before.index_of(q)));
                }
            }
            assert forall|q: Seq<char>| after@.contains_key(q) implies #[trigger] after@[q]
                == before@.insert(k, v)[q] by {
                after.lemma_key(q);
                let i = after.index_of(q);
                if q != k {
                    assert(before.holds_at(q, i));
                    before.lemma_entry(i);
                }
            }
            assert(after@ =~= before@.insert(k, v));
        }
        core::mem::swap(&mut self.entries, &mut entries);
    }

    /// Records the file at `path`, whose canonical absolute path is
    /// `canonical`, under its filename. An entry of that filename is
    /// overwritten.
    pub fn add_file(&mut self, path: &str, canonical: &str)
        ensures
            final(self)@ == old(self)@.insert(filename_of(path@), canonical@),
    {
        let name = Tag::get_filename(path);
        self.insert(name, canonical.to_owned());
    }

    /// Forgets the file at `path`, found by its filename. A file that the
    /// tag does not hold is passed over.
    pub fn remove_file(&mut self, path: &str)
        ensures
            final(self)@ == old(self)@.remove(filename_of(path@)),
    {
        proof {
            use_type_invariant(&*self);
        }
        let name = Tag::get_filename(path);
        let ghost before = *self;
        match self.find(&name) {
            Some(i) => {
                let mut entries: Vec<FileEntry> = Vec::new();
                core::mem::swap(&mut self.entries, &mut entries);
                entries.remove(i);
                let ghost after = Tag { entries };
                proof {
                    let k = name@;
                    assert forall|j: int| 0 <= j < after.entries.len() implies after.name_at(j)
                        == before.name_at(if j < i { j } else { j + 1 }) && after.path_at(j)
                        == before.path_at(if j < i { j } else { j + 1 }) by {}
                    assert(after.names_distinct());
                    assert forall|q: Seq<char>| #[trigger]
                        after@.contains_key(q) == before@.remove(k).contains_key(q) by {
                        if after@.contains_key(q) {
                            after.lemma_key(q);
                            let j = after.index_of(q);
                            assert(before.holds_at(q, if j < i { j } else { j + 1 }));
                        } else if q != k && before@.contains_key(q) {
                            before.lemma_key(q);
                            let j = before.index_of(q);
                            assert(after.holds_at(q, if j < i { j } else { j - 1 }));
                        }
                    }
                    assert forall|q: Seq<char>| after@.contains_key(q) implies #[trigger] after@[q]
                        == before@.remove(k)[q] by {
                        after.lemma_key(q);
                        let j = after.index_of(q);
                        before.lemma_entry(if j < i { j } else { j + 1 });
                    }
                    assert(after@ =~= before@.remove(k));
                }
                core::mem::swap(&mut self.entries, &mut entries);
            },
            None => {
                assert(self@ =~= before@.remove(name@));
            },
        }
    }

    /// Returns whether the tag holds no file.
    pub fn is_empty(&self) -> (empty: bool)
        ensures
            empty == (self@ == Map::<Seq<char>, Seq<char>>::empty()),
    {
        proof {
            use_type_invariant(self);
            if self.entries.len() > 0 {
                self.lemma_entry(0);
            } else {
                assert forall|k: Seq<char>| !self@.contains_key(k) by {
                    if self@.contains_key(k) {
                        self.lemma_key(k);
                    }
                }
                assert(self@ =~= Map::<Seq<char>, Seq<char>>::empty());
            }
        }
        self.entries.len() == 0
    }

    /// Returns whether a file of the filename `name` carries the tag.
    pub fn contains(&self, name: &str) -> (found: bool)
        ensures
            found == self@.contains_key(name@),
    {
        let key = name.to_owned();
        self.find(&key).is_some()
    }

    /// Returns the canonical path recorded under the filename `name`.
    pub fn path_of(&self, name: &str) -> (path: Option<String>)
        ensures
            match path {
                Some(p) => self@.contains_key(name@) && p@ == self@[name@],
                None => !self@.contains_key(name@),
            },
    {
        proof {
            use_type_invariant(self);
        }
        let key = name.to_owned();
        match self.find(&key) {
            Some(i) => {
                proof {
                    self.lemma_entry(i as int);
                }
                Some(self.entries[i].path.clone())
            },
            None => None,
        }
    }

    /// Returns the filenames of the tag's files, each once.
    pub fn filenames(&self) -> (names: Vec<String>)
        ensures
            lists_exactly(names@, self@.dom()),
    {
        proof {
            use_type_invariant(self);
        }
        let mut names: Vec<String> = Vec::new();
        let mut i: usize = 0;
        while i < self.entries.len()
            invariant
                i <= self.entries.len(),
                names@.len() == i,
                forall|j: int| 0 <= j < i ==> (#[trigger] names@[j])@ == self.name_at(j),
            decreases self.entries.len() - i,
        {
            names.push(self.entries[i].name.clone());
            i = i + 1;
        }
        proof {
            assert forall|j: int| 0 <= j < names@.len() implies self@.dom().contains(
                (#[trigger] names@[j])@,
            ) by {
                self.lemma_entry(j);
            }
            assert forall|k: Seq<char>| self@.dom().contains(k) implies exists|j: int|
                0 <= j < names@.len() && (#[trigger] names@[j])@ == k by {
                self.lemma_key(k);
                assert(names@[self.index_of(k)]@ == k);
            }
        }
        names
    }

    /// Returns the tag's files as pairs, each a filename with its canonical
    /// path, no filename twice.
    pub fn entries(&self) -> (list: Vec<(String, String)>)
        ensures
            filenames_distinct(list@),
            files_of(list@) == self@,
    {
        proof {
            use_type_invariant(self);
        }
        let mut list: Vec<(String, String)> = Vec::new();
        let mut i: usize = 0;
        while i < self.entries.len()
            invariant
                i <= self.entries.len(),
                list@.len() == i,
                forall|j: int|
                    0 <= j < i ==> (#[trigger] list@[j]).0@ == self.name_at(j) && list@[j].1@
                        == self.path_at(j),
            decreases self.entries.len() - i,
        {
            list.push((self.entries[i].name.clone(), self.entries[i].path.clone()));
            i = i + 1;
        }
        proof {
            lemma_files_of(list@);
            assert forall|k: Seq<char>| files_of(list@).contains_key(k) == self@.contains_key(k) by {
                if files_of(list@).contains_key(k) {
                    let j = choose|j: int| 0 <= j < list@.len() && (#[trigger] list@[j]).0@ == k;
                    self.lemma_entry(j);
                }
                if self@.contains_key(k) {
                    self.lemma_key(k);
                    assert(list@[self.index_of(k)].0@ == k);
                }
            }
            assert forall|k: Seq<char>| self@.contains_key(k) implies files_of(list@)[k]
                == self@[k] by {
                self.lemma_key(k);
                assert(list@[self.index_of(k)].0@ == k);
            }
            assert(files_of(list@) =~= self@);
        }
        list
    }

    /// Returns the tag that `entries` stands for.
    pub fn from_entries(entries: &Vec<(String, String)>) -> (tag: Tag)
        ensures
            tag@ == files_of(entries@),
    {
        let mut tag = Tag::new();
        let mut i: usize = 0;
        while i < entries.len()
            invariant
                i <= entries.len(),
                tag@ == files_of(entries@.take(i as int)),
            decreases entries.len() - i,
        {
            proof {
                assert(entries@.take(i + 1).drop_last() == entries@.take(i as int));
            }
            tag.insert(entries[i].0.clone(), entries[i].1.clone());
            i = i + 1;
        }
        proof {
            assert(entries@.take(entries@.len() as int) == entries@);
        }
        tag
    }

    /// Returns whether every file of `self` is a file of `other`, under the
    /// same canonical path.
    pub fn included_in(&self, other: &Tag) -> (within: bool)
        ensures
            within == self@.submap_of(other@),
    {
        proof {
            use_type_invariant(self);
            use_type_invariant(other);
        }
        let mut i: usize = 0;
        while i < self.entries.len()
            invariant
                i <= self.entries.len(),
                self.names_distinct(),
                other.names_distinct(),
                forall|j: int|
                    0 <= j < i ==> other@.contains_key(#[trigger] self.name_at(j)) && other@[self.name_at(
                        j,
                    )] == self.path_at(j),
            decreases self.entries.len() - i,
        {
            proof {
                self.lemma_entry(i as int);
            }
            match other.find(&self.entries[i].name) {
                Some(j) => {
                    proof {
                        other.lemma_entry(j as int);
                    }
                    if self.entries[i].path != other.entries[j].path {
                        return false;
                    }
                },
                None => {
                    return false;
                },
            }
            i = i + 1;
        }
        proof {
            assert forall|k: Seq<char>| #[trigger] self@.dom().contains(k) implies #[trigger] other@.dom().contains(k)
                && self@[k] == other@[k] by {
                self.lemma_key(k);
                let j = self.index_of(k);
                assert(other@.contains_key(self.name_at(j)));
            }
        }
        true
    }
}

impl PartialEqSpecImpl for Tag {
    open spec fn obeys_eq_spec() -> bool {
        true
    }

    /// Two tags are equal where they hold the same files under the same
    /// canonical paths.
    open spec fn eq_spec(&self, other: &Tag) -> bool {
        self@ == other@
    }
}

impl PartialEq for Tag {
    fn eq(&self, other: &Tag) -> (same: bool) {
        let same = self.included_in(other) && other.included_in(self);
        proof {
            if same {
                assert(self@ =~= other@);
            }
        }
        same
    }
}

} // verus!
