//! The store: every tag under its name, and the operations that tag files,
//! untag them and find the files that carry given tags.

use vstd::prelude::*;
use vstd::string::*;
use vstd::std_specs::cmp::PartialEqSpecImpl;
use crate::error::StoreError;
use crate::names::{contains_name, lists_exactly, names_contain};
use crate::path::filename_of;
use crate::tag::{files_of, Tag};

verus! {

/// A tag as contracts see it: canonical paths by filename.
pub type TagView = Map<Seq<char>, Seq<char>>;

/// A store as contracts see it: tags by name.
pub type StoreView = Map<Seq<char>, TagView>;

/// What creating a tag under `name` answers: a second tag of one name is refused.
pub open spec fn create_outcome(store: StoreView, name: Seq<char>) -> Result<(), StoreError> {
    if store.contains_key(name) {
        Err(StoreError::AlreadyExists)
    } else {
        Ok(())
    }
}

/// The store after a tag has been asked for under `name`: a new tag is
/// empty, and a tag that stood there stays as it was.
pub open spec fn created(store: StoreView, name: Seq<char>) -> StoreView {
    if store.contains_key(name) {
        store
    } else {
        store.insert(name, Map::<Seq<char>, Seq<char>>::empty())
    }
}

/// The names that `tags` holds at the indices from `from` up to `to`.
pub open spec fn named(tags: Seq<String>, from: int, to: int) -> Set<Seq<char>> {
    Set::new(|t: Seq<char>| exists|i: int| from <= i < to && (#[trigger] tags[i])@ == t)
}

/// The store after the file `file`, at the canonical path `path`, has been
/// recorded in each tag of `store` that `tags` names.
pub open spec fn associated(
    store: StoreView,
    tags: Set<Seq<char>>,
    file: Seq<char>,
    path: Seq<char>,
) -> StoreView {
    Map::new(
        |t: Seq<char>| store.contains_key(t),
        |t: Seq<char>|
            if tags.contains(t) {
                store[t].insert(file, path)
            } else {
                store[t]
            },
    )
}

/// The store after the file `file` has left each tag of `store` that `tags`
/// names.
pub open spec fn disassociated(store: StoreView, tags: Set<Seq<char>>, file: Seq<char>) -> StoreView {
    Map::new(
        |t: Seq<char>| store.contains_key(t),
        |t: Seq<char>|
            if tags.contains(t) {
                store[t].remove(file)
            } else {
                store[t]
            },
    )
}

/// The names among `tags[from..to]` that are no tag of `store`, in the order
/// in which they stand there.
pub open spec fn unknown_names(store: StoreView, tags: Seq<String>, from: int, to: int) -> Seq<
    Seq<char>,
>
    decreases to - from,
{
    if to <= from {
        Seq::empty()
    } else {
        let rest = unknown_names(store, tags, from, to - 1);
        if store.contains_key(tags[to - 1]@) {
            rest
        } else {
            rest.push(tags[to - 1]@)
        }
    }
}

/// What a list of strings reads, element by element.
pub open spec fn views_of(names: Seq<String>) -> Seq<Seq<char>> {
    Seq::new(names.len(), |i: int| names[i]@)
}

/// Whether each element of `tags` names a tag of `store`.
pub open spec fn all_known(store: StoreView, tags: Seq<String>) -> bool {
    forall|i: int| 0 <= i < tags.len() ==> store.contains_key((#[trigger] tags[i])@)
}

/// The filenames that stand under every tag that `tags` names. Where `tags`
/// is empty there are none.
pub open spec fn carrying_all(store: StoreView, tags: Seq<String>) -> Set<Seq<char>> {
    Set::new(
        |f: Seq<char>|
            tags.len() > 0 && forall|i: int|
                0 <= i < tags.len() ==> store[(#[trigger] tags[i])@].contains_key(f),
    )
}

/// The number of elements of `tags` whose tag holds `file`; a name that
/// stands twice counts twice.
pub open spec fn tag_count(store: StoreView, tags: Seq<String>, file: Seq<char>) -> nat
    decreases tags.len(),
{
    if tags.len() == 0 {
        0
    } else {
        tag_count(store, tags.drop_last(), file) + if store[tags.last()@].contains_key(file) {
            1nat
        } else {
            0nat
        }
    }
}

/// The filenames that stand under some tag of `store`.
pub open spec fn all_files(store: StoreView) -> Set<Seq<char>> {
    Set::new(|f: Seq<char>| exists|t: Seq<char>| store.contains_key(t) && #[trigger] store[t].contains_key(f))
}

/// The store that a list of records stands for. A record is a tag's name
/// with the tag's files, each a filename with a canonical path; a later
/// record replaces an earlier record of the same name.
pub open spec fn store_of(records: Seq<(String, Vec<(String, String)>)>) -> StoreView
    decreases records.len(),
{
    if records.len() == 0 {
        Map::empty()
    } else {
        store_of(records.drop_last()).insert(records.last().0@, files_of(records.last().1@))
    }
}

/// Whether no tag name stands twice in `records`.
pub open spec fn tag_names_distinct(records: Seq<(String, Vec<(String, String)>)>) -> bool {
    forall|i: int, j: int|
        0 <= i < j < records.len() ==> (#[trigger] records[i]).0@ != (#[trigger] records[j]).0@
}

/// A list without repeated tag names stands for the store that holds each
/// of its records and nothing else.
pub proof fn lemma_store_of(records: Seq<(String, Vec<(String, String)>)>)
    requires
        tag_names_distinct(records),
    ensures
        forall|i: int|
            0 <= i < records.len() ==> store_of(records).contains_key((#[trigger] records[i]).0@)
                && store_of(records)[records[i].0@] == files_of(records[i].1@),
        forall|k: Seq<char>|
            store_of(records).contains_key(k) ==> exists|i: int|
                0 <= i < records.len() && (#[trigger] records[i]).0@ == k,
    decreases records.len(),
{
    if records.len() > 0 {
        let rest = records.drop_last();
        let last = records.len() - 1;
        assert forall|i: int, j: int| 0 <= i < j < rest.len() implies (#[trigger] rest[i]).0@ != (
        #[trigger] rest[j]).0@ by {
            assert(rest[i] == records[i] && rest[j] == records[j]);
        }
        lemma_store_of(rest);
        assert forall|i: int| 0 <= i < records.len() implies store_of(records).contains_key(
            (#[trigger] records[i]).0@,
        ) && store_of(records)[records[i].0@] == files_of(records[i].1@) by {
            if i < last {
                assert(rest[i] == records[i]);
                assert(records[i].0@ != records[last].0@);
            }
        }
        assert forall|k: Seq<char>| store_of(records).contains_key(k) implies exists|i: int|
            0 <= i < records.len() && (#[trigger] records[i]).0@ == k by {
            if k == records[last].0@ {
                assert(records[last].0@ == k);
            } else {
                assert(store_of(rest).contains_key(k));
                let i = choose|i: int| 0 <= i < rest.len() && (#[trigger] rest[i]).0@ == k;
                assert(records[i] == rest[i]);
            }
        }
    }
}

/// One tag of the store, under its name.
#[derive(Debug)]
struct TagEntry {
    name: String,
    tag: Tag,
}

/// The tags of a store, each under its name. A tag is created once and
/// stays; files enter and leave it.
#[derive(Debug)]
pub struct Filesystem {
    tags: Vec<TagEntry>,
}

spec fn slot(tags: Seq<TagEntry>, k: Seq<char>, i: int) -> bool {
    0 <= i < tags.len() && tags[i].name@ == k
}

spec fn slot_of(tags: Seq<TagEntry>, k: Seq<char>) -> int {
    choose|i: int| slot(tags, k, i)
}

spec fn distinct(tags: Seq<TagEntry>) -> bool {
    forall|i: int, j: int| 0 <= i < j < tags.len() ==> !slot(tags, tags[i].name@, j)
}

spec fn store_view(tags: Seq<TagEntry>) -> StoreView {
    Map::new(
        |k: Seq<char>| exists|i: int| slot(tags, k, i),
        |k: Seq<char>| tags[slot_of(tags, k)].tag@,
    )
}

proof fn lemma_store_entry(tags: Seq<TagEntry>, i: int)
    requires
        distinct(tags),
        0 <= i < tags.len(),
    ensures
        store_view(tags).contains_key(tags[i].name@),
        store_view(tags)[tags[i].name@] == tags[i].tag@,
{
    let k = tags[i].name@;
    assert(slot(tags, k, i));
    let j = slot_of(tags, k);
    assert(slot(tags, k, j));
    assert(i == j);
}

proof fn lemma_store_key(tags: Seq<TagEntry>, k: Seq<char>)
    requires
        distinct(tags),
        store_view(tags).contains_key(k),
    ensures
        slot(tags, k, slot_of(tags, k)),
        store_view(tags)[k] == tags[slot_of(tags, k)].tag@,
{
}

/// A store whose tags keep their names and places is the map that holds,
/// under each name, what the tag in that place holds.
proof fn lemma_same_places(before: Seq<TagEntry>, after: Seq<TagEntry>, expected: StoreView)
    requires
        distinct(before),
        before.len() == after.len(),
        forall|j: int| 0 <= j < before.len() ==> #[trigger] after[j].name@ == before[j].name@,
        forall|k: Seq<char>| expected.contains_key(k) == store_view(before).contains_key(k),
        forall|j: int|
            0 <= j < before.len() ==> expected[before[j].name@] == (#[trigger] after[j]).tag@,
    ensures
        distinct(after),
        store_view(after) == expected,
{
    assert forall|i: int, j: int| 0 <= i < j < after.len() implies !slot(after, after[i].name@, j) by {
        assert(after[i].name@ == before[i].name@);
        assert(after[j].name@ == before[j].name@);
        assert(!slot(before, before[i].name@, j));
    }
    assert forall|k: Seq<char>| store_view(after).contains_key(k) == expected.contains_key(k) by {
        if store_view(after).contains_key(k) {
            lemma_store_key(after, k);
            let j = slot_of(after, k);
            assert(after[j].name@ == before[j].name@);
            assert(slot(before, k, j));
        }
        if store_view(before).contains_key(k) {
            lemma_store_key(before, k);
            let j = slot_of(before, k);
            assert(after[j].name@ == before[j].name@);
            assert(slot(after, k, j));
        }
    }
    assert forall|k: Seq<char>| store_view(after).contains_key(k) implies store_view(after)[k]
        == expected[k] by {
        lemma_store_key(after, k);
        let j = slot_of(after, k);
        assert(after[j].name@ == before[j].name@);
    }
    assert(store_view(after) =~= expected);
}

/// Taking one more element of `tags` adds the name it reads.
proof fn lemma_named_step(tags: Seq<String>, from: int, to: int)
    requires
        0 <= from <= to < tags.len(),
    ensures
        forall|t: Seq<char>|
            named(tags, from, to + 1).contains(t) == (named(tags, from, to).contains(t) || tags[to]@
                == t),
{
    assert forall|t: Seq<char>|
        named(tags, from, to + 1).contains(t) == (named(tags, from, to).contains(t) || tags[to]@
            == t) by {
        if named(tags, from, to).contains(t) {
            let i = choose|i: int| from <= i < to && (#[trigger] tags[i])@ == t;
            assert(from <= i < to + 1 && tags[i]@ == t);
        }
        if tags[to]@ == t {
            assert(from <= to < to + 1 && tags[to]@ == t);
        }
    }
}

fn find_tag(tags: &Vec<TagEntry>, name: &String) -> (at: Option<usize>)
    ensures
        match at {
            Some(i) => slot(tags@, name@, i as int),
            None => !store_view(tags@).contains_key(name@),
        },
{
    let mut i: usize = 0;
    while i < tags.len()
        invariant
            i <= tags.len(),
            forall|j: int| 0 <= j < i ==> !slot(tags@, name@, j),
        decreases tags.len() - i,
    {
        if tags[i].name == *name {
            return Some(i);
        }
        i = i + 1;
    }
    None
}

impl Filesystem {
    /// No tag name occurs twice.
    #[verifier::type_invariant]
    spec fn names_distinct(&self) -> bool {
        distinct(self.tags@)
    }

    /// The store as a map from tag name to the tag's files.
    pub closed spec fn view(&self) -> StoreView {
        store_view(self.tags@)
    }

    /// Returns a store without tags.
    pub fn new() -> (store: Filesystem)
        ensures
            store@ == Map::<Seq<char>, TagView>::empty(),
    {
        let store = Filesystem { tags: Vec::new() };
        assert(store@ =~= Map::<Seq<char>, TagView>::empty()) by {
            assert forall|k: Seq<char>| !store@.contains_key(k) by {
                if store@.contains_key(k) {
                    assert(slot(store.tags@, k, slot_of(store.tags@, k)));
                }
            }
        }
        store
    }

    /// Adds an empty tag under `name`. Where the store holds a tag of that
    /// name already, nothing changes and `AlreadyExists` comes back.
    pub fn create_tag(&mut self, name: &str) -> (outcome: Result<(), StoreError>)
        ensures
            outcome == create_outcome(old(self)@, name@),
            final(self)@ == created(old(self)@, name@),
    {
        proof {
            use_type_invariant(&*self);
        }
        let key = name.to_owned();
        match find_tag(&self.tags, &key) {
            Some(_) => Err(StoreError::AlreadyExists),
            None => {
                self.put_tag(key, Tag::new());
                Ok(())
            },
        }
    }

    /// Puts `tag` under `name`, in place of a tag that stood there.
    fn put_tag(&mut self, name: String, tag: Tag)
        ensures
            final(self)@ == old(self)@.insert(name@, tag@),
    {
        proof {
            use_type_invariant(&*self);
        }
        let ghost before = self.tags@;
        let ghost expected = store_view(before).insert(name@, tag@);
        let ghost k = name@;
        let found = find_tag(&self.tags, &name);
        let entry = TagEntry { name, tag };
        let mut tags: Vec<TagEntry> = Vec::new();
        core::mem::swap(&mut self.tags, &mut tags);
        match found {
            Some(at) => {
                tags.set(at, entry);
                proof {
                    assert forall|j: int| 0 <= j < before.len() implies expected[before[j].name@] == (
                    #[trigger] tags@[j]).tag@ by {
                        lemma_store_entry(before, j);
                        if j < at {
                            assert(!slot(before, before[j].name@, at as int));
                        } else if j > at {
                            assert(!slot(before, before[at as int].name@, j));
                        }
                    }
                    lemma_store_entry(before, at as int);
                    lemma_same_places(before, tags@, expected);
                }
            },
            None => {
                tags.push(entry);
                proof {
                    let after = tags@;
                    let last = before.len() as int;
                    assert forall|i: int, j: int| 0 <= i < j < after.len() implies !slot(
                        after,
                        after[i].name@,
                        j,
                    ) by {
                        if j < last {
                            assert(!slot(before, before[i].name@, j));
                        } else {
                            assert(slot(before, before[i].name@, i));
                        }
                    }
                    assert forall|q: Seq<char>| store_view(after).contains_key(q)
                        == expected.contains_key(q) by {
                        if store_view(after).contains_key(q) {
                            lemma_store_key(after, q);
                            let j = slot_of(after, q);
                            if j < last {
                                assert(slot(before, q, j));
                            }
                        }
                        if store_view(before).contains_key(q) {
                            lemma_store_key(before, q);
                            assert(slot(after, q, slot_of(before, q)));
                        }
                        if q == k {
                            assert(slot(after, q, last));
                        }
                    }
                    assert forall|q: Seq<char>| store_view(after).contains_key(q) implies store_view(
                        after,
                    )[q] == expected[q] by {
                        lemma_store_key(after, q);
                        let j = slot_of(after, q);
                        if j < last {
                            assert(slot(before, q, j));
                            lemma_store_entry(before, j);
                        }
                    }
                    assert(store_view(after) =~= expected);
                }
            },
        }
        core::mem::swap(&mut self.tags, &mut tags);
    }

    /// Records a file in each of the named tags. `tags_vec` holds the file's
    /// path first and the tag names after it; `canonical` is the canonical
    /// absolute path of the file, or `None` where the path did not resolve.
    ///
    /// Where the path did not resolve, nothing changes and `PathUnresolvable`
    /// comes back. Otherwise the file enters every named tag that the store
    /// holds, and the names that are no tag of the store come back in order.
    pub fn add_tags_to_file(&mut self, tags_vec: Vec<String>, canonical: Option<String>) -> (outcome:
        Result<Vec<String>, StoreError>)
        requires
            tags_vec@.len() > 0,
        ensures
            match outcome {
                Ok(unknown) => canonical is Some && final(self)@ == associated(
                    old(self)@,
                    named(tags_vec@, 1, tags_vec@.len() as int),
                    filename_of(tags_vec@[0]@),
                    canonical.unwrap()@,
                ) && views_of(unknown@) == unknown_names(
                    old(self)@,
                    tags_vec@,
                    1,
                    tags_vec@.len() as int,
                ),
                Err(e) => canonical is None && e == StoreError::PathUnresolvable && final(self)@
                    == old(self)@,
            },
    {
        let resolved = match canonical {
            Some(resolved) => resolved,
            None => {
                return Err(StoreError::PathUnresolvable);
            },
        };
        proof {
            use_type_invariant(&*self);
        }
        let ghost before = self.tags@;
        let ghost file = filename_of(tags_vec@[0]@);
        let mut tags: Vec<TagEntry> = Vec::new();
        core::mem::swap(&mut self.tags, &mut tags);
        let mut unknown: Vec<String> = Vec::new();
        let mut i: usize = 1;
        while i < tags_vec.len()
            invariant
                1 <= i <= tags_vec.len(),
                distinct(before),
                tags@.len() == before.len(),
                forall|j: int| 0 <= j < before.len() ==> #[trigger] tags@[j].name@ == before[j].name@,
                forall|j: int|
                    0 <= j < before.len() ==> (#[trigger] tags@[j]).tag@ == if named(
                        tags_vec@,
                        1,
                        i as int,
                    ).contains(before[j].name@) {
                        before[j].tag@.insert(file, resolved@)
                    } else {
                        before[j].tag@
                    },
                views_of(unknown@) == unknown_names(store_view(before), tags_vec@, 1, i as int),
                file == filename_of(tags_vec@[0]@),
            decreases tags_vec.len() - i,
        {
            let ghost prior = tags@;
            let ghost reported = unknown@;
            let found = find_tag(&tags, &tags_vec[i]);
            match found {
                Some(at) => {
                    tags[at].tag.add_file(tags_vec[0].as_str(), resolved.as_str());
                },
                None => {
                    unknown.push(tags_vec[i].clone());
                },
            }
            proof {
                let k = tags_vec@[i as int]@;
                lemma_named_step(tags_vec@, 1, i as int);
                match found {
                    Some(at) => {
                        assert(slot(before, k, at as int));
                        lemma_store_entry(before, at as int);
                        assert(unknown@ == reported);
                        assert forall|j: int| 0 <= j < before.len() implies (#[trigger] tags@[j]).tag@
                            == if named(tags_vec@, 1, i + 1).contains(before[j].name@) {
                            before[j].tag@.insert(file, resolved@)
                        } else {
                            before[j].tag@
                        } by {
                            if j == at {
                                assert(before[j].tag@.insert(file, resolved@).insert(file, resolved@)
                                    =~= before[j].tag@.insert(file, resolved@));
                            } else {
                                assert(tags@[j] == prior[j]);
                                if j < at {
                                    assert(!slot(before, before[j].name@, at as int));
                                } else {
                                    assert(!slot(before, before[at as int].name@, j));
                                }
                            }
                        }
                    },
                    None => {
                        assert(!store_view(before).contains_key(k)) by {
                            if store_view(before).contains_key(k) {
                                lemma_store_key(before, k);
                                assert(slot(prior, k, slot_of(before, k)));
                            }
                        }
                        assert(views_of(unknown@) =~= views_of(reported).push(k));
                        assert forall|j: int| 0 <= j < before.len() implies before[j].name@ != k by {
                            lemma_store_entry(before, j);
                        }
                    },
                }
            }
            i = i + 1;
        }
        proof {
            let expected = associated(
                store_view(before),
                named(tags_vec@, 1, tags_vec@.len() as int),
                file,
                resolved@,
            );
            assert forall|j: int| 0 <= j < before.len() implies expected[before[j].name@] == (
            #[trigger] tags@[j]).tag@ by {
                lemma_store_entry(before, j);
            }
            lemma_same_places(before, tags@, expected);
        }
        core::mem::swap(&mut self.tags, &mut tags);
        Ok(unknown)
    }

    /// Takes a file out of each of the named tags. `tags_vec` holds the
    /// file's path first and the tag names after it. The file is found by
    /// its filename; a tag that does not hold it stays as it is. The names
    /// that are no tag of the store come back in order.
    pub fn remove_tags_from_file(&mut self, tags_vec: Vec<String>) -> (unknown: Vec<String>)
        requires
            tags_vec@.len() > 0,
        ensures
            final(self)@ == disassociated(
                old(self)@,
                named(tags_vec@, 1, tags_vec@.len() as int),
                filename_of(tags_vec@[0]@),
            ),
            views_of(unknown@) == unknown_names(old(self)@, tags_vec@, 1, tags_vec@.len() as int),
    {
        proof {
            use_type_invariant(&*self);
        }
        let ghost before = self.tags@;
        let ghost file = filename_of(tags_vec@[0]@);
        let mut tags: Vec<TagEntry> = Vec::new();
        core::mem::swap(&mut self.tags, &mut tags);
        let mut unknown: Vec<String> = Vec::new();
        let mut i: usize = 1;
        while i < tags_vec.len()
            invariant
                1 <= i <= tags_vec.len(),
                distinct(before),
                tags@.len() == before.len(),
                forall|j: int| 0 <= j < before.len() ==> #[trigger] tags@[j].name@ == before[j].name@,
                forall|j: int|
                    0 <= j < before.len() ==> (#[trigger] tags@[j]).tag@ == if named(
                        tags_vec@,
                        1,
                        i as int,
                    ).contains(before[j].name@) {
                        before[j].tag@.remove(file)
                    } else {
                        before[j].tag@
                    },
                views_of(unknown@) == unknown_names(store_view(before), tags_vec@, 1, i as int),
                file == filename_of(tags_vec@[0]@),
            decreases tags_vec.len() - i,
        {
            let ghost prior = tags@;
            let ghost reported = unknown@;
            let found = find_tag(&tags, &tags_vec[i]);
            match found {
                Some(at) => {
                    tags[at].tag.remove_file(tags_vec[0].as_str());
                },
                None => {
                    unknown.push(tags_vec[i].clone());
                },
            }
            proof {
                let k = tags_vec@[i as int]@;
                lemma_named_step(tags_vec@, 1, i as int);
                match found {
                    Some(at) => {
                        assert(slot(before, k, at as int));
                        lemma_store_entry(before, at as int);
                        assert(unknown@ == reported);
                        assert forall|j: int| 0 <= j < before.len() implies (#[trigger] tags@[j]).tag@
                            == if named(tags_vec@, 1, i + 1).contains(before[j].name@) {
                            before[j].tag@.remove(file)
                        } else {
                            before[j].tag@
                        } by {
                            if j == at {
                                assert(before[j].tag@.remove(file).remove(file)
                                    =~= before[j].tag@.remove(file));
                            } else {
                                assert(tags@[j] == prior[j]);
                                if j < at {
                                    assert(!slot(before, before[j].name@, at as int));
                                } else {
                                    assert(!slot(before, before[at as int].name@, j));
                                }
                            }
                        }
                    },
                    None => {
                        assert(!store_view(before).contains_key(k)) by {
                            if store_view(before).contains_key(k) {
                                lemma_store_key(before, k);
                                assert(slot(prior, k, slot_of(before, k)));
                            }
                        }
                        assert(views_of(unknown@) =~= views_of(reported).push(k));
                        assert forall|j: int| 0 <= j < before.len() implies before[j].name@ != k by {
                            lemma_store_entry(before, j);
                        }
                    },
                }
            }
            i = i + 1;
        }
        proof {
            let expected = disassociated(
                store_view(before),
                named(tags_vec@, 1, tags_vec@.len() as int),
                file,
            );
            assert forall|j: int| 0 <= j < before.len() implies expected[before[j].name@] == (
            #[trigger] tags@[j]).tag@ by {
                lemma_store_entry(before, j);
            }
            lemma_same_places(before, tags@, expected);
        }
        core::mem::swap(&mut self.tags, &mut tags);
        unknown
    }

    /// Takes a file out of every tag of the store. `tags_vec` holds the
    /// file's path first; what follows it plays no part.
    pub fn untag_file(&mut self, tags_vec: Vec<String>)
        requires
            tags_vec@.len() > 0,
        ensures
            final(self)@ == disassociated(
                old(self)@,
                old(self)@.dom(),
                filename_of(tags_vec@[0]@),
            ),
    {
        proof {
            use_type_invariant(&*self);
        }
        let ghost before = self.tags@;
        let ghost file = filename_of(tags_vec@[0]@);
        let mut tags: Vec<TagEntry> = Vec::new();
        core::mem::swap(&mut self.tags, &mut tags);
        let mut i: usize = 0;
        while i < tags.len()
            invariant
                i <= tags@.len(),
                tags@.len() == before.len(),
                tags_vec@.len() > 0,
                file == filename_of(tags_vec@[0]@),
                forall|j: int| 0 <= j < before.len() ==> #[trigger] tags@[j].name@ == before[j].name@,
                forall|j: int| 0 <= j < i ==> (#[trigger] tags@[j]).tag@ == before[j].tag@.remove(file),
                forall|j: int| i <= j < before.len() ==> (#[trigger] tags@[j]).tag@ == before[j].tag@,
            decreases tags.len() - i,
        {
            let ghost prior = tags@;
            tags[i].tag.remove_file(tags_vec[0].as_str());
            proof {
                assert forall|j: int| 0 <= j < before.len() && j != i implies tags@[j] == prior[j] by {}
            }
            i = i + 1;
        }
        proof {
            let expected = disassociated(store_view(before), store_view(before).dom(), file);
            assert forall|j: int| 0 <= j < before.len() implies expected[before[j].name@] == (
            #[trigger] tags@[j]).tag@ by {
                lemma_store_entry(before, j);
            }
            lemma_same_places(before, tags@, expected);
        }
        core::mem::swap(&mut self.tags, &mut tags);
    }

    /// Returns the tag under `name`, if the store holds one.
    pub fn tag(&self, name: &str) -> (found: Option<&Tag>)
        ensures
            match found {
                Some(tag) => self@.contains_key(name@) && tag@ == self@[name@],
                None => !self@.contains_key(name@),
            },
    {
        proof {
            use_type_invariant(self);
        }
        let key = name.to_owned();
        match find_tag(&self.tags, &key) {
            Some(i) => {
                proof {
                    lemma_store_entry(self.tags@, i as int);
                }
                Some(&self.tags[i].tag)
            },
            None => None,
        }
    }

    /// Returns the names of the store's tags, each once, or `None` where the
    /// store holds no tag.
    pub fn return_tags(&self) -> (tags: Option<Vec<String>>)
        ensures
            match tags {
                Some(names) => names@.len() > 0 && lists_exactly(names@, self@.dom()),
                None => self@ == Map::<Seq<char>, TagView>::empty(),
            },
    {
        proof {
            use_type_invariant(self);
        }
        let mut names: Vec<String> = Vec::new();
        let mut i: usize = 0;
        while i < self.tags.len()
            invariant
                i <= self.tags.len(),
                names@.len() == i,
                forall|j: int| 0 <= j < i ==> (#[trigger] names@[j])@ == self.tags@[j].name@,
            decreases self.tags.len() - i,
        {
            names.push(self.tags[i].name.clone());
            i = i + 1;
        }
        proof {
            assert forall|a: int, b: int| 0 <= a < b < names@.len() implies (#[trigger] names@[a])@ != (
            #[trigger] names@[b])@ by {
                assert(!slot(self.tags@, self.tags@[a].name@, b));
            }
            assert forall|j: int| 0 <= j < names@.len() implies self@.dom().contains(
                (#[trigger] names@[j])@,
            ) by {
                lemma_store_entry(self.tags@, j);
            }
            assert forall|k: Seq<char>| self@.dom().contains(k) implies exists|j: int|
                0 <= j < names@.len() && (#[trigger] names@[j])@ == k by {
                lemma_store_key(self.tags@, k);
                assert(names@[slot_of(self.tags@, k)]@ == k);
            }
        }
        if names.len() > 0 {
            Some(names)
        } else {
            assert(self@ =~= Map::<Seq<char>, TagView>::empty());
            None
        }
    }

    /// Returns the filenames that stand under every one of the tags that
    /// `tags_vec` names, each once, in no particular order. Where a name is
    /// no tag of the store, nothing is computed and `NotFound` comes back.
    pub fn filter(&self, tags_vec: Vec<String>) -> (outcome: Result<Vec<String>, StoreError>)
        ensures
            match outcome {
                Ok(files) => all_known(self@, tags_vec@) && lists_exactly(
                    files@,
                    carrying_all(self@, tags_vec@),
                ),
                Err(e) => e == StoreError::NotFound && !all_known(self@, tags_vec@),
            },
    {
        proof {
            use_type_invariant(self);
        }
        let mut places: Vec<usize> = Vec::new();
        let mut i: usize = 0;
        while i < tags_vec.len()
            invariant
                i <= tags_vec.len(),
                places@.len() == i,
                distinct(self.tags@),
                forall|j: int| 0 <= j < i ==> slot(self.tags@, (#[trigger] tags_vec@[j])@, places@[j] as int),
                forall|j: int| 0 <= j < i ==> self@.contains_key((#[trigger] tags_vec@[j])@),
            decreases tags_vec.len() - i,
        {
            match find_tag(&self.tags, &tags_vec[i]) {
                Some(at) => {
                    proof {
                        lemma_store_entry(self.tags@, at as int);
                    }
                    places.push(at);
                },
                None => {
                    return Err(StoreError::NotFound);
                },
            }
            i = i + 1;
        }
        let mut files: Vec<String> = Vec::new();
        if tags_vec.len() == 0 {
            return Ok(files);
        }
        let ghost wanted = carrying_all(self@, tags_vec@);
        assert(slot(self.tags@, tags_vec@[0]@, places@[0] as int));
        let candidates = self.tags[places[0]].tag.filenames();
        proof {
            lemma_store_entry(self.tags@, places@[0] as int);
        }
        let mut c: usize = 0;
        while c < candidates.len()
            invariant
                c <= candidates.len(),
                tags_vec@.len() > 0,
                places@.len() == tags_vec@.len(),
                distinct(self.tags@),
                wanted == carrying_all(self@, tags_vec@),
                forall|j: int|
                    0 <= j < tags_vec@.len() ==> slot(
                        self.tags@,
                        (#[trigger] tags_vec@[j])@,
                        places@[j] as int,
                    ),
                lists_exactly(candidates@, self@[tags_vec@[0]@].dom()),
                files@.len() <= c,
                forall|a: int|
                    0 <= a < files@.len() ==> wanted.contains((#[trigger] files@[a])@) && exists|
                        b: int,
                    |
                        0 <= b < c && (#[trigger] candidates@[b])@ == files@[a]@,
                forall|a: int, b: int|
                    0 <= a < b < files@.len() ==> (#[trigger] files@[a])@ != (#[trigger] files@[b])@,
                forall|b: int|
                    0 <= b < c && wanted.contains((#[trigger] candidates@[b])@) ==> names_contain(
                        files@,
                        candidates@[b]@,
                    ),
            decreases candidates.len() - c,
        {
            let ghost f = candidates@[c as int]@;
            let mut everywhere = true;
            let mut t: usize = 1;
            while everywhere && t < tags_vec.len()
                invariant
                    1 <= t <= tags_vec.len(),
                    c < candidates.len(),
                    f == candidates@[c as int]@,
                    places@.len() == tags_vec@.len(),
                    distinct(self.tags@),
                    forall|j: int|
                        0 <= j < tags_vec@.len() ==> slot(
                            self.tags@,
                            (#[trigger] tags_vec@[j])@,
                            places@[j] as int,
                        ),
                    everywhere ==> forall|j: int|
                        1 <= j < t ==> self@[(#[trigger] tags_vec@[j])@].contains_key(f),
                    !everywhere ==> !self@[tags_vec@[t - 1]@].contains_key(f),
                decreases tags_vec.len() - t + if everywhere { 1nat } else { 0nat },
            {
                proof {
                    assert(slot(self.tags@, tags_vec@[t as int]@, places@[t as int] as int));
                    lemma_store_entry(self.tags@, places@[t as int] as int);
                }
                if self.tags[places[t]].tag.contains(candidates[c].as_str()) {
                    t = t + 1;
                } else {
                    everywhere = false;
                    t = t + 1;
                }
            }
            let ghost listed = files@;
            if everywhere {
                files.push(candidates[c].clone());
                proof {
                    assert forall|j: int| 0 <= j < tags_vec@.len() implies self@[(
                    #[trigger] tags_vec@[j])@].contains_key(f) by {}
                    assert(wanted.contains(f));
                    assert forall|b: int|
                        0 <= b < c + 1 && wanted.contains(
                            (#[trigger] candidates@[b])@,
                        ) implies names_contain(files@, candidates@[b]@) by {
                        if b < c {
                            let a = choose|a: int|
                                0 <= a < listed.len() && (#[trigger] listed[a])@ == candidates@[b]@;
                            assert(files@[a] == listed[a]);
                        } else {
                            assert(files@[listed.len() as int]@ == f);
                        }
                    }
                    assert forall|a: int| 0 <= a < files@.len() implies wanted.contains(
                        (#[trigger] files@[a])@,
                    ) && exists|b: int| 0 <= b < c + 1 && (#[trigger] candidates@[b])@ == files@[a]@ by {
                        if a < listed.len() {
                            assert(files@[a] == listed[a]);
                            let b = choose|b: int|
                                0 <= b < c && (#[trigger] candidates@[b])@ == listed[a]@;
                            assert(0 <= b < c + 1 && candidates@[b]@ == files@[a]@);
                        } else {
                            assert(0 <= c < c + 1 && candidates@[c as int]@ == files@[a]@);
                        }
                    }
                    assert forall|a: int, b: int| 0 <= a < b < files@.len() implies (
                    #[trigger] files@[a])@ != (#[trigger] files@[b])@ by {
                        assert(files@[a] == listed[a]);
                        if b == listed.len() {
                            let d = choose|d: int|
                                0 <= d < c && (#[trigger] candidates@[d])@ == listed[a]@;
                            assert(candidates@[d]@ != candidates@[c as int]@);
                        } else {
                            assert(files@[b] == listed[b]);
                        }
                    }
                }
            } else {
                proof {
                    assert(!wanted.contains(f));
                    assert forall|a: int| 0 <= a < files@.len() implies wanted.contains(
                        (#[trigger] files@[a])@,
                    ) && exists|b: int| 0 <= b < c + 1 && (#[trigger] candidates@[b])@ == files@[a]@ by {
                        let b = choose|b: int|
                            0 <= b < c && (#[trigger] candidates@[b])@ == files@[a]@;
                        assert(0 <= b < c + 1 && candidates@[b]@ == files@[a]@);
                    }
                }
            }
            c = c + 1;
        }
        proof {
            assert forall|k: Seq<char>| wanted.contains(k) implies exists|a: int|
                0 <= a < files@.len() && (#[trigger] files@[a])@ == k by {
                assert(self@[tags_vec@[0]@].contains_key(k));
                let b = choose|b: int| 0 <= b < candidates@.len() && (#[trigger] candidates@[b])@ == k;
                assert(names_contain(files@, candidates@[b]@));
            }
        }
        Ok(files)
    }

    /// Returns the filenames that stand under some tag of the store, each
    /// once, in no particular order, or `None` where no tag holds a file.
    pub fn return_files(&self) -> (files: Option<Vec<String>>)
        ensures
            match files {
                Some(names) => names@.len() > 0 && lists_exactly(names@, all_files(self@)),
                None => all_files(self@) == Set::<Seq<char>>::empty(),
            },
    {
        proof {
            use_type_invariant(self);
        }
        let ghost wanted = all_files(self@);
        let mut files: Vec<String> = Vec::new();
        let mut t: usize = 0;
        while t < self.tags.len()
            invariant
                t <= self.tags.len(),
                distinct(self.tags@),
                wanted == all_files(self@),
                forall|a: int| 0 <= a < files@.len() ==> wanted.contains((#[trigger] files@[a])@),
                forall|a: int, b: int|
                    0 <= a < b < files@.len() ==> (#[trigger] files@[a])@ != (#[trigger] files@[b])@,
                forall|j: int, f: Seq<char>|
                    0 <= j < t && #[trigger] self.tags@[j].tag@.contains_key(f) ==> names_contain(
                        files@,
                        f,
                    ),
            decreases self.tags.len() - t,
        {
            let names = self.tags[t].tag.filenames();
            let ghost held = self.tags@[t as int].tag@;
            proof {
                lemma_store_entry(self.tags@, t as int);
            }
            let mut n: usize = 0;
            while n < names.len()
                invariant
                    n <= names.len(),
                    t < self.tags.len(),
                    held == self.tags@[t as int].tag@,
                    self@.contains_key(self.tags@[t as int].name@),
                    self@[self.tags@[t as int].name@] == held,
                    lists_exactly(names@, held.dom()),
                    wanted == all_files(self@),
                    forall|a: int| 0 <= a < files@.len() ==> wanted.contains((#[trigger] files@[a])@),
                    forall|a: int, b: int|
                        0 <= a < b < files@.len() ==> (#[trigger] files@[a])@ != (
                        #[trigger] files@[b])@,
                    forall|j: int, f: Seq<char>|
                        0 <= j < t && #[trigger] self.tags@[j].tag@.contains_key(f)
                            ==> names_contain(files@, f),
                    forall|b: int| 0 <= b < n ==> names_contain(files@, (#[trigger] names@[b])@),
                decreases names.len() - n,
            {
                let ghost listed = files@;
                if !contains_name(&files, &names[n]) {
                    files.push(names[n].clone());
                    proof {
                        let f = names@[n as int]@;
                        assert(held.dom().contains(f));
                        assert(self@[self.tags@[t as int].name@].contains_key(f));
                        assert(wanted.contains(f));
                        assert(files@[listed.len() as int]@ == f);
                        assert forall|k: Seq<char>| names_contain(listed, k) implies names_contain(
                            files@,
                            k,
                        ) by {
                            let a = choose|a: int| 0 <= a < listed.len() && (#[trigger] listed[a])@ == k;
                            assert(files@[a] == listed[a]);
                        }
                        assert forall|a: int, b: int| 0 <= a < b < files@.len() implies (
                        #[trigger] files@[a])@ != (#[trigger] files@[b])@ by {
                            assert(files@[a] == listed[a]);
                            if b < listed.len() {
                                assert(files@[b] == listed[b]);
                            }
                        }
                    }
                }
                n = n + 1;
            }
            proof {
                assert forall|j: int, f: Seq<char>|
                    0 <= j < t + 1 && #[trigger] self.tags@[j].tag@.contains_key(
                        f,
                    ) implies names_contain(files@, f) by {
                    if j == t {
                        assert(held.dom().contains(f));
                        let b = choose|b: int| 0 <= b < names@.len() && (#[trigger] names@[b])@ == f;
                        assert(names_contain(files@, names@[b]@));
                    }
                }
            }
            t = t + 1;
        }
        proof {
            assert forall|k: Seq<char>| wanted.contains(k) implies names_contain(files@, k) by {
                let name = choose|name: Seq<char>|
                    self@.contains_key(name) && #[trigger] self@[name].contains_key(k);
                lemma_store_key(self.tags@, name);
                assert(self.tags@[slot_of(self.tags@, name)].tag@.contains_key(k));
            }
        }
        if files.len() > 0 {
            Some(files)
        } else {
            assert(wanted =~= Set::<Seq<char>>::empty()) by {
                assert forall|k: Seq<char>| !wanted.contains(k) by {
                    if wanted.contains(k) {
                        assert(names_contain(files@, k));
                    }
                }
            }
            None
        }
    }

    /// Returns the store as a list of records, one for each tag and no tag
    /// name twice: what is written when the store is saved.
    pub fn records(&self) -> (list: Vec<(String, Vec<(String, String)>)>)
        ensures
            tag_names_distinct(list@),
            store_of(list@) == self@,
    {
        proof {
            use_type_invariant(self);
        }
        let mut list: Vec<(String, Vec<(String, String)>)> = Vec::new();
        let mut i: usize = 0;
        while i < self.tags.len()
            invariant
                i <= self.tags.len(),
                list@.len() == i,
                forall|j: int|
                    0 <= j < i ==> (#[trigger] list@[j]).0@ == self.tags@[j].name@ && files_of(
                        list@[j].1@,
                    ) == self.tags@[j].tag@,
            decreases self.tags.len() - i,
        {
            list.push((self.tags[i].name.clone(), self.tags[i].tag.entries()));
            i = i + 1;
        }
        proof {
            assert forall|a: int, b: int| 0 <= a < b < list@.len() implies (#[trigger] list@[a]).0@ != (
            #[trigger] list@[b]).0@ by {
                assert(!slot(self.tags@, self.tags@[a].name@, b));
            }
            lemma_store_of(list@);
            assert forall|k: Seq<char>| store_of(list@).contains_key(k) == self@.contains_key(k) by {
                if store_of(list@).contains_key(k) {
                    let j = choose|j: int| 0 <= j < list@.len() && (#[trigger] list@[j]).0@ == k;
                    lemma_store_entry(self.tags@, j);
                }
                if self@.contains_key(k) {
                    lemma_store_key(self.tags@, k);
                    assert(list@[slot_of(self.tags@, k)].0@ == k);
                }
            }
            assert forall|k: Seq<char>| self@.contains_key(k) implies store_of(list@)[k]
                == self@[k] by {
                lemma_store_key(self.tags@, k);
                assert(list@[slot_of(self.tags@, k)].0@ == k);
            }
            assert(store_of(list@) =~= self@);
        }
        list
    }

    /// Returns the store that `records` stands for: what is read when a
    /// saved store is loaded.
    pub fn from_records(records: &Vec<(String, Vec<(String, String)>)>) -> (store: Filesystem)
        ensures
            store@ == store_of(records@),
    {
        let mut store = Filesystem::new();
        let mut i: usize = 0;
        while i < records.len()
            invariant
                i <= records.len(),
                store@ == store_of(records@.take(i as int)),
            decreases records.len() - i,
        {
            proof {
                assert(records@.take(i + 1).drop_last() == records@.take(i as int));
            }
            store.put_tag(records[i].0.clone(), Tag::from_entries(&records[i].1));
            i = i + 1;
        }
        proof {
            assert(records@.take(records@.len() as int) == records@);
        }
        store
    }

    /// Returns whether every tag of `self` is a tag of `other` that holds
    /// the same files.
    pub fn included_in(&self, other: &Filesystem) -> (within: bool)
        ensures
            within == self@.submap_of(other@),
    {
        proof {
            use_type_invariant(self);
            use_type_invariant(other);
        }
        let mut i: usize = 0;
        while i < self.tags.len()
            invariant
                i <= self.tags.len(),
                distinct(self.tags@),
                distinct(other.tags@),
                forall|j: int|
                    0 <= j < i ==> other@.contains_key(#[trigger] self.tags@[j].name@)
                        && other@[self.tags@[j].name@] == self.tags@[j].tag@,
            decreases self.tags.len() - i,
        {
            proof {
                lemma_store_entry(self.tags@, i as int);
            }
            match find_tag(&other.tags, &self.tags[i].name) {
                Some(j) => {
                    proof {
                        lemma_store_entry(other.tags@, j as int);
                    }
                    if self.tags[i].tag != other.tags[j].tag {
                        return false;
                    }
                },
                None => {
                    return false;
                },
            }
            i = i + 1;
        }
        proof {
            assert forall|k: Seq<char>| #[trigger] self@.dom().contains(k) implies #[trigger] other@.dom().contains(
                k,
            ) && self@[k] == other@[k] by {
                lemma_store_key(self.tags@, k);
                let j = slot_of(self.tags@, k);
                assert(other@.contains_key(self.tags@[j].name@));
            }
        }
        true
    }
}

impl PartialEqSpecImpl for Filesystem {
    open spec fn obeys_eq_spec() -> bool {
        true
    }

    /// Two stores are equal where they hold the same tags with the same
    /// files.
    open spec fn eq_spec(&self, other: &Filesystem) -> bool {
        self@ == other@
    }
}

impl PartialEq for Filesystem {
    fn eq(&self, other: &Filesystem) -> (same: bool) {
        let same = self.included_in(other) && other.included_in(self);
        proof {
            if same {
                assert(self@ =~= other@);
            }
        }
        same
    }
}

} // verus!
