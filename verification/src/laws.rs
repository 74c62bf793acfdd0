//! What holds of the store's operations taken together, stated over the maps
//! that their contracts speak of.

use vstd::prelude::*;
use vstd::std_specs::cmp::PartialEqSpec;
use crate::error::StoreError;
use crate::store::{
    all_files, all_known, associated, carrying_all, create_outcome, created, disassociated,
    store_of, tag_count, Filesystem, StoreView,
};

verus! {

/// Creating a tag a second time under the same name is refused, and leaves
/// the store as the first creation left it.
pub proof fn law_create_tag_twice(store: StoreView, name: Seq<char>)
    ensures
        create_outcome(created(store, name), name) == Err::<(), StoreError>(
            StoreError::AlreadyExists,
        ),
        created(created(store, name), name) == created(store, name),
{
}

/// A failed creation changes nothing.
pub proof fn law_refused_creation_keeps_store(store: StoreView, name: Seq<char>)
    requires
        create_outcome(store, name) is Err,
    ensures
        created(store, name) == store,
{
}

/// One name that is no tag of the store makes a list of names unknown,
/// whatever the other names are.
pub proof fn law_one_unknown_tag(store: StoreView, tags: Seq<String>, i: int)
    requires
        0 <= i < tags.len(),
        !store.contains_key(tags[i]@),
    ensures
        !all_known(store, tags),
{
}

/// A file stands under all of the given tags only if it stands under each:
/// the files found are within every named tag.
pub proof fn law_filter_is_intersection(store: StoreView, tags: Seq<String>, i: int, file: Seq<char>)
    requires
        0 <= i < tags.len(),
    ensures
        carrying_all(store, tags).contains(file) ==> store[tags[i]@].contains_key(file),
        !store[tags[i]@].contains_key(file) ==> !carrying_all(store, tags).contains(file),
{
    if carrying_all(store, tags).contains(file) {
        assert(store[tags[i]@].contains_key(file));
    }
}

/// A file is counted once for each of the names whose tag holds it, so the
/// count reaches the number of names exactly where every named tag holds it.
pub proof fn lemma_full_count(store: StoreView, tags: Seq<String>, file: Seq<char>)
    ensures
        tag_count(store, tags, file) <= tags.len(),
        tag_count(store, tags, file) == tags.len() <==> forall|i: int|
            0 <= i < tags.len() ==> store[(#[trigger] tags[i])@].contains_key(file),
    decreases tags.len(),
{
    if tags.len() > 0 {
        let rest = tags.drop_last();
        lemma_full_count(store, rest, file);
        if tag_count(store, tags, file) == tags.len() {
            assert forall|i: int| 0 <= i < tags.len() implies store[(#[trigger] tags[i])@].contains_key(
                file,
            ) by {
                if i < rest.len() {
                    assert(rest[i] == tags[i]);
                }
            }
        }
        if forall|i: int| 0 <= i < tags.len() ==> store[(#[trigger] tags[i])@].contains_key(file) {
            assert forall|i: int| 0 <= i < rest.len() implies store[(#[trigger] rest[i])@].contains_key(
                file,
            ) by {
                assert(rest[i] == tags[i]);
            }
            assert(store[tags[tags.len() - 1]@].contains_key(file));
        }
    }
}

/// The files found under all of the given tags are those that are counted
/// under as many tags as were named.
pub proof fn law_filter_counts(store: StoreView, tags: Seq<String>, file: Seq<char>)
    ensures
        carrying_all(store, tags).contains(file) <==> tags.len() > 0 && tag_count(store, tags, file)
            == tags.len(),
{
    lemma_full_count(store, tags, file);
}

/// Taking a file out of tags that do not hold it changes nothing.
pub proof fn law_disassociate_absent(store: StoreView, tags: Set<Seq<char>>, file: Seq<char>)
    requires
        forall|t: Seq<char>|
            tags.contains(t) && store.contains_key(t) ==> !(#[trigger] store[t]).contains_key(file),
    ensures
        disassociated(store, tags, file) == store,
{
    let after = disassociated(store, tags, file);
    assert forall|t: Seq<char>| after.contains_key(t) implies after[t] == store[t] by {
        if tags.contains(t) {
            assert(!store[t].contains_key(file));
            assert(store[t].remove(file) =~= store[t]);
        }
    }
    assert(after =~= store);
}

/// Taking a file out of every tag leaves it under none, keeps every tag,
/// and keeps every other file where it was.
pub proof fn law_untag_everywhere(store: StoreView, file: Seq<char>)
    ensures
        disassociated(store, store.dom(), file).dom() == store.dom(),
        forall|t: Seq<char>|
            store.contains_key(t) ==> !(#[trigger] disassociated(store, store.dom(), file)[t]).contains_key(
                file,
            ),
        forall|t: Seq<char>, other: Seq<char>|
            store.contains_key(t) && other != file ==> (#[trigger] disassociated(
                store,
                store.dom(),
                file,
            )[t].contains_key(other)) == store[t].contains_key(other),
        all_files(disassociated(store, store.dom(), file)) == all_files(store).remove(file),
{
    let after = disassociated(store, store.dom(), file);
    assert(after.dom() =~= store.dom());
    assert forall|f: Seq<char>| all_files(after).contains(f) == all_files(store).remove(file).contains(
        f,
    ) by {
        if all_files(after).contains(f) {
            let t = choose|t: Seq<char>| after.contains_key(t) && #[trigger] after[t].contains_key(f);
            assert(store[t].contains_key(f));
        }
        if all_files(store).remove(file).contains(f) {
            let t = choose|t: Seq<char>| store.contains_key(t) && #[trigger] store[t].contains_key(f);
            assert(after[t].contains_key(f));
        }
    }
    assert(all_files(after) =~= all_files(store).remove(file));
}

/// Recording a file a second time in the same tags leaves the store as the
/// first recording left it: each of those tags holds the file once, under
/// its filename, with the path given.
pub proof fn law_associate_twice(
    store: StoreView,
    tags: Set<Seq<char>>,
    file: Seq<char>,
    path: Seq<char>,
)
    ensures
        associated(associated(store, tags, file, path), tags, file, path) == associated(
            store,
            tags,
            file,
            path,
        ),
        forall|t: Seq<char>|
            tags.contains(t) && store.contains_key(t) ==> (#[trigger] associated(
                store,
                tags,
                file,
                path,
            )[t]).contains_key(file) && associated(store, tags, file, path)[t][file] == path,
{
    let once = associated(store, tags, file, path);
    let twice = associated(once, tags, file, path);
    assert forall|t: Seq<char>| twice.contains_key(t) implies twice[t] == once[t] by {
        if tags.contains(t) {
            assert(store[t].insert(file, path).insert(file, path) =~= store[t].insert(file, path));
        }
    }
    assert(twice =~= once);
}

/// Taking a file out of the tags it was just recorded in leaves it under
/// none of them.
pub proof fn law_disassociate_after_associate(
    store: StoreView,
    tags: Set<Seq<char>>,
    file: Seq<char>,
    path: Seq<char>,
)
    ensures
        disassociated(associated(store, tags, file, path), tags, file) == disassociated(
            store,
            tags,
            file,
        ),
{
    let after = disassociated(associated(store, tags, file, path), tags, file);
    let plain = disassociated(store, tags, file);
    assert forall|t: Seq<char>| after.contains_key(t) implies after[t] == plain[t] by {
        if tags.contains(t) {
            assert(store[t].insert(file, path).remove(file) =~= store[t].remove(file));
        }
    }
    assert(after =~= plain);
}

/// A store holds no file exactly where each of its tags is empty.
pub proof fn law_no_files(store: StoreView)
    ensures
        (all_files(store) == Set::<Seq<char>>::empty()) <==> (forall|t: Seq<char>|
            store.contains_key(t) ==> #[trigger] store[t] == Map::<Seq<char>, Seq<char>>::empty()),
{
    if all_files(store) == Set::<Seq<char>>::empty() {
        assert forall|t: Seq<char>| store.contains_key(t) implies #[trigger] store[t] == Map::<
            Seq<char>,
            Seq<char>,
        >::empty() by {
            assert forall|f: Seq<char>| !store[t].contains_key(f) by {
                if store[t].contains_key(f) {
                    assert(all_files(store).contains(f));
                }
            }
            assert(store[t] =~= Map::<Seq<char>, Seq<char>>::empty());
        }
    }
    if forall|t: Seq<char>|
        store.contains_key(t) ==> #[trigger] store[t] == Map::<Seq<char>, Seq<char>>::empty() {
        assert forall|f: Seq<char>| !all_files(store).contains(f) by {
            if all_files(store).contains(f) {
                let t = choose|t: Seq<char>| store.contains_key(t) && #[trigger] store[t].contains_key(f);
                assert(store[t] == Map::<Seq<char>, Seq<char>>::empty());
            }
        }
        assert(all_files(store) =~= Set::<Seq<char>>::empty());
    }
}

/// A store that is saved as records and loaded from them again is equal to
/// the store that was saved.
pub proof fn law_saved_store_loads_equal(
    store: Filesystem,
    saved: Seq<(String, Vec<(String, String)>)>,
    loaded: Filesystem,
)
    requires
        store_of(saved) == store@,
        loaded@ == store_of(saved),
    ensures
        loaded@ == store@,
        loaded.eq_spec(&store),
{
}

} // verus!
