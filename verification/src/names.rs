//! How a list of names stands for a set of names.

use vstd::prelude::*;

verus! {

/// Whether `names` lists the members of `set`, each of them once and nothing
/// else, in some order.
pub open spec fn lists_exactly(names: Seq<String>, set: Set<Seq<char>>) -> bool {
    &&& forall|i: int, j: int|
        0 <= i < j < names.len() ==> (#[trigger] names[i])@ != (#[trigger] names[j])@
    &&& forall|i: int| 0 <= i < names.len() ==> set.contains((#[trigger] names[i])@)
    &&& forall|k: Seq<char>|
        set.contains(k) ==> exists|i: int| 0 <= i < names.len() && (#[trigger] names[i])@ == k
}

/// Whether some element of `names` reads `k`.
pub open spec fn names_contain(names: Seq<String>, k: Seq<char>) -> bool {
    exists|i: int| 0 <= i < names.len() && (#[trigger] names[i])@ == k
}

/// Returns whether some element of `names` equals `name`.
pub fn contains_name(names: &Vec<String>, name: &String) -> (found: bool)
    ensures
        found == names_contain(names@, name@),
{
    let mut i: usize = 0;
    while i < names.len()
        invariant
            i <= names.len(),
            forall|j: int| 0 <= j < i ==> (#[trigger] names@[j])@ != name@,
        decreases names.len() - i,
    {
        if names[i] == *name {
            return true;
        }
        i = i + 1;
    }
    false
}

} // verus!
