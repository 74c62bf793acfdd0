//! File identity: the filename of a path is its final component.
//!
//! Both `/` and `\` separate components, whatever the host platform, so a
//! path keeps its filename wherever it is read.

use vstd::prelude::*;

verus! {

/// Whether `c` separates the components of a path.
pub open spec fn is_separator(c: char) -> bool {
    c == '/' || c == '\\'
}

/// Whether the final component of `s` begins at index `k`: no separator
/// stands at or after `k`, and `k` is the start of `s` or follows a separator.
pub open spec fn is_filename_start(s: Seq<char>, k: int) -> bool {
    &&& 0 <= k <= s.len()
    &&& forall|i: int| k <= i < s.len() ==> !is_separator(#[trigger] s[i])
    &&& k == 0 || is_separator(s[k - 1])
}

/// The index at which the final component of `s` begins.
pub open spec fn filename_start(s: Seq<char>) -> int
    decreases s.len(),
{
    if s.len() == 0 {
        0
    } else if is_separator(s.last()) {
        s.len() as int
    } else {
        filename_start(s.drop_last())
    }
}

/// The filename of the path `s`: the text after its last separator, or all
/// of `s` where it holds none.
pub open spec fn filename_of(s: Seq<char>) -> Seq<char> {
    s.subrange(filename_start(s), s.len() as int)
}

/// `filename_start` is a start of the final component.
pub proof fn lemma_filename_start(s: Seq<char>)
    ensures
        is_filename_start(s, filename_start(s)),
    decreases s.len(),
{
    if s.len() > 0 && !is_separator(s.last()) {
        let t = s.drop_last();
        lemma_filename_start(t);
        let k = filename_start(t);
        assert forall|i: int| k <= i < s.len() implies !is_separator(#[trigger] s[i]) by {
            if i < t.len() {
                assert(t[i] == s[i]);
            }
        }
        if k > 0 {
            assert(t[k - 1] == s[k - 1]);
        }
    }
}

/// The final component begins at one index only.
pub proof fn lemma_filename_start_unique(s: Seq<char>, k: int)
    requires
        is_filename_start(s, k),
    ensures
        k == filename_start(s),
{
    lemma_filename_start(s);
    let f = filename_start(s);
    if k < f {
        assert(is_separator(s[f - 1]));
    } else if f < k {
        assert(is_separator(s[k - 1]));
    }
}

/// A filename holds no separator, so it is its own filename.
pub proof fn lemma_filename_idempotent(s: Seq<char>)
    ensures
        filename_of(filename_of(s)) == filename_of(s),
{
    lemma_filename_start(s);
    let name = filename_of(s);
    assert forall|i: int| 0 <= i < name.len() implies !is_separator(#[trigger] name[i]) by {
        assert(name[i] == s[filename_start(s) + i]);
    }
    lemma_filename_start_unique(name, 0);
    assert(name.subrange(0, name.len() as int) =~= name);
}

} // verus!
