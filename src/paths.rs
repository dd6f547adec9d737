//! Paths and their parents. A path's parent drops its last `/`-separated
//! segment; a path of one segment has the root `"."` as parent, and the root
//! has none (the empty string).
use vstd::prelude::*;

verus! {

pub open spec fn root_path() -> Seq<char> {
    seq!['.']
}

/// The position of the last `/` in `p`, or -1 when there is none.
pub open spec fn last_slash(p: Seq<char>) -> int
    decreases p.len(),
{
    if p.len() == 0 {
        -1
    } else if p.last() == '/' {
        p.len() - 1
    } else {
        last_slash(p.drop_last())
    }
}

pub open spec fn parent_path(p: Seq<char>) -> Seq<char> {
    if p == root_path() {
        Seq::empty()
    } else if last_slash(p) < 0 {
        root_path()
    } else {
        p.subrange(0, last_slash(p))
    }
}

/// A measure that each step from a path to its parent lowers.
pub open spec fn path_rank(p: Seq<char>) -> nat {
    if p.len() == 0 {
        0
    } else if p == root_path() {
        1
    } else {
        p.len() + 2
    }
}

pub proof fn lemma_last_slash_range(p: Seq<char>)
    ensures
        -1 <= last_slash(p) < p.len(),
        last_slash(p) >= 0 ==> p[last_slash(p)] == '/',
        forall|i: int| last_slash(p) < i < p.len() ==> p[i] != '/',
    decreases p.len(),
{
    if p.len() > 0 && p.last() != '/' {
        lemma_last_slash_range(p.drop_last());
        assert forall|i: int| last_slash(p) < i < p.len() implies p[i] != '/' by {
            if i < p.len() - 1 {
                assert(p[i] == p.drop_last()[i]);
            }
        }
    }
}

pub proof fn lemma_parent_rank(p: Seq<char>)
    requires
        p.len() > 0,
    ensures
        path_rank(parent_path(p)) < path_rank(p),
{
    lemma_last_slash_range(p);
}

/// The parent of `path`: its last segment dropped, `"."` for a path of one
/// segment, and the empty string for the root `"."` itself.
pub fn fatherName(path: &str) -> (r: String)
    ensures
        r@ == parent_path(path@),
{
    proof {
        reveal_strlit(".");
        lemma_last_slash_range(path@);
    }
    let n = path.unicode_len();
    if n == 1 && path.get_char(0) == '.' {
        assert(path@ =~= root_path());
        return String::new();
    }
    assert(path@ != root_path()) by {
        if path@ == root_path() {
            assert(path@[0] == '.');
        }
    }
    let mut i: usize = n;
    while i > 0
        invariant
            i <= n,
            n == path@.len(),
            path@ != root_path(),
            forall|j: int| i <= j < n ==> path@[j] != '/',
        decreases i,
    {
        if path.get_char(i - 1) == '/' {
            proof {
                lemma_last_slash_range(path@);
                if last_slash(path@) != i - 1 {
                    assert(path@[last_slash(path@)] == '/');
                }
            }
            let prefix = path.substring_char(0, i - 1);
            return String::from_str(prefix);
        }
        i = i - 1;
    }
    proof {
        if last_slash(path@) >= 0 {
            assert(path@[last_slash(path@)] == '/');
        }
    }
    let root = String::from_str(".");
    assert(root@ =~= root_path());
    root
}

} // verus!
