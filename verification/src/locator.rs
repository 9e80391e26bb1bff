//! Project-root discovery.
//!
//! A starting directory is a sequence of path components, from the filesystem
//! root downward. For each prefix of that sequence (each ancestor, the
//! starting directory included) the caller reports whether the ancestor
//! directly contains a recognized project marker. The locator returns the
//! deepest marked ancestor, and falls back to the starting directory itself
//! when no ancestor is marked.

use vstd::prelude::*;

verus! {

/// The deepest index `j <= k` with `m[j]`, or `-1` when no such index exists.
pub open spec fn deepest_marked(m: Seq<bool>, k: int) -> int
    decreases k + 1,
{
    if k < 0 {
        -1
    } else if m[k] {
        k
    } else {
        deepest_marked(m, k - 1)
    }
}

/// The number of components of the located root, for a starting directory of
/// `m.len() - 1` components: the longest marked prefix, or the full starting
/// directory when nothing is marked.
pub open spec fn located_len(m: Seq<bool>) -> int {
    let n = m.len() - 1;
    let best = deepest_marked(m, n);
    if best == -1 {
        n
    } else {
        best
    }
}

pub proof fn lemma_deepest_marked_bounds(m: Seq<bool>, k: int)
    requires
        -1 <= k < m.len(),
    ensures
        -1 <= deepest_marked(m, k) <= k,
        deepest_marked(m, k) >= 0 ==> m[deepest_marked(m, k)],
        forall|j: int| deepest_marked(m, k) < j <= k ==> !m[j],
    decreases k + 1,
{
    if k >= 0 && !m[k] {
        lemma_deepest_marked_bounds(m, k - 1);
    }
}

/// When no ancestor is marked, the located root is the starting directory.
pub proof fn lemma_locate_no_marker(m: Seq<bool>)
    requires
        m.len() >= 1,
        forall|k: int| 0 <= k < m.len() ==> !m[k],
    ensures
        located_len(m) == m.len() - 1,
{
    lemma_deepest_marked_none(m, m.len() - 1);
}

proof fn lemma_deepest_marked_none(m: Seq<bool>, k: int)
    requires
        k < m.len(),
        forall|j: int| 0 <= j <= k ==> !m[j],
    ensures
        deepest_marked(m, k) == -1,
    decreases k + 1,
{
    if k >= 0 {
        lemma_deepest_marked_none(m, k - 1);
    }
}

/// When some ancestor is marked, the located root is the closest marked
/// ancestor: the marked prefix length `a` above which no longer prefix is
/// marked.
pub proof fn lemma_locate_nearest_marker(m: Seq<bool>, a: int)
    requires
        0 <= a < m.len(),
        m[a],
        forall|k: int| a < k < m.len() ==> !m[k],
    ensures
        located_len(m) == a,
{
    lemma_deepest_marked_found(m, m.len() - 1, a);
}

proof fn lemma_deepest_marked_found(m: Seq<bool>, k: int, a: int)
    requires
        0 <= a <= k < m.len(),
        m[a],
        forall|j: int| a < j <= k ==> !m[j],
    ensures
        deepest_marked(m, k) == a,
    decreases k + 1,
{
    if k > a {
        lemma_deepest_marked_found(m, k - 1, a);
    }
}

/// Finds the project root: the deepest ancestor of `start` (inclusive) that
/// contains a marker, or `start` itself when none does.
///
/// `start` is given as its path components; `marker_at[k]` reports whether
/// the prefix of `start` with `k` components directly contains a marker.
pub fn find_project_root(start: Vec<Vec<u8>>, marker_at: &Vec<bool>) -> (root: Vec<Vec<u8>>)
    requires
        marker_at@.len() == start@.len() + 1,
    ensures
        root@ == start@.take(located_len(marker_at@)),
        (forall|k: int| 0 <= k < marker_at@.len() ==> !marker_at@[k]) ==> root@ == start@,
{
    let n = start.len();
    let mut k = n;
    loop
        invariant
            marker_at@.len() == start@.len() + 1,
            n == start@.len(),
            0 <= k <= n,
            deepest_marked(marker_at@, n as int) == deepest_marked(marker_at@, k as int),
        ensures
            deepest_marked(marker_at@, n as int) == -1,
        decreases k,
    {
        if marker_at[k] {
            let mut root = start;
            root.truncate(k);
            proof {
                lemma_deepest_marked_bounds(marker_at@, n as int);
                assert(root@ =~= start@.take(k as int));
            }
            return root;
        }
        if k == 0 {
            proof {
                assert(deepest_marked(marker_at@, -1) == -1);
                assert(deepest_marked(marker_at@, 0) == -1);
            }
            break;
        }
        k = k - 1;
    }
    proof {
        assert(start@.take(n as int) =~= start@);
    }
    start
}

/// The recognized project markers, in their fixed priority order: the
/// version-control metadata directory `.git`, then the hosting-service
/// metadata directory `.github`.
pub fn marker_names() -> (r: Vec<Vec<u8>>)
    ensures
        crate::bytes::views_of(r@) =~= seq![git_marker(), github_dir_name()],
{
    let git: Vec<u8> = vec![46u8, 103u8, 105u8, 116u8];
    let github: Vec<u8> = vec![46u8, 103u8, 105u8, 116u8, 104u8, 117u8, 98u8];
    proof {
        assert(git@ =~= git_marker());
        assert(github@ =~= github_dir_name());
    }
    let mut r: Vec<Vec<u8>> = Vec::new();
    r.push(git);
    r.push(github);
    r
}

/// The bytes of `.git`.
pub open spec fn git_marker() -> Seq<u8> {
    seq![46u8, 103u8, 105u8, 116u8]
}

/// The bytes of `.github`.
pub open spec fn github_dir_name() -> Seq<u8> {
    seq![46u8, 103u8, 105u8, 116u8, 104u8, 117u8, 98u8]
}

} // verus!
