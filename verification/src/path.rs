//! Paths: names separated by `/`, ended by the end of the bytes or a NUL.
use vstd::prelude::*;
use crate::defines::LfsSize;

verus! {

/// A byte that ends a name: a separator or a NUL.
pub open spec fn name_stop(c: u8) -> bool {
    c == 0x2fu8 || c == 0u8
}

/// The length of the first name of `p`: the bytes before the first
/// separator, NUL or the end.
pub open spec fn name_end(p: Seq<u8>) -> nat
    decreases p.len(),
{
    if p.len() == 0 || name_stop(p[0]) {
        0
    } else {
        1 + name_end(p.drop_first())
    }
}

/// Where the run of separators starting at `i` ends.
pub open spec fn slashes_end(p: Seq<u8>, i: int) -> int
    decreases p.len() - i,
{
    if i < 0 || i >= p.len() || p[i] != 0x2fu8 {
        i
    } else {
        slashes_end(p, i + 1)
    }
}

/// The first name ends at `n` when no earlier byte stops it and the byte at
/// `n`, if any, does.
pub proof fn lemma_name_end(p: Seq<u8>, n: int)
    requires
        0 <= n <= p.len(),
        forall|j: int| 0 <= j < n ==> !name_stop(#[trigger] p[j]),
        n < p.len() ==> name_stop(p[n]),
    ensures
        name_end(p) == n,
    decreases n,
{
    if n > 0 {
        let q = p.drop_first();
        assert forall|j: int| 0 <= j < n - 1 implies !name_stop(#[trigger] q[j]) by {
            assert(q[j] == p[j + 1]);
        }
        if n - 1 < q.len() {
            assert(q[n - 1] == p[n]);
        }
        lemma_name_end(q, n - 1);
    }
}

/// The length of the first name of `path`.
pub fn lfs_path_namelen(path: &[u8]) -> (r: LfsSize)
    requires
        path@.len() <= u32::MAX,
    ensures
        r == name_end(path@),
        r <= path@.len(),
{
    let mut i: usize = 0;
    while i < path.len() && path[i] != 0x2fu8 && path[i] != 0
        invariant
            i <= path@.len(),
            path@.len() <= u32::MAX,
            forall|j: int| 0 <= j < i ==> !name_stop(#[trigger] path@[j]),
        decreases path@.len() - i,
    {
        i = i + 1;
    }
    proof {
        lemma_name_end(path@, i as int);
    }
    i as LfsSize
}

/// Whether the first name of `path` is followed by a separator, so that it
/// names a directory.
pub fn lfs_path_isdir(path: &[u8]) -> (r: bool)
    requires
        path@.len() <= u32::MAX,
    ensures
        r == (name_end(path@) < path@.len() && path@[name_end(path@) as int] != 0u8),
{
    let n = lfs_path_namelen(path) as usize;
    n < path.len() && path[n] != 0
}

/// Whether nothing but separators follows the first name of `path`.
pub fn lfs_path_islast(path: &[u8]) -> (r: bool)
    requires
        path@.len() <= u32::MAX,
    ensures
        r == ({
            let s = slashes_end(path@, name_end(path@) as int);
            s >= path@.len() || path@[s] == 0u8
        }),
{
    let n = lfs_path_namelen(path) as usize;
    let mut s = n;
    while s < path.len() && path[s] == 0x2fu8
        invariant
            n <= s <= path@.len(),
            n == name_end(path@),
            slashes_end(path@, s as int) == slashes_end(path@, n as int),
        decreases path@.len() - s,
    {
        s = s + 1;
    }
    s >= path.len() || path[s] == 0
}

} // verus!
