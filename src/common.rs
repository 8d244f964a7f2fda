//! Finding module libraries among the files of a directory.
use vstd::prelude::*;

use crate::wire::views;

verus! {

/// The part of `p` after its last `.`; all of `p` when it has none.
pub open spec fn last_segment(p: Seq<u8>) -> Seq<u8>
    decreases p.len(),
{
    if p.len() == 0 {
        p
    } else if p.last() == 46u8 {
        Seq::empty()
    } else {
        last_segment(p.drop_last()).push(p.last())
    }
}

/// The paths whose last `.`-separated part is `ext`, in order.
pub open spec fn modules_in(paths: Seq<Seq<u8>>, ext: Seq<u8>) -> Seq<Seq<u8>>
    decreases paths.len(),
{
    if paths.len() == 0 {
        paths
    } else {
        let r = modules_in(paths.drop_last(), ext);
        if last_segment(paths.last()) == ext {
            r.push(paths.last())
        } else {
            r
        }
    }
}

proof fn lemma_last_segment(p: Seq<u8>, k: int)
    requires
        0 <= k <= p.len(),
        k == 0 || p[k - 1] == 46u8,
        forall|j: int| k <= j < p.len() ==> p[j] != 46u8,
    ensures
        last_segment(p) == p.subrange(k, p.len() as int),
    decreases p.len(),
{
    if p.len() > 0 {
        if k == p.len() {
            assert(p.last() == 46u8);
            assert(p.subrange(k, p.len() as int) =~= Seq::<u8>::empty());
        } else {
            let d = p.drop_last();
            assert(d.len() >= k);
            assert forall|j: int| k <= j < d.len() implies d[j] != 46u8 by {
                assert(d[j] == p[j]);
            }
            if k > 0 {
                assert(d[k - 1] == p[k - 1]);
            }
            lemma_last_segment(d, k);
            assert(p.subrange(k, p.len() as int) =~= d.subrange(k, d.len() as int).push(p.last()));
        }
    }
}

/// A copy of `b`.
pub fn copy_bytes(b: &Vec<u8>) -> (r: Vec<u8>)
    ensures
        r@ == b@,
{
    let mut r: Vec<u8> = Vec::with_capacity(b.len());
    let mut k: usize = 0;
    while k < b.len()
        invariant
            k <= b@.len(),
            r@ == b@.subrange(0, k as int),
        decreases b@.len() - k,
    {
        r.push(b[k]);
        k = k + 1;
        assert(r@ =~= b@.subrange(0, k as int));
    }
    assert(b@.subrange(0, b@.len() as int) =~= b@);
    r
}

/// Whether the last `.`-separated part of `path` is `ext`.
pub fn has_extension(path: &Vec<u8>, ext: &Vec<u8>) -> (r: bool)
    ensures
        r == (last_segment(path@) == ext@),
{
    let n = path.len();
    let mut k: usize = n;
    while k > 0 && path[k - 1] != 46u8
        invariant
            n == path@.len(),
            k <= n,
            forall|j: int| k <= j < n ==> path@[j] != 46u8,
        decreases k,
    {
        k = k - 1;
    }
    proof {
        lemma_last_segment(path@, k as int);
    }
    if n - k != ext.len() {
        return false;
    }
    let mut i: usize = 0;
    while i < ext.len()
        invariant
            n == path@.len(),
            k <= n,
            n - k == ext@.len(),
            last_segment(path@) == path@.subrange(k as int, n as int),
            i <= ext@.len(),
            forall|j: int| 0 <= j < i ==> path@[k + j] == ext@[j],
        decreases ext@.len() - i,
    {
        if path[k + i] != ext[i] {
            assert(path@.subrange(k as int, n as int)[i as int] != ext@[i as int]);
            return false;
        }
        i = i + 1;
    }
    assert(path@.subrange(k as int, n as int) =~= ext@);
    true
}

/// The module libraries among `paths`: those whose last `.`-separated part
/// is the platform's library extension `ext` (`so`, `dll`), in order.
pub fn get_modules(paths: &Vec<Vec<u8>>, ext: &Vec<u8>) -> (r: Vec<Vec<u8>>)
    ensures
        views(r@) == modules_in(views(paths@), ext@),
{
    let ghost all = views(paths@);
    let mut r: Vec<Vec<u8>> = Vec::new();
    let mut i: usize = 0;
    while i < paths.len()
        invariant
            all == views(paths@),
            i <= paths@.len(),
            views(r@) == modules_in(all.take(i as int), ext@),
        decreases paths@.len() - i,
    {
        let ghost t = all.take(i as int + 1);
        assert(t.drop_last() =~= all.take(i as int));
        assert(t.last() == paths@[i as int]@);
        if has_extension(&paths[i], ext) {
            let ghost before = r@;
            let p = copy_bytes(&paths[i]);
            r.push(p);
            assert(views(r@) =~= views(before).push(p@));
        }
        i = i + 1;
    }
    assert(all.take(paths@.len() as int) =~= all);
    r
}

} // verus!
