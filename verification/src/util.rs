//! Small byte-vector helpers shared across the crate.

use vstd::prelude::*;

verus! {

/// Append `src[a..b]` to `dst`.
pub(crate) fn append_range(dst: &mut Vec<u8>, src: &Vec<u8>, a: usize, b: usize)
    requires
        a <= b <= src@.len(),
    ensures
        final(dst)@ == old(dst)@ + src@.subrange(a as int, b as int),
{
    let mut j: usize = a;
    proof {
        assert(dst@ + src@.subrange(a as int, a as int) =~= dst@);
    }
    while j < b
        invariant
            a <= j <= b <= src@.len(),
            dst@ == old(dst)@ + src@.subrange(a as int, j as int),
        decreases b - j,
    {
        dst.push(src[j]);
        proof {
            assert(old(dst)@ + src@.subrange(a as int, j as int + 1) =~= (old(dst)@
                + src@.subrange(a as int, j as int)).push(src@[j as int]));
        }
        j = j + 1;
    }
}

/// Whether `a` equals `b[s..e]`.
pub(crate) fn eq_range(a: &Vec<u8>, b: &Vec<u8>, s: usize, e: usize) -> (r: bool)
    requires
        s <= e <= b@.len(),
    ensures
        r == (a@ == b@.subrange(s as int, e as int)),
{
    let n: usize = a.len();
    if n != e - s {
        proof {
            assert(a@.len() != b@.subrange(s as int, e as int).len());
        }
        return false;
    }
    let mut j: usize = 0;
    while j < n
        invariant
            j <= n,
            n == a@.len(),
            s <= e <= b@.len(),
            n == e - s,
            forall|t: int| 0 <= t < j ==> a@[t] == b@[s + t],
        decreases n - j,
    {
        if a[j] != b[s + j] {
            proof {
                assert(a@[j as int] != b@.subrange(s as int, e as int)[j as int]);
            }
            return false;
        }
        j = j + 1;
    }
    proof {
        assert(a@ =~= b@.subrange(s as int, e as int));
    }
    true
}

} // verus!
