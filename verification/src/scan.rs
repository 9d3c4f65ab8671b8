//! Looking for a byte.
use vstd::prelude::*;

verus! {

/// No byte of `s` is `b`.
pub open spec fn has_no(s: Seq<u8>, b: u8) -> bool {
    forall|i: int| 0 <= i < s.len() ==> #[trigger] s[i] != b
}

/// The index of the first `b` in `s`, or the length of `s` where it holds
/// none.
pub open spec fn index_of(s: Seq<u8>, b: u8) -> int
    decreases s.len(),
{
    if s.len() == 0 || s[0] == b {
        0
    } else {
        1 + index_of(s.skip(1), b)
    }
}

/// `index_of(s, b)` lies within `s`, no `b` comes before it, and a `b`
/// stands there unless it is the length of `s`.
pub proof fn lemma_index_of(s: Seq<u8>, b: u8)
    ensures
        0 <= index_of(s, b) <= s.len(),
        has_no(s.take(index_of(s, b)), b),
        index_of(s, b) < s.len() ==> s[index_of(s, b)] == b,
    decreases s.len(),
{
    if s.len() != 0 && s[0] != b {
        let rest = s.skip(1);
        lemma_index_of(rest, b);
        let n = index_of(s, b);
        assert forall|i: int| 0 <= i < n implies #[trigger] s.take(n)[i] != b by {
            if i > 0 {
                assert(s.take(n)[i] == rest.take(n - 1)[i - 1]);
            }
        }
    }
}

/// An index with no `b` before it, which is the length of `s` or the place
/// of a `b`, is `index_of(s, b)`.
pub proof fn lemma_index_of_is(s: Seq<u8>, b: u8, n: int)
    requires
        0 <= n <= s.len(),
        has_no(s.take(n), b),
        n < s.len() ==> s[n] == b,
    ensures
        index_of(s, b) == n,
    decreases s.len(),
{
    if n != 0 {
        assert(s[0] == s.take(n)[0]);
        let rest = s.skip(1);
        assert forall|i: int| 0 <= i < n - 1 implies #[trigger] rest.take(n - 1)[i] != b by {
            assert(rest.take(n - 1)[i] == s.take(n)[i + 1]);
        }
        lemma_index_of_is(rest, b, n - 1);
    }
}

/// Finds the first `b` in `s`.
pub fn find(s: &[u8], b: u8) -> (i: usize)
    ensures
        i == index_of(s@, b),
{
    let mut i: usize = 0;
    while i < s.len() && s[i] != b
        invariant
            i <= s.len(),
            has_no(s@.take(i as int), b),
        decreases s.len() - i,
    {
        i += 1;
    }
    proof {
        lemma_index_of_is(s@, b, i as int);
    }
    i
}

/// Where the first `k` bytes of `s` hold no `b`, the first `b` of `s` is
/// the first `b` of what follows them.
pub proof fn lemma_index_of_skip(s: Seq<u8>, b: u8, k: int)
    requires
        0 <= k <= s.len(),
        has_no(s.take(k), b),
    ensures
        index_of(s, b) == k + index_of(s.skip(k), b),
{
    let tail = s.skip(k);
    let m = index_of(tail, b);
    lemma_index_of(tail, b);
    assert forall|i: int| 0 <= i < k + m implies #[trigger] s.take(k + m)[i] != b by {
        if i < k {
        } else {
            assert(s.take(k + m)[i] == tail.take(m)[i - k]);
        }
    }
    lemma_index_of_is(s, b, k + m);
}

} // verus!
