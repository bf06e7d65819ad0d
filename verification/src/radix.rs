//! Mirror symmetry of mixed-radix profiles.
use vstd::prelude::*;

verus! {

/// The profile is its own mirror image: `p[i] == p[n-1-i]` for every site.
pub open spec fn palindromic(p: Seq<usize>) -> bool {
    forall|i: int| 0 <= i < p.len() ==> #[trigger] p[i] == p[p.len() - 1 - i]
}

/// Is the profile its own mirror image?
pub fn is_palindromic(profile: &[usize]) -> (b: bool)
    ensures
        b == palindromic(profile@),
{
    let n = profile.len();
    let mut i: usize = 0;
    while i < n / 2
        invariant
            n == profile@.len(),
            i <= n / 2,
            forall|j: int| 0 <= j < i ==> #[trigger] profile@[j] == profile@[n - 1 - j],
        decreases n / 2 - i,
    {
        if profile[i] != profile[n - 1 - i] {
            return false;
        }
        i = i + 1;
    }
    proof {
        assert forall|j: int| 0 <= j < n implies #[trigger] profile@[j] == profile@[n - 1 - j] by {
            if j >= n / 2 {
                let m = n - 1 - j;
                if m < n / 2 {
                    assert(profile@[m] == profile@[n - 1 - m]);
                } else {
                    assert(j == m);
                }
            }
        }
    }
    true
}

} // verus!
