//! Character-by-character string comparison with a proved relation to the
//! string views, used wherever tags and keysym names are matched.

use vstd::prelude::*;
use vstd::string::StrSliceExecFns;

verus! {

/// Compares two strings by their character sequences.
pub fn str_eq(a: &str, b: &str) -> (r: bool)
    ensures
        r <==> a@ == b@,
{
    let la = a.unicode_len();
    let lb = b.unicode_len();
    if la != lb {
        proof {
            assert(a@ != b@) by {
                assert(a@.len() != b@.len());
            }
        }
        return false;
    }
    let mut i: usize = 0;
    while i < la
        invariant
            la == a@.len(),
            la == b@.len(),
            i <= la,
            forall|j: int| 0 <= j < i ==> a@[j] == b@[j],
        decreases la - i,
    {
        if a.get_char(i) != b.get_char(i) {
            proof {
                assert(a@[i as int] != b@[i as int]);
            }
            return false;
        }
        i = i + 1;
    }
    proof {
        assert(a@ =~= b@);
    }
    true
}

} // verus!
