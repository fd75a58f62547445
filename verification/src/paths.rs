//! Pure path-string operations: home-directory expansion, parent paths and
//! the path-prefix relation used by the filesystem model.

use vstd::prelude::*;
use vstd::string::*;

verus! {

/// What expanding a leading `~` marker yields: the home value followed by
/// the rest of the path, or the path unchanged when it has no such marker.
pub open spec fn spec_expand_user(p: Seq<char>, home: Seq<char>) -> Seq<char> {
    if p.len() > 0 && p[0] == '~' {
        home + p.skip(1)
    } else {
        p
    }
}

/// Character-for-character equality of two string slices.
pub fn str_eq(a: &str, b: &str) -> (r: bool)
    ensures
        r == (a@ == b@),
{
    let n = a.unicode_len();
    if n != b.unicode_len() {
        proof {
            assert(a@ != b@) by {
                if a@ == b@ {
                    assert(a@.len() == b@.len());
                }
            }
        }
        return false;
    }
    let mut i: usize = 0;
    while i < n
        invariant
            n == a@.len(),
            n == b@.len(),
            0 <= i <= n,
            forall|j: int| 0 <= j < i ==> a@[j] == b@[j],
        decreases n - i,
    {
        if a.get_char(i) != b.get_char(i) {
            proof {
                assert(a@ != b@) by {
                    if a@ == b@ {
                        assert(a@[i as int] == b@[i as int]);
                    }
                }
            }
            return false;
        }
        i += 1;
    }
    proof {
        assert(a@ =~= b@);
    }
    true
}

/// Replaces a leading home-directory marker (`~`) with the given home value.
/// Pure string substitution of the first character only; a path without the
/// marker is returned unchanged.
pub fn expand_user(path: &str, home: &str) -> (r: String)
    ensures
        r@ == spec_expand_user(path@, home@),
{
    let n = path.unicode_len();
    if n > 0 && path.get_char(0) == '~' {
        let rest = path.substring_char(1, n);
        let mut s = String::from_str(home);
        s.append(rest);
        proof {
            assert(rest@ =~= path@.skip(1));
        }
        s
    } else {
        String::from_str(path)
    }
}

} // verus!
