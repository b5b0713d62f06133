//! Path predicates used when spawning commands.

use vstd::prelude::*;
use vstd::string::StringSliceAdditionalSpecFns;

verus! {

/// Whether a path's first component is the current or parent directory:
/// exactly `.` or `..`, or a prefix of `./` or `../`.
pub open spec fn spec_cwd_relative(bytes: Seq<u8>) -> bool {
    ||| bytes =~= seq![46u8]
    ||| bytes =~= seq![46u8, 46u8]
    ||| (bytes.len() >= 2 && bytes[0] == 46 && bytes[1] == 47)
    ||| (bytes.len() >= 3 && bytes[0] == 46 && bytes[1] == 46 && bytes[2] == 47)
}

/// Returns true if the path begins with `./` or `../`.
pub fn is_cwd_relative_path(p: &str) -> (r: bool)
    ensures
        r == spec_cwd_relative(p.spec_bytes()),
{
    let b = p.as_bytes();
    let n = b.len();
    if n == 1 && b[0] == 46 {
        proof {
            assert(p.spec_bytes() =~= seq![46u8]);
        }
        return true;
    }
    if n == 2 && b[0] == 46 && b[1] == 46 {
        proof {
            assert(p.spec_bytes() =~= seq![46u8, 46u8]);
        }
        return true;
    }
    if n >= 2 && b[0] == 46 && b[1] == 47 {
        return true;
    }
    if n >= 3 && b[0] == 46 && b[1] == 46 && b[2] == 47 {
        return true;
    }
    proof {
        if p.spec_bytes() =~= seq![46u8] {
            assert(n == 1 && p.spec_bytes()[0] == 46);
        }
        if p.spec_bytes() =~= seq![46u8, 46u8] {
            assert(n == 2);
        }
    }
    false
}

} // verus!
