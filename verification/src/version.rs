//! The build's version identification, as shown in diagnostics.

use vstd::prelude::*;

verus! {

/// The version tag this build carries.
pub fn phaedra_version() -> (r: &'static str)
    ensures
        r@ == "dev"@,
{
    "dev"
}

/// The target triple this build is compiled for.
pub fn phaedra_target_triple() -> (r: &'static str)
    ensures
        r@ == "x86_64-unknown-linux-gnu"@,
{
    "x86_64-unknown-linux-gnu"
}

} // verus!
