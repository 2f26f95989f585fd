//! Codec for a console GPU texture container format, together with the
//! block-linear ("swizzled") pixel-layout transform its texel data uses.
//!
//! The container is a pointer-indirected binary layout: a header selects the
//! byte order, and every section (string pool, relocation table, texture
//! descriptor, dictionary, texel data) is reached by following absolute byte
//! offsets stored in the stream.  Decoding holds the whole input in one
//! buffer and resolves each pointer as a plain index computation; encoding
//! computes every offset analytically before a byte is written.
use vstd::prelude::*;

pub mod bytes;
pub mod container;
pub mod tegra_swizzle;

verus! {

/// Rounds `x` up to the next multiple of 4.
pub open spec fn spec_align4(x: int) -> int {
    ((x + 3) / 4) * 4
}

/// Rounds `x` up to the next multiple of 4.
pub fn align(x: usize) -> (r: usize)
    requires
        x + 3 <= usize::MAX,
    ensures
        r == spec_align4(x as int),
{
    ((x + 3) / 4) * 4
}

} // verus!
