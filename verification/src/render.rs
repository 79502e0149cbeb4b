//! Plain data of the presentation side.

use vstd::prelude::*;

pub mod gfx;
pub mod shader;
pub mod texture_array;

verus! {

/// How a draw call combines with what is on the target: not at all,
/// additively, or by alpha.
#[derive(Copy, Clone, Debug, Eq, PartialEq)]
pub enum Blend {
    Opaque,
    Add,
    Alpha,
}

} // verus!
