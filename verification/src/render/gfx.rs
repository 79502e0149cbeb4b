//! What the graphics device is asked for.

use vstd::prelude::*;
use crate::render::texture_array::TextureArrayDimensions;

verus! {

/// A two-dimensional texture array as the device counts it: in 16 bits each
/// way.
#[derive(Debug, Copy, Clone, Eq, PartialEq)]
pub struct ArrayKind {
    pub width: u16,
    pub height: u16,
    pub layers: u16,
}

/// The kind of texture to ask the device for. Each dimension is cut to 16
/// bits.
pub fn texture_kind_for(dimensions: &TextureArrayDimensions) -> (kind: ArrayKind)
    ensures
        kind.width == dimensions.width as u16,
        kind.height == dimensions.height as u16,
        kind.layers == dimensions.layers as u16,
{
    ArrayKind {
        width: #[verifier::truncate]
        (dimensions.width as u16),
        height: #[verifier::truncate]
        (dimensions.height as u16),
        layers: #[verifier::truncate]
        (dimensions.layers as u16),
    }
}

/// A dimension that fits in 16 bits is kept as it is.
pub proof fn lemma_small_dimension_kept(dimension: u32)
    requires
        dimension <= u16::MAX,
    ensures
        dimension as u16 == dimension,
{
}

} // verus!
