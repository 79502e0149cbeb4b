//! The shape of a texture array, from the sizes of its images.

use vstd::prelude::*;

verus! {

#[derive(Debug, Copy, Clone, Eq, PartialEq)]
pub struct TextureArrayDimensions {
    pub width: u32,
    pub height: u32,
    pub layers: u32,
}

/// Why a set of images makes no texture array.
#[derive(Debug, Copy, Clone, Eq, PartialEq)]
pub enum DimensionsError {
    /// There is no image.
    NoFiles,
    /// An image has another size than the first.
    MismatchingDimensions,
}

/// Whether every size is the first one.
pub open spec fn all_alike(sizes: Seq<(u32, u32)>) -> bool {
    forall|n: int| 0 <= n < sizes.len() ==> #[trigger] sizes[n] == sizes[0]
}

impl TextureArrayDimensions {
    /// The shape of the array of images of the given widths and heights, one
    /// layer for each image. The number of layers is cut to 32 bits.
    pub fn of_images(sizes: &Vec<(u32, u32)>) -> (shape: Result<
        TextureArrayDimensions,
        DimensionsError,
    >)
        ensures
            sizes.len() == 0 ==> shape == Err::<TextureArrayDimensions, DimensionsError>(
                DimensionsError::NoFiles,
            ),
            sizes.len() > 0 && !all_alike(sizes@) ==> shape == Err::<
                TextureArrayDimensions,
                DimensionsError,
            >(DimensionsError::MismatchingDimensions),
            sizes.len() > 0 && all_alike(sizes@) ==> shape == Ok::<
                TextureArrayDimensions,
                DimensionsError,
            >(
                TextureArrayDimensions {
                    width: sizes[0].0,
                    height: sizes[0].1,
                    layers: sizes.len() as u32,
                },
            ),
    {
        if sizes.len() == 0 {
            return Err(DimensionsError::NoFiles);
        }
        let first = sizes[0];
        let mut k: usize = 1;
        while k < sizes.len()
            invariant
                1 <= k <= sizes.len(),
                first == sizes[0],
                forall|n: int| 0 <= n < k ==> #[trigger] sizes[n] == sizes[0],
            decreases sizes.len() - k,
        {
            let size = sizes[k];
            if size.0 != first.0 || size.1 != first.1 {
                return Err(DimensionsError::MismatchingDimensions);
            }
            k = k + 1;
        }
        Ok(
            TextureArrayDimensions {
                width: first.0,
                height: first.1,
                layers: #[verifier::truncate]
                (sizes.len() as u32),
            },
        )
    }
}

} // verus!
