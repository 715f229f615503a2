//! Message payload plans.
//!
//! Payload encoding into the host's schema format is the host SDK's job;
//! what belongs to this crate is deciding the payload's shape from the
//! dataset's dimensions: the raw-dataset dimension list, and the image
//! geometry for datasets played as images.  The image helpers check the
//! dimension count the decoders rely on, and that the extents fit the
//! host's 32-bit image fields instead of silently truncating them.

use vstd::prelude::*;

verus! {

/// Why no image can be made from a dataset's dimensions.
#[derive(Debug, Clone, Copy, PartialEq, Eq, Structural)]
pub enum ImagePlanError {
    /// The dimension count does not match the image layout.
    InvalidDimensions,
    /// An extent does not fit the host's 32-bit image geometry.
    ExtentTooLarge,
}

/// The geometry of one raw image payload.
#[derive(Debug, Clone, Copy, PartialEq, Eq, Structural)]
pub struct RawImagePlan {
    /// Pixels per row.
    pub width: u32,
    /// Rows per image.
    pub height: u32,
    /// Bytes per row.
    pub step: u32,
}

/// The geometry of a sixteen-bit monochrome image from a dataset shaped
/// time by height by width: two bytes per pixel.
pub fn mono16_image_plan(dimensions: &Vec<u64>) -> (r: Result<RawImagePlan, ImagePlanError>)
    ensures
        match r {
            Ok(p) => {
                &&& dimensions@.len() == 3
                &&& dimensions@[1] <= u32::MAX
                &&& dimensions@[2] * 2 <= u32::MAX
                &&& p.width == dimensions@[2]
                &&& p.height == dimensions@[1]
                &&& p.step == dimensions@[2] * 2
            },
            Err(e) => {
                &&& e is InvalidDimensions <==> dimensions@.len() != 3
                &&& e is ExtentTooLarge <==> dimensions@.len() == 3 && (dimensions@[1] > u32::MAX
                    || dimensions@[2] * 2 > u32::MAX)
            },
        },
{
    if dimensions.len() != 3 {
        return Err(ImagePlanError::InvalidDimensions);
    }
    let height = dimensions[1];
    let width = dimensions[2];
    if height > u32::MAX as u64 || width > (u32::MAX as u64) / 2 {
        return Err(ImagePlanError::ExtentTooLarge);
    }
    Ok(
        RawImagePlan {
            width: width as u32,
            height: height as u32,
            step: (width * 2) as u32,
        },
    )
}

/// The geometry of an eight-bit color image from a dataset shaped time by
/// height by width by components: three bytes per pixel.
pub fn rgb8_image_plan(dimensions: &Vec<u64>) -> (r: Result<RawImagePlan, ImagePlanError>)
    ensures
        match r {
            Ok(p) => {
                &&& dimensions@.len() == 4
                &&& dimensions@[1] <= u32::MAX
                &&& dimensions@[2] * 3 <= u32::MAX
                &&& p.width == dimensions@[2]
                &&& p.height == dimensions@[1]
                &&& p.step == dimensions@[2] * 3
            },
            Err(e) => {
                &&& e is InvalidDimensions <==> dimensions@.len() != 4
                &&& e is ExtentTooLarge <==> dimensions@.len() == 4 && (dimensions@[1] > u32::MAX
                    || dimensions@[2] * 3 > u32::MAX)
            },
        },
{
    if dimensions.len() != 4 {
        return Err(ImagePlanError::InvalidDimensions);
    }
    let height = dimensions[1];
    let width = dimensions[2];
    if height > u32::MAX as u64 || width > (u32::MAX as u64) / 3 {
        return Err(ImagePlanError::ExtentTooLarge);
    }
    Ok(
        RawImagePlan {
            width: width as u32,
            height: height as u32,
            step: (width * 3) as u32,
        },
    )
}

/// The dimensions of one record: the dataset's dimensions with the
/// leading time dimension removed.
pub fn record_dimensions(dimensions: &Vec<u64>) -> (r: Vec<u64>)
    requires
        dimensions@.len() >= 1,
    ensures
        r@ == dimensions@.drop_first(),
{
    let mut out: Vec<u64> = Vec::new();
    let mut i: usize = 1;
    while i < dimensions.len()
        invariant
            1 <= i <= dimensions@.len(),
            out@ == dimensions@.subrange(1, i as int),
        decreases dimensions@.len() - i,
    {
        let d = dimensions[i];
        out.push(d);
        proof {
            assert(out@ =~= dimensions@.subrange(1, i + 1));
        }
        i += 1;
    }
    proof {
        assert(out@ =~= dimensions@.drop_first());
    }
    out
}

/// The raw payload of one integer record: the record's dimensions and its
/// values in row-major order.  The host SDK encodes it into the message
/// schema.
#[derive(Debug, Clone)]
pub struct RawIntegerDataset {
    /// The record's dimensions, without the time dimension.
    pub dimensions: Vec<u64>,
    /// The record's values.
    pub dataset: Vec<u64>,
}

} // verus!
