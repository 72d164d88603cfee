//! The image crate's resampling filters. The resampling itself runs where the
//! decoded image is, beside the file I/O: whether it panics depends on the
//! dimensions of that image.
use vstd::prelude::*;
use image::imageops::FilterType;
use crate::options::FilterKind;

verus! {

/// The image crate's resampling filters, variant by variant.
#[verifier::external_type_specification]
pub struct ExFilterType(FilterType);

/// The image crate's filter for each filter kind: linear is its triangle
/// filter and cubic its Catmull-Rom filter.
pub open spec fn filter_type_of(kind: FilterKind) -> FilterType {
    match kind {
        FilterKind::Nearest => FilterType::Nearest,
        FilterKind::Linear => FilterType::Triangle,
        FilterKind::Cubic => FilterType::CatmullRom,
        FilterKind::Gaussian => FilterType::Gaussian,
        FilterKind::Lanczos3 => FilterType::Lanczos3,
    }
}

/// The image crate's filter for a filter kind.
pub fn to_filter_type(kind: FilterKind) -> (r: FilterType)
    ensures
        r == filter_type_of(kind),
{
    match kind {
        FilterKind::Nearest => FilterType::Nearest,
        FilterKind::Linear => FilterType::Triangle,
        FilterKind::Cubic => FilterType::CatmullRom,
        FilterKind::Gaussian => FilterType::Gaussian,
        FilterKind::Lanczos3 => FilterType::Lanczos3,
    }
}

} // verus!
