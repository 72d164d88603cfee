//! Which files a run resizes, to what size, and the order of the steps of a run.
use vstd::prelude::*;
use vstd::arithmetic::div_mod::{
    lemma_div_denominator,
    lemma_div_is_ordered_by_denominator,
    lemma_div_pos_is_pos,
};
use crate::number::{lemma_pow10_mono, pow10, Percentage};
use crate::options::ResizeMode;
use crate::text::{same_text, split_on, split_text, views_of};

verus! {

/// The extension of a file name, as `Path::extension` finds it: the text after
/// the last `.`, unless there is no `.`, the only `.` leads the name, or the
/// name is `..`.
pub open spec fn extension_of(name: Seq<char>) -> Option<Seq<char>> {
    let pieces = split_on(name, '.');
    if name == seq!['.', '.'] || pieces.len() < 2 || (pieces.len() == 2 && pieces[0].len() == 0) {
        None
    } else {
        Some(pieces.last())
    }
}

/// The extensions of the images that a run resizes; case matters.
pub open spec fn is_image_extension(ext: Seq<char>) -> bool {
    ext == "png"@ || ext == "jpg"@ || ext == "jpeg"@
}

/// Whether a file of this name is resized.
pub open spec fn is_image_name(name: Seq<char>) -> bool {
    match extension_of(name) {
        Some(ext) => is_image_extension(ext),
        None => false,
    }
}

/// The extension of a file name, if it has one.
pub fn file_extension(name: &str) -> (r: Option<String>)
    ensures
        r is Some <==> extension_of(name@) is Some,
        r matches Some(e) ==> extension_of(name@) == Some(e@),
{
    let pieces = split_text(name, '.');
    proof {
        crate::text::lemma_split_nonempty(name@, '.');
        assert(views_of(pieces@)[0] == pieces@[0]@);
        assert(views_of(pieces@).last() == pieces@.last()@);
    }
    let n = pieces.len();
    if same_text(name, "..") {
        proof {
            reveal_strlit("..");
            assert(".."@ =~= seq!['.', '.']);
        }
        return None;
    }
    proof {
        reveal_strlit("..");
        assert(".."@ =~= seq!['.', '.']);
    }
    if n < 2 || (n == 2 && pieces[0].as_str().unicode_len() == 0) {
        None
    } else {
        Some(pieces[n - 1].clone())
    }
}

/// Whether a file of this name is resized: its extension is `png`, `jpg` or `jpeg`.
pub fn is_image_file(name: &str) -> (r: bool)
    ensures
        r == is_image_name(name@),
{
    match file_extension(name) {
        Some(ext) => same_text(ext.as_str(), "png") || same_text(ext.as_str(), "jpg") || same_text(
            ext.as_str(),
            "jpeg",
        ),
        None => false,
    }
}

/// `x` clamped to the 32-bit range, as a float-to-integer cast clamps it.
pub open spec fn clamp_u32(x: int) -> u32 {
    if x > u32::MAX {
        u32::MAX
    } else {
        x as u32
    }
}

/// A side of `dim` pixels scaled by `percent / 100`, rounded down.
pub open spec fn scaled_side(dim: u32, percent: Percentage) -> u32 {
    clamp_u32((dim * percent.digits) as int / (100 * pow10(percent.frac_len as nat)) as int)
}

/// The size that an image of `width` by `height` pixels is given.
pub open spec fn target_size(mode: ResizeMode, width: u32, height: u32) -> (u32, u32) {
    match mode {
        ResizeMode::AbsoluteSize { width: w, height: h } => (w, h),
        ResizeMode::ScaleFactor { percent } => (
            scaled_side(width, percent),
            scaled_side(height, percent),
        ),
    }
}

/// One side scaled by a percentage, rounded down and clamped to 32 bits.
pub fn scale_side(dim: u32, percent: Percentage) -> (r: u32)
    ensures
        r == scaled_side(dim, percent),
{
    let ghost x: int = (dim * percent.digits) as int;
    let ghost f: nat = percent.frac_len as nat;
    assert(0 <= x <= 0xffff_ffffu64 * 0xffff_ffff_ffff_ffffu64) by (nonlinear_arith)
        requires
            x == dim * percent.digits,
    ;
    let mut q: u128 = (dim as u128) * (percent.digits as u128) / 100;
    let mut k: u32 = 0;
    assert(pow10(0) == 1);
    while k < percent.frac_len && q > 0
        invariant
            k <= percent.frac_len,
            0 <= x,
            q as int == x / (100 * pow10(k as nat)) as int,
        decreases percent.frac_len - k,
    {
        proof {
            lemma_pow10_mono(0, k as nat);
            lemma_div_denominator(x, (100 * pow10(k as nat)) as int, 10);
            assert((100 * pow10(k as nat)) * 10 == 100 * pow10((k + 1) as nat));
        }
        q = q / 10;
        k = k + 1;
    }
    proof {
        lemma_pow10_mono(0, k as nat);
        lemma_pow10_mono(k as nat, f);
        if k < percent.frac_len {
            lemma_div_is_ordered_by_denominator(
                x,
                (100 * pow10(k as nat)) as int,
                (100 * pow10(f)) as int,
            );
            lemma_div_pos_is_pos(x, (100 * pow10(f)) as int);
        }
    }
    if q > u32::MAX as u128 {
        u32::MAX
    } else {
        q as u32
    }
}

/// The size that an image of `width` by `height` pixels is given under `mode`.
pub fn target_dimensions(mode: ResizeMode, width: u32, height: u32) -> (r: (u32, u32))
    ensures
        r == target_size(mode, width, height),
{
    match mode {
        ResizeMode::AbsoluteSize { width: w, height: h } => (w, h),
        ResizeMode::ScaleFactor { percent } => (scale_side(width, percent), scale_side(height, percent)),
    }
}

} // verus!
