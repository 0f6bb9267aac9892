//! The per-image pipeline around the snapper: decode, resize, center-crop,
//! and the content-addressed output name.
//!
//! The pixel work itself is done by outside services (an image codec and a
//! Lanczos resampler) behind trusted wrappers; the library verifies the
//! logic around them: which target is chosen, which dimensions every buffer
//! has, and when each error is returned.

use vstd::prelude::*;
use vstd::string::StringExecFns;
use std::num::NonZeroU32;
use fast_image_resize::FilterType;
use fast_image_resize::Image;
use fast_image_resize::PixelType;
use fast_image_resize::ResizeAlg;
use fast_image_resize::Resizer;
use crate::resset::ResolutionSet;
use crate::snap::snap;
use crate::snap::best_idx;
use crate::snap::SnapError;

verus! {

/// A per-image failure; the job is skipped and the batch continues.
#[derive(Debug)]
pub enum ProcessError {
    /// The bytes could not be decoded as an image.
    Decode,
    /// The decoded image reported a zero width or height.
    InvalidDimensions,
    /// The decoded image has more pixels than the resampler's 32-bit
    /// arithmetic can address.
    TooLarge,
    /// The image is smaller than the chosen target in some dimension.
    TooSmall,
}

/// The RGB decoding of a byte string, if it is a supported image: the packed
/// 3-byte-per-pixel buffer with its width and height.  A fixed function of
/// the bytes alone.
pub uninterp spec fn decoded_rgb(data: Seq<u8>) -> Option<(Seq<u8>, u32, u32)>;

/// Relies on image::load_from_memory and DynamicImage::to_rgb8: decoding is
/// a fixed function of the bytes, and the RGB8 buffer holds width * height
/// pixels of 3 bytes each.
#[verifier::external_body]
fn decode_image(data: &Vec<u8>) -> (r: Result<(Vec<u8>, u32, u32), ProcessError>)
    ensures
        match r {
            Ok(d) => decoded_rgb(data@) == Some((d.0@, d.1, d.2)) && d.0@.len() == 3 * (
            d.1 as int) * (d.2 as int),
            Err(e) => decoded_rgb(data@) is None && e is Decode,
        },
{
    match image::load_from_memory(data.as_slice()) {
        Ok(img) => {
            let w = img.width();
            let h = img.height();
            Ok((img.to_rgb8().into_raw(), w, h))
        },
        Err(_) => Err(ProcessError::Decode),
    }
}

/// Relies on fast_image_resize: Image::new allocates a width * height U8x3
/// buffer, and Resizer::resize with a Lanczos3 convolution fills it from a
/// source of the same pixel type, which never fails.  The dimension bounds
/// keep the crate's own 32-bit pixel-count arithmetic from overflowing.
#[verifier::external_body]
fn fir_resize(src: Vec<u8>, src_w: u32, src_h: u32, dst_w: u32, dst_h: u32) -> (r: Vec<u8>)
    requires
        src_w >= 1,
        src_h >= 1,
        dst_w >= 1,
        dst_h >= 1,
        src@.len() == 3 * (src_w as int) * (src_h as int),
        3 * (src_w as int) * (src_h as int) <= u32::MAX,
        3 * (dst_w as int) * (dst_h as int) <= u32::MAX,
    ensures
        r@.len() == 3 * (dst_w as int) * (dst_h as int),
{
    let sw = NonZeroU32::new(src_w).unwrap();
    let sh = NonZeroU32::new(src_h).unwrap();
    let src_image = Image::from_vec_u8(sw, sh, src, PixelType::U8x3).unwrap();
    let dw = NonZeroU32::new(dst_w).unwrap();
    let dh = NonZeroU32::new(dst_h).unwrap();
    let mut dst_image = Image::new(dw, dh, PixelType::U8x3);
    let mut dst_view = dst_image.view_mut();
    let mut resizer = Resizer::new(ResizeAlg::Convolution(FilterType::Lanczos3));
    resizer.resize(&src_image.view(), &mut dst_view).unwrap();
    dst_image.buffer().to_vec()
}

/// Relies on fast_image_resize: set_crop_box_to_fit_dst_size selects the
/// largest centered box of the destination's aspect ratio, and the same
/// Lanczos3 resize maps it onto a crop_w * crop_h U8x3 buffer.
#[verifier::external_body]
fn fir_crop(src: Vec<u8>, src_w: u32, src_h: u32, crop_w: u32, crop_h: u32) -> (r: Vec<u8>)
    requires
        src_w >= 1,
        src_h >= 1,
        crop_w >= 1,
        crop_h >= 1,
        src@.len() == 3 * (src_w as int) * (src_h as int),
        3 * (src_w as int) * (src_h as int) <= u32::MAX,
        3 * (crop_w as int) * (crop_h as int) <= u32::MAX,
    ensures
        r@.len() == 3 * (crop_w as int) * (crop_h as int),
{
    let sw = NonZeroU32::new(src_w).unwrap();
    let sh = NonZeroU32::new(src_h).unwrap();
    let src_image = Image::from_vec_u8(sw, sh, src, PixelType::U8x3).unwrap();
    let cw = NonZeroU32::new(crop_w).unwrap();
    let ch = NonZeroU32::new(crop_h).unwrap();
    let mut src_view = src_image.view();
    src_view.set_crop_box_to_fit_dst_size(cw, ch, None);
    let mut dst_image = Image::new(cw, ch, PixelType::U8x3);
    let mut dst_view = dst_image.view_mut();
    let mut resizer = Resizer::new(ResizeAlg::Convolution(FilterType::Lanczos3));
    resizer.resize(&src_view, &mut dst_view).unwrap();
    dst_image.buffer().to_vec()
}

/// Resizes the image to the snapper's intermediate size, then center-crops
/// to the chosen target.  Fails exactly when the image is smaller than the
/// best-fitting candidate; on success the returned buffer has exactly the
/// chosen target's dimensions, 3 bytes per pixel.
pub fn resize_and_crop_pixels(pixels: Vec<u8>, img_w: u32, img_h: u32, set: &ResolutionSet) -> (r:
    Result<(Vec<u8>, u32, u32), SnapError>)
    requires
        img_w > 0,
        img_h > 0,
        pixels@.len() == 3 * (img_w as int) * (img_h as int),
        3 * (img_w as int) * (img_h as int) <= u32::MAX,
        set.wf(),
    ensures
        ({
            let k = best_idx(img_w as int, img_h as int, set@);
            &&& (r is Err <==> img_w < set@[k].0 || img_h < set@[k].1)
            &&& (r matches Ok(o) ==> o.1 == set@[k].0 && o.2 == set@[k].1 && o.0@.len() == 3 * (
            o.1 as int) * (o.2 as int))
        }),
{
    let sr = match snap(img_w, img_h, set) {
        Ok(sr) => sr,
        Err(e) => {
            return Err(e);
        },
    };
    proof {
        assert(3 * (sr.resize_w as int) * (sr.resize_h as int) <= 3 * (img_w as int) * (
        img_h as int) && 3 * (sr.target_w as int) * (sr.target_h as int) <= 3 * (sr.resize_w as int)
            * (sr.resize_h as int)) by (nonlinear_arith)
            requires
                0 < sr.target_w <= sr.resize_w <= img_w,
                0 < sr.target_h <= sr.resize_h <= img_h,
        ;
    }
    let resized = fir_resize(pixels, img_w, img_h, sr.resize_w, sr.resize_h);
    let cropped = fir_crop(resized, sr.resize_w, sr.resize_h, sr.target_w, sr.target_h);
    Ok((cropped, sr.target_w, sr.target_h))
}

/// Runs one image's bytes through decode, snap, resize and crop.  The result
/// is the output pixel buffer with the chosen target's dimensions, or the
/// error naming exactly why this image is skipped.
pub fn process_bytes(data: &Vec<u8>, set: &ResolutionSet) -> (r: Result<
    (Vec<u8>, u32, u32),
    ProcessError,
>)
    requires
        set.wf(),
    ensures
        match decoded_rgb(data@) {
            None => r matches Err(e) && e is Decode,
            Some(d) => {
                let w = d.1;
                let h = d.2;
                if w == 0 || h == 0 {
                    r matches Err(e) && e is InvalidDimensions
                } else if 3 * (w as int) * (h as int) > u32::MAX {
                    r matches Err(e) && e is TooLarge
                } else {
                    let k = best_idx(w as int, h as int, set@);
                    if w < set@[k].0 || h < set@[k].1 {
                        r matches Err(e) && e is TooSmall
                    } else {
                        r matches Ok(o) && o.1 == set@[k].0 && o.2 == set@[k].1 && o.0@.len() == 3
                            * (o.1 as int) * (o.2 as int)
                    }
                }
            },
        },
{
    let (pixels, w, h) = match decode_image(data) {
        Ok(d) => d,
        Err(_) => {
            return Err(ProcessError::Decode);
        },
    };
    if w == 0 || h == 0 {
        return Err(ProcessError::InvalidDimensions);
    }
    proof {
        assert(0 <= (w as int) * (h as int) <= 0xFFFF_FFFFu64 * 0xFFFF_FFFFu64)
            by (nonlinear_arith)
            requires
                w <= 0xFFFF_FFFFu64 && h <= 0xFFFF_FFFFu64,
        ;
        assert(3 * (w as int) * (h as int) == 3 * ((w as int) * (h as int))) by (nonlinear_arith);
    }
    let area: u64 = (w as u64) * (h as u64);
    if area > 1431655765 {
        return Err(ProcessError::TooLarge);
    }
    match resize_and_crop_pixels(pixels, w, h, set) {
        Ok(o) => Ok(o),
        Err(SnapError::TooSmall) => Err(ProcessError::TooSmall),
    }
}

/// The hexadecimal BLAKE3 digest of a byte string: 64 lowercase hex digits,
/// a fixed function of the bytes alone.
pub uninterp spec fn blake3_hex(data: Seq<u8>) -> Seq<char>;

/// Relies on blake3::hash and Hash::to_hex: the 32-byte digest printed as 64
/// hex characters, depending on the input bytes alone.
#[verifier::external_body]
fn blake3_hex_digest(data: &Vec<u8>) -> (r: String)
    ensures
        r@ == blake3_hex(data@),
        r@.len() == 64,
{
    String::from(blake3::hash(data.as_slice()).to_hex().as_str())
}

/// The content-addressed output name: the source bytes' digest, a dot, and
/// the configured output extension.
pub open spec fn output_name_chars(data: Seq<u8>, ext: Seq<char>) -> Seq<char> {
    blake3_hex(data) + seq!['.'] + ext
}

/// Derives the output file name for a source file's raw bytes.  Identical
/// bytes always derive the identical name.
pub fn output_file_name(data: &Vec<u8>, ext: &str) -> (r: String)
    ensures
        r@ == output_name_chars(data@, ext@),
{
    let mut name = blake3_hex_digest(data);
    name.append(".");
    name.append(ext);
    proof {
        reveal_strlit(".");
        assert(name@ =~= output_name_chars(data@, ext@));
    }
    name
}

/// The writer's deduplication law: identical source bytes derive the
/// identical output name, so processing the same bytes a second time targets
/// the file that already exists and is skipped by the existence check
/// instead of writing a second artifact.
pub proof fn lemma_output_name_deterministic(a: Seq<u8>, b: Seq<u8>, ext: Seq<char>)
    requires
        a == b,
    ensures
        output_name_chars(a, ext) == output_name_chars(b, ext),
{
}

} // verus!
