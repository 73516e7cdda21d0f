//! Grey images as PNG files, in memory.

use vstd::prelude::*;

verus! {

/// The error type of `std::io`, in which the PNG encoder reports a refusal.
#[verifier::external_type_specification]
#[verifier::external_body]
pub struct ExIoError(std::io::Error);

/// The bytes of the PNG file that the encoder of the `image` crate makes of a
/// grey image: `pixels` row by row, `bits` bits to a sample.
pub uninterp spec fn png_of_gray(pixels: Seq<u8>, width: u32, height: u32, bits: u8) -> Seq<u8>;

/// The bytes that one row of a grey image takes.
pub open spec fn row_bytes(width: u32, bits: u8) -> int {
    (width * bits + 7) / 8
}

/// The encoder can count the bits of a row and the bytes of the image on this
/// machine. On a machine with addresses of 64 bits this holds of every image of
/// up to eight bits to the sample.
pub open spec fn countable(width: u32, height: u32, bits: u8) -> bool {
    &&& width * bits + 7 <= usize::MAX
    &&& row_bytes(width, bits) * height <= usize::MAX
}

/// What the encoder takes for a grey image: a bit depth that PNG knows, at
/// least one column and one row, and as many bytes as the rows take.
pub open spec fn encodable(len: nat, width: u32, height: u32, bits: u8) -> bool {
    &&& bits == 1 || bits == 2 || bits == 4 || bits == 8 || bits == 16
    &&& width > 0
    &&& height > 0
    &&& len == row_bytes(width, bits) * height
}

/// Why an image of one byte to the pixel is not encoded.
#[derive(Clone, Copy, Debug, PartialEq, Eq, Structural)]
pub enum Refusal {
    /// The image has no columns.
    ZeroWidth,
    /// The image has columns, but no rows.
    ZeroHeight,
    /// The bits of a row cannot be counted on this machine.
    TooWide,
    /// The buffer does not hold one byte for each pixel.
    WrongLength,
}

/// An image that was not encoded: the reason, and the encoder's own error where
/// the encoder was asked.
#[derive(Debug)]
pub struct ImageError {
    pub reason: Refusal,
    pub source: Option<std::io::Error>,
}

/// The low 32 bits of a dimension.
pub open spec fn low32(n: usize) -> u32 {
    ((n as int) % 0x1_0000_0000) as u32
}

/// The reason for which an image of `width` by `height` pixels, one byte each,
/// is refused, where it is refused.
pub open spec fn refusal_of(width: u32, height: u32) -> Refusal {
    if width == 0 {
        Refusal::ZeroWidth
    } else if height == 0 {
        Refusal::ZeroHeight
    } else if width * 8 + 7 > usize::MAX {
        Refusal::TooWide
    } else {
        Refusal::WrongLength
    }
}

/// Calls `image::png::PNGEncoder::encode` on a writer that is a vector of bytes,
/// with the colour type `Gray(bits)`, and hands back what was written. The
/// encoder counts the bits of a row and the bytes of the image in `usize`, so
/// both must fit. It then refuses a bit depth that PNG does not know, a width
/// or height of zero, and a buffer whose length is not that of `height` rows;
/// whatever else it is given it encodes, and a vector takes all that is written
/// to it. The file it writes depends on the image alone.
#[verifier::external_body]
fn encode_gray(pixels: &[u8], width: u32, height: u32, bits: u8) -> (file: Result<
    Vec<u8>,
    std::io::Error,
>)
    requires
        countable(width, height, bits),
    ensures
        file.is_ok() == encodable(pixels@.len(), width, height, bits),
        file matches Ok(bytes) ==> bytes@ == png_of_gray(pixels@, width, height, bits),
{
    let mut bytes = Vec::new();
    image::png::PNGEncoder::new(&mut bytes).encode(
        pixels,
        width,
        height,
        image::ColorType::Gray(bits),
    )?;
    Ok(bytes)
}

/// The reason for which an image of `width` by `height` pixels is refused.
pub fn refusal(width: u32, height: u32) -> (reason: Refusal)
    ensures
        reason == refusal_of(width, height),
{
    if width == 0 {
        Refusal::ZeroWidth
    } else if height == 0 {
        Refusal::ZeroHeight
    } else if (width as u64) * 8 + 7 > usize::MAX as u64 {
        Refusal::TooWide
    } else {
        Refusal::WrongLength
    }
}

/// Whether the encoder can count an image of `width` by `height` pixels, one
/// byte each, on this machine.
pub fn is_countable(width: u32, height: u32) -> (fits: bool)
    ensures
        fits == countable(width, height, 8),
{
    let most: u64 = usize::MAX as u64;
    assert(row_bytes(width, 8) == width);
    assert(width * height <= 0xffff_ffff * 0xffff_ffff) by (nonlinear_arith)
        requires
            width <= 0xffff_ffff,
            height <= 0xffff_ffff,
    ;
    (width as u64) * 8 + 7 <= most && (width as u64) * (height as u64) <= most
}

/// What becomes of the encoder's answer for an image of `width` by `height`
/// pixels, one byte each: the file as it is; an error is kept as it is, and
/// the reason that the dimensions show is put beside it.
pub fn settle(file: Result<Vec<u8>, std::io::Error>, width: u32, height: u32) -> (settled: Result<
    Vec<u8>,
    ImageError,
>)
    ensures
        match file {
            Ok(bytes) => settled == Ok::<Vec<u8>, ImageError>(bytes),
            Err(error) => settled == Err::<Vec<u8>, ImageError>(
                ImageError { reason: refusal_of(width, height), source: Some(error) },
            ),
        },
{
    match file {
        Ok(bytes) => Ok(bytes),
        Err(error) => Err(ImageError { reason: refusal(width, height), source: Some(error) }),
    }
}

/// Encodes a grey image, one byte to each pixel, as a PNG file. Of each of the
/// two dimensions in `bounds` the low 32 bits count. The image is refused where
/// one of them is zero, where `pixels` has not one byte for each pixel, and
/// where the encoder could not count the image on this machine; only then is
/// the encoder not asked, and the error without a source.
pub fn encode_image(pixels: &[u8], bounds: (usize, usize)) -> (file: Result<Vec<u8>, ImageError>)
    ensures
        file.is_ok() == (low32(bounds.0) > 0 && low32(bounds.1) > 0 && pixels@.len() == low32(
            bounds.0,
        ) * low32(bounds.1) && low32(bounds.0) * 8 + 7 <= usize::MAX),
        file matches Ok(bytes) ==> bytes@ == png_of_gray(
            pixels@,
            low32(bounds.0),
            low32(bounds.1),
            8,
        ),
        file matches Err(error) ==> error.reason == refusal_of(low32(bounds.0), low32(bounds.1))
            && error.source.is_some() == countable(low32(bounds.0), low32(bounds.1), 8),
{
    let width: u32 = ((bounds.0 as u64) % 0x1_0000_0000) as u32;
    let height: u32 = ((bounds.1 as u64) % 0x1_0000_0000) as u32;
    let len = pixels.len();
    assert(row_bytes(width, 8) == width);
    if is_countable(width, height) {
        settle(encode_gray(pixels, width, height, 8), width, height)
    } else {
        Err(ImageError { reason: refusal(width, height), source: None })
    }
}

} // verus!
