//! PNG encoding of repacked RGBA buffers.
//!
//! The repacking itself is this crate's own logic (see [`crate::repack`]);
//! the PNG container and its compression belong to the png crate, which is
//! called here behind a small trusted boundary.

use crate::repack::packed_rows;
use crate::repack::repack;
use crate::repack::RepackError;
use vstd::prelude::*;

verus! {

/// A PNG encoding failure, as the png crate reports it.
#[verifier::external_type_specification]
#[verifier::external_body]
pub struct ExEncodingError(png::EncodingError);

/// The PNG stream that the png crate's encoder produces for an image of
/// `width` by `height` RGBA pixels from the packed bytes `pixels`, with
/// 8-bit depth, no row filtering and the encoder's default compression.
/// With those settings fixed, the stream depends on the arguments alone.
pub uninterp spec fn png_encoding(width: u32, height: u32, pixels: Seq<u8>) -> Seq<u8>;

/// Relies on png::Encoder, png::Writer::write_image_data and
/// png::Writer::finish: encodes `pixels` as one `width` by `height` RGBA
/// image, 8-bit depth, no row filtering, into an in-memory PNG stream.
/// The result is a function of the arguments alone.
///
/// Success is owed on these inputs: the header is rejected only for a
/// zero dimension or an invalid colour/depth pair (RGBA at 8 bits is
/// valid), the image data only when its length is not the expected
/// `4 * width * height`, and every write — the compression included —
/// goes to an in-memory buffer, which cannot fail; so does `finish`.
#[verifier::external_body]
fn encode_rgba(width: u32, height: u32, pixels: &Vec<u8>) -> (r: Result<
    Vec<u8>,
    png::EncodingError,
>)
    requires
        width > 0,
        height > 0,
        pixels@.len() == 4 * (width as nat) * (height as nat),
    ensures
        r is Ok,
        r matches Ok(out) ==> out@ == png_encoding(width, height, pixels@),
{
    let mut out: Vec<u8> = Vec::new();
    let mut encoder = png::Encoder::new(&mut out, width, height);
    encoder.set_color(png::ColorType::Rgba);
    encoder.set_depth(png::BitDepth::Eight);
    encoder.set_filter(png::Filter::NoFilter);
    let mut writer = encoder.write_header()?;
    writer.write_image_data(pixels)?;
    writer.finish()?;
    Ok(out)
}

/// Why a conversion to PNG failed.
#[derive(Debug)]
pub enum ConvertError {
    /// The buffer could not be repacked.
    Repack(RepackError),
    /// An error of the PNG encoder, surfaced unchanged. For the fixed
    /// settings `repack_to_png` uses the encoder is proved not to fail,
    /// so its contract rules this variant out.
    Encode(png::EncodingError),
}

/// Repacks a decoded `width` by `height` RGBA buffer, whose rows may
/// carry trailing padding, into tightly packed rows of `width * 4` bytes
/// and encodes them as a PNG stream.
///
/// The per-row stride is inferred as `data.len() / height`; a buffer
/// whose length `height` does not divide is malformed, and one whose
/// inferred stride falls short of the logical row size cannot be
/// repacked. Those are the only failures: on every buffer whose layout
/// the repacking accepts, a PNG stream is returned.
pub fn repack_to_png(data: &Vec<u8>, width: u32, height: u32) -> (r: Result<Vec<u8>, ConvertError>)
    requires
        width > 0,
        height > 0,
        data@.len() > 0,
        4 * width <= usize::MAX,
    ensures
        r is Ok <==> data@.len() % (height as nat) == 0 && 4 * (width as nat) <= data@.len() / (
        height as nat),
        match r {
            Ok(out) => {
                &&& data@.len() % (height as nat) == 0
                &&& 4 * (width as nat) <= data@.len() / (height as nat)
                &&& out@ == png_encoding(
                    width,
                    height,
                    packed_rows(
                        data@,
                        data@.len() / (height as nat),
                        4 * (width as nat),
                        height as nat,
                    ),
                )
            },
            Err(e) => match e {
                ConvertError::Repack(re) => match re {
                    RepackError::MalformedBuffer => data@.len() % (height as nat) != 0,
                    RepackError::NegativeOffset => data@.len() % (height as nat) == 0 && data@.len()
                        / (height as nat) < 4 * (width as nat),
                },
                ConvertError::Encode(_) => false,
            },
        },
{
    let logical_row_size: usize = (width as usize) * 4;
    let rows: usize = height as usize;
    match repack(data, rows, logical_row_size) {
        Ok(packed) => match encode_rgba(width, height, &packed) {
            Ok(out) => Ok(out),
            Err(e) => Err(ConvertError::Encode(e)),
        },
        Err(e) => Err(ConvertError::Repack(e)),
    }
}

} // verus!
