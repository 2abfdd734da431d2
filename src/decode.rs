//! Image decoding, done by the `image` crate.
use vstd::prelude::*;

verus! {

/// The error type of the `image` crate, carried through unopened.
#[verifier::external_type_specification]
#[verifier::external_body]
pub struct ExImageError(image::ImageError);

/// The packed RGB bytes (three per pixel, row by row) that `image` decodes
/// from an encoded buffer, or `None` where it refuses the buffer.
pub uninterp spec fn decoded_rgb8(bytes: Seq<u8>) -> Option<Seq<u8>>;

/// Relies on `image::guess_format`, which picks a built-in format from the
/// buffer's magic bytes, on `image::load_from_memory_with_format`, which
/// decodes the buffer with that built-in decoder, and on
/// `DynamicImage::to_rgb8` and `ImageBuffer::into_raw`, which convert the
/// image to 8-bit RGB and hand out its samples. Neither call consults the
/// process-wide format-detection or decoding hooks, so the outcome depends on
/// the buffer's bytes alone.
#[verifier::external_body]
pub(crate) fn decode_rgb8(buffer: &[u8]) -> (r: Result<Vec<u8>, image::ImageError>)
    ensures
        match r {
            Ok(v) => decoded_rgb8(buffer@) == Some(v@),
            Err(_) => decoded_rgb8(buffer@) is None,
        },
{
    image::guess_format(buffer).and_then(|f| image::load_from_memory_with_format(buffer, f)).map(
        |img| img.to_rgb8().into_raw(),
    )
}

} // verus!
