//! The one call into the image decoder: reading the pixel dimensions out of
//! raw encoded bytes.

use vstd::prelude::*;

verus! {

/// The pixel dimensions the image decoder reads from encoded bytes, if the
/// bytes decode at all. Decoding is a function of the bytes alone.
pub uninterp spec fn image_dims(bytes: Seq<u8>) -> Option<(u32, u32)>;

/// Relies on image::load_from_memory: decoding depends only on the bytes;
/// on success, width() and height() of the decoded image are its pixel
/// dimensions.
#[verifier::external_body]
pub fn decode_dims(bytes: &Vec<u8>) -> (r: Option<(u32, u32)>)
    ensures
        r == image_dims(bytes@),
{
    match image::load_from_memory(bytes.as_slice()) {
        Ok(img) => Some((img.width(), img.height())),
        Err(_) => None,
    }
}

} // verus!
