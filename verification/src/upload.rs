use vstd::prelude::*;

use crate::raster::Raster;
use crate::util::{sanitize, spec_sanitize};

verus! {

/// Why an uploaded image is refused.
#[derive(Clone, Copy, PartialEq, Eq, Debug, Structural)]
pub enum UploadError {
    /// The file name is empty once cleaned.
    BadName,
    /// The bytes are not an image that can be decoded.
    BadImage,
}

/// The image that `image::load_from_memory` decodes from `bytes`, read as 8-bit
/// RGBA: its width, its height and its pixels row by row; `None` when the bytes
/// are not an image of a format it recognises and can decode.
pub uninterp spec fn decoded_image(bytes: Seq<u8>) -> Option<(u32, u32, Seq<[u8; 4]>)>;

/// Decodes an uploaded file with `image::load_from_memory` (the format is guessed
/// from the bytes) and reads the result as 8-bit RGBA pixels with
/// `DynamicImage::to_rgba8`. Trusted: the result is `decoded_image(bytes)`, and a
/// decoded image holds `width * height` pixels, as `ImageBuffer` keeps them.
#[verifier::external_body]
pub(crate) fn decode_image(bytes: &[u8]) -> (r: Option<Raster>)
    ensures
        match r {
            Some(img) => img.wf() && decoded_image(bytes@) == Some((img.width, img.height, img.pixels@)),
            None => decoded_image(bytes@) is None,
        },
{
    match image::load_from_memory(bytes) {
        Ok(img) => {
            let rgba = img.to_rgba8();
            Some(Raster { width: rgba.width(), height: rgba.height(), pixels: rgba.pixels().map(|p| p.0).collect() })
        },
        Err(_) => None,
    }
}

/// Where and what to store for an image that user `username` uploads under the
/// name `file_name`: the directory (the user name, cleaned as a directory name),
/// the file name (cleaned as a directory name, then `.png`) and the decoded image.
///
/// Refuses a name that is empty once cleaned (`BadName`), and otherwise bytes that
/// do not decode as an image (`BadImage`).
pub fn plan_upload(file_name: &str, username: &str, bytes: &[u8]) -> (r: Result<(String, String, Raster), UploadError>)
    ensures
        r == Err::<(String, String, Raster), UploadError>(UploadError::BadName) <==> spec_sanitize(file_name@, true).len() == 0,
        r == Err::<(String, String, Raster), UploadError>(UploadError::BadImage) <==> (spec_sanitize(file_name@, true).len() > 0
            && decoded_image(bytes@) is None),
        match r {
            Ok((dir, name, img)) => {
                &&& dir@ == spec_sanitize(username@, true)
                &&& name@ == spec_sanitize(file_name@, true) + ".png"@
                &&& img.wf()
                &&& decoded_image(bytes@) == Some((img.width, img.height, img.pixels@))
            },
            Err(_) => true,
        },
{
    let clean = sanitize(file_name, true);
    if clean.unicode_len() == 0 {
        return Err(UploadError::BadName);
    }
    let img = match decode_image(bytes) {
        Some(img) => img,
        None => return Err(UploadError::BadImage),
    };
    let mut name = clean;
    name.append(".png");
    let dir = sanitize(username, true);
    Ok((dir, name, img))
}

} // verus!
