//! The cover that goes with the audio files.
use crate::wav::same_bytes;
use vstd::prelude::*;

verus! {

/// The name of the exported cover.
pub const COVER_FILE: &'static str = "cover.jpg";

/// The name that the cover has while it is written.
pub const COVER_PARTIAL_FILE: &'static str = "cover.jpg.partial";

/// The quality at which a cover is encoded, of 100.
pub const COVER_QUALITY: u8 = 90;

/// The largest width and height that a JPEG image can have.
pub const JPEG_MAX_SIDE: u32 = 65535;

/// Whether bytes begin as a JPEG image does.
pub open spec fn is_jpeg(b: Seq<u8>) -> bool {
    b.len() >= 3 && b[0] == 0xff && b[1] == 0xd8 && b[2] == 0xff
}

/// Tests whether bytes begin as a JPEG image does.
pub fn is_jpeg_bytes(bytes: &[u8]) -> (r: bool)
    ensures
        r == is_jpeg(bytes@),
{
    bytes.len() >= 3 && bytes[0] == 0xff && bytes[1] == 0xd8 && bytes[2] == 0xff
}

/// A picture as rows of pixels, each of them a red, a green and a blue sample.
pub struct Picture {
    pub width: u32,
    pub height: u32,
    pub samples: Vec<u8>,
}

impl Picture {
    /// Whether there are three samples for each pixel, and a `usize` can count those of a row; the
    /// latter says something only of a picture without rows.
    pub open spec fn wf(self) -> bool {
        self.samples@.len() == self.width * self.height * 3 && self.width * 3 <= usize::MAX
    }

    /// Its width, its height and its samples.
    pub open spec fn parts(self) -> (u32, u32, Seq<u8>) {
        (self.width, self.height, self.samples@)
    }
}

/// The width, the height and the samples of the picture that `image::load_from_memory` finds in
/// the given bytes, as `image::DynamicImage::to_rgb8` converts it.
pub uninterp spec fn decoded_picture(bytes: Seq<u8>) -> (u32, u32, Seq<u8>);

/// The bytes that `image::codecs::jpeg::JpegEncoder` writes for the given samples, width, height
/// and quality.
pub uninterp spec fn encoded_jpeg(samples: Seq<u8>, width: u32, height: u32, quality: u8) -> Seq<
    u8,
>;

/// `image::load_from_memory` guesses the format from the first bytes and decodes the picture;
/// `image::DynamicImage::to_rgb8` makes it one of three samples of eight bits for each pixel. The
/// picture depends on the bytes alone, but for a JPEG image, whose decoder takes other ways on
/// other processors; nobody registers a decoder of another kind with `image::hooks`. It is not
/// stated when there is no picture: bytes that hold none have this result, and so has a want of
/// memory.
#[verifier::external_body]
fn decode_rgb(bytes: &[u8]) -> (r: Option<Picture>)
    ensures
        r is Some ==> r->0.wf(),
        r is Some && !is_jpeg(bytes@) ==> r->0.parts() == decoded_picture(bytes@),
{
    let rgb = image::load_from_memory(bytes).ok()?.to_rgb8();
    Some(Picture { width: rgb.width(), height: rgb.height(), samples: rgb.into_raw() })
}

/// `image::codecs::jpeg::JpegEncoder::encode` writes a JPEG image into the vector, beginning with
/// the two bytes of the start marker and with the marker of the first segment. It refuses sides
/// that a JPEG image cannot have, and nothing else; a number of samples that does not fit the
/// sides makes it panic, and so does a row whose samples a `usize` cannot count.
#[verifier::external_body]
fn encode_jpeg(picture: &Picture, quality: u8) -> (r: Option<Vec<u8>>)
    requires
        picture.wf(),
    ensures
        r is Some <==> fits_jpeg(picture.width, picture.height),
        r is Some ==> r->0@ == encoded_jpeg(picture.samples@, picture.width, picture.height, quality),
        r is Some ==> is_jpeg(r->0@),
{
    let mut out = Vec::new();
    image::codecs::jpeg::JpegEncoder::new_with_quality(&mut out, quality).encode(
        &picture.samples,
        picture.width,
        picture.height,
        image::ExtendedColorType::Rgb8,
    ).ok()?;
    Some(out)
}

/// Whether a JPEG image can have the given sides.
pub open spec fn fits_jpeg(width: u32, height: u32) -> bool {
    1 <= width <= JPEG_MAX_SIDE && 1 <= height <= JPEG_MAX_SIDE
}

/// A picture as a JPEG image, where it can be one.
pub open spec fn jpeg_of(parts: (u32, u32, Seq<u8>)) -> Option<Seq<u8>> {
    if fits_jpeg(parts.0, parts.1) {
        Some(encoded_jpeg(parts.2, parts.0, parts.1, COVER_QUALITY))
    } else {
        None
    }
}

/// The bytes of an optional vector.
pub open spec fn optional_bytes(b: Option<Vec<u8>>) -> Option<Seq<u8>> {
    match b {
        Some(v) => Some(v@),
        None => None,
    }
}

/// Encodes a picture as a JPEG image.
pub fn picture_to_jpeg_bytes(picture: &Picture) -> (r: Option<Vec<u8>>)
    requires
        picture.wf(),
    ensures
        optional_bytes(r) == jpeg_of(picture.parts()),
        r matches Some(j) ==> is_jpeg(j@),
{
    encode_jpeg(picture, COVER_QUALITY)
}

/// Whether `found` is what `decode_rgb` gives for the bytes: a picture, or none.
pub closed spec fn decoding_gives(bytes: Seq<u8>, found: Option<Picture>) -> bool {
    exists|b: &[u8]| b@ == bytes && #[trigger] call_ensures(decode_rgb, (b,), found)
}

/// What is made of the picture that was found, where one was.
pub open spec fn jpeg_of_found(found: Option<Picture>) -> Option<Seq<u8>> {
    match found {
        Some(picture) => jpeg_of(picture.parts()),
        None => None,
    }
}

/// Looks for a picture in the bytes with the given function.
fn decode_with<D: Fn(&[u8]) -> Option<Picture>>(decode: D, bytes: &[u8]) -> (found: Option<Picture>)
    requires
        call_requires(decode, (bytes,)),
    ensures
        call_ensures(decode, (bytes,), found),
{
    decode(bytes)
}

/// Converts an image of any known format to a JPEG image: the picture that is found in the bytes,
/// encoded, and nothing where none is found or a JPEG image cannot have its sides. It is not stated
/// in which bytes a picture is found.
pub fn image_to_jpeg_bytes(bytes: &[u8]) -> (r: Option<Vec<u8>>)
    ensures
        exists|found: Option<Picture>| #[trigger]
            decoding_gives(bytes@, found) && optional_bytes(r) == jpeg_of_found(found),
        r matches Some(j) ==> is_jpeg(j@),
        r is Some && !is_jpeg(bytes@) ==> optional_bytes(r) == jpeg_of(decoded_picture(bytes@)),
{
    let found: Option<Picture> = decode_with(decode_rgb, bytes);
    assert(decoding_gives(bytes@, found));
    match found {
        Some(picture) => picture_to_jpeg_bytes(&picture),
        None => None,
    }
}

/// What is found of the cover of a book.
pub enum CoverSource {
    /// There is no cover.
    Missing,
    /// There is one, but it cannot be read.
    Unreadable,
    /// The contents of its file.
    Bytes(Vec<u8>),
}

/// Why no cover is exported.
#[derive(Debug, Clone, Copy, PartialEq, Eq, Structural)]
pub enum CoverSkip {
    Missing,
    Unreadable,
    Empty,
    Unconvertible,
}

/// Whether `jpeg` is what is exported of a cover with the given bytes: the bytes themselves where
/// they are a JPEG image, else the picture in them as one.
pub open spec fn exported_from(bytes: Seq<u8>, jpeg: Seq<u8>) -> bool {
    if is_jpeg(bytes) {
        jpeg == bytes
    } else {
        jpeg_of(decoded_picture(bytes)) == Some(jpeg)
    }
}

/// Whether what is exported of a cover is the given JPEG image, or nothing where there is none.
pub open spec fn exported_agrees(
    r: Result<Vec<u8>, CoverSkip>,
    jpeg: Option<Seq<u8>>,
) -> bool {
    match jpeg {
        Some(j) => r is Ok && r->Ok_0@ == j,
        None => r == Err::<Vec<u8>, CoverSkip>(CoverSkip::Unconvertible),
    }
}

/// What is exported of a cover that is no JPEG image, given what it was converted to.
pub fn converted_cover(converted: Option<Vec<u8>>) -> (r: Result<Vec<u8>, CoverSkip>)
    ensures
        converted matches Some(j) ==> r == Ok::<Vec<u8>, CoverSkip>(j),
        converted is None ==> r == Err::<Vec<u8>, CoverSkip>(CoverSkip::Unconvertible),
{
    match converted {
        Some(jpeg) => Ok(jpeg),
        None => Err(CoverSkip::Unconvertible),
    }
}

/// Finds what is to be exported as the cover, or why nothing is. A JPEG image is exported as it
/// is; anything else is converted.
pub fn cover_for_export(source: CoverSource) -> (r: Result<Vec<u8>, CoverSkip>)
    ensures
        source is Missing <==> r == Err::<Vec<u8>, CoverSkip>(CoverSkip::Missing),
        source is Unreadable <==> r == Err::<Vec<u8>, CoverSkip>(CoverSkip::Unreadable),
        (source matches CoverSource::Bytes(b) && b@.len() == 0) <==> r == Err::<
            Vec<u8>,
            CoverSkip,
        >(CoverSkip::Empty),
        source matches CoverSource::Bytes(b) ==> is_jpeg(b@) ==> r is Ok,
        source matches CoverSource::Bytes(b) ==> r is Ok ==> exported_from(b@, r->Ok_0@),
        source matches CoverSource::Bytes(b) ==> b@.len() > 0 && !is_jpeg(b@) ==> exists|
            found: Option<Picture>,
        | #[trigger]
            decoding_gives(b@, found) && exported_agrees(r, jpeg_of_found(found)),
        r matches Ok(j) ==> is_jpeg(j@),
{
    match source {
        CoverSource::Missing => Err(CoverSkip::Missing),
        CoverSource::Unreadable => Err(CoverSkip::Unreadable),
        CoverSource::Bytes(bytes) => {
            if bytes.len() == 0 {
                Err(CoverSkip::Empty)
            } else if is_jpeg_bytes(bytes.as_slice()) {
                Ok(bytes)
            } else {
                converted_cover(image_to_jpeg_bytes(bytes.as_slice()))
            }
        },
    }
}

/// Tests whether the cover that was exported before is still the right one.
pub fn cover_is_current(jpeg: &[u8], existing: Option<&[u8]>) -> (r: bool)
    ensures
        r == (existing matches Some(e) && e@ == jpeg@),
{
    match existing {
        Some(bytes) => same_bytes(bytes, jpeg),
        None => false,
    }
}

/// A cover is exported as the same bytes each time, so that what was written once is found to be
/// current when the same cover is exported again.
pub proof fn law_same_cover_is_exported_alike(bytes: Seq<u8>, first: Seq<u8>, second: Seq<u8>)
    requires
        exported_from(bytes, first),
        exported_from(bytes, second),
    ensures
        first == second,
{
}

/// A JPEG image begins with the bytes 255, 216, 255; nothing else is taken for one.
pub proof fn law_jpeg_begins(b: Seq<u8>)
    ensures
        is_jpeg(b) <==> b.len() >= 3 && b.take(3) == seq![255u8, 216u8, 255u8],
{
    if is_jpeg(b) {
        assert(b.take(3) == seq![255u8, 216u8, 255u8]);
    }
    if b.len() >= 3 && b.take(3) == seq![255u8, 216u8, 255u8] {
        assert(b.take(3)[0] == b[0] && b.take(3)[1] == b[1] && b.take(3)[2] == b[2]);
    }
}

/// A picture becomes a JPEG image of the quality 90 where each of its sides has from 1 to 65535
/// pixels, with all its samples; no other becomes one.
pub proof fn law_pictures_become_jpeg(picture: Picture)
    ensures
        jpeg_of(picture.parts()) == (if 1 <= picture.width <= 65535 && 1 <= picture.height
            <= 65535 {
            Some(encoded_jpeg(picture.samples@, picture.width, picture.height, 90))
        } else {
            None
        }),
        jpeg_of_found(Some(picture)) == jpeg_of(picture.parts()),
        jpeg_of_found(None) is None,
{
}

/// Of a JPEG image the bytes themselves are exported, and nothing else; of another image, what the
/// picture in it is encoded to.
pub proof fn law_jpeg_is_exported_as_it_is(bytes: Seq<u8>, jpeg: Seq<u8>, exported: Vec<u8>)
    ensures
        is_jpeg(bytes) ==> (exported_from(bytes, jpeg) <==> jpeg == bytes),
        !is_jpeg(bytes) ==> (exported_from(bytes, jpeg) <==> jpeg_of(decoded_picture(bytes))
            == Some(jpeg)),
        exported_agrees(Ok(exported), Some(jpeg)) <==> exported@ == jpeg,
        !exported_agrees(Err(CoverSkip::Unconvertible), Some(jpeg)),
        exported_agrees(Err(CoverSkip::Unconvertible), None),
        !exported_agrees(Ok(exported), None),
        optional_bytes(Some(exported)) == Some(exported@),
        optional_bytes(None) is None,
{
}

} // verus!
