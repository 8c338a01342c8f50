//! Encoded image data: the JPEG quality search that keeps a legacy output
//! within its byte budget, and PNG bytes embedded as a data URI.
use vstd::prelude::*;
use crate::error::CoverError;

verus! {

/// The bytes the JPEG encoder writes for an RGB image at a quality.
pub uninterp spec fn jpeg_bytes(pixels: Seq<u8>, width: u32, height: u32, quality: u8) -> Seq<u8>;

/// Declares `image::ImageError`, the error `JpegEncoder::encode` returns; it is
/// carried through opaquely and mapped to [`CoverError::JpegEncoding`] with its message.
#[verifier::external_type_specification]
#[verifier::external_body]
pub struct ExImageError(image::ImageError);

/// Calls `image::codecs::jpeg::JpegEncoder::new_with_quality(..).encode(..)`
/// on 8-bit RGB pixels, writing into a fresh buffer. The contract claims that
/// the encoder accepts the image exactly when both sides are between 1 and
/// 65535 pixels (its only failure, since writing to a `Vec` cannot fail), and
/// that the bytes depend on the pixels, size and quality alone; what they
/// are is not stated. `encode` panics unless the buffer holds
/// `width * height * 3` bytes, hence the precondition.
#[verifier::external_body]
fn jpeg_encode(pixels: &[u8], width: u32, height: u32, quality: u8) -> (r: Result<Vec<u8>, image::ImageError>)
    requires
        pixels@.len() == width as int * height as int * 3,
    ensures
        r is Ok <==> (1 <= width <= 65535 && 1 <= height <= 65535),
        r matches Ok(b) ==> b@ == jpeg_bytes(pixels@, width, height, quality),
{
    let mut buf: Vec<u8> = Vec::new();
    image::codecs::jpeg::JpegEncoder::new_with_quality(&mut buf, quality).encode(
        pixels,
        width,
        height,
        image::ExtendedColorType::Rgb8,
    )?;
    Ok(buf)
}

/// Calls `image::ImageError`'s `Display` implementation (`to_string`) to get
/// the encoder's own message. Nothing is claimed of the text.
#[verifier::external_body]
fn image_error_text(e: &image::ImageError) -> (r: String) {
    e.to_string()
}

/// The qualities tried, best first.
pub open spec fn jpeg_qualities() -> Seq<u8> {
    seq![90u8, 85u8, 80u8, 75u8, 70u8, 65u8, 60u8, 55u8, 50u8, 45u8, 40u8, 35u8, 30u8, 25u8, 20u8]
}

/// The quality at position `i` of the ladder (see [`jpeg_qualities`]).
pub fn jpeg_quality(i: usize) -> (q: u8)
    requires
        i < 15,
    ensures
        q == jpeg_qualities()[i as int],
{
    let qs: [u8; 15] = [90, 85, 80, 75, 70, 65, 60, 55, 50, 45, 40, 35, 30, 25, 20];
    assert(qs@ =~= jpeg_qualities());
    qs[i]
}

/// What the search does after trying the quality at position `attempt`.
pub enum JpegStep {
    /// The encoding fits: keep it.
    Accept,
    /// It does not fit: try the next quality, at this position.
    Next(usize),
    /// It does not fit and no lower quality is left.
    GiveUp,
}

/// Decides the next step of the quality search from the size of the
/// encoding at position `attempt` of the ladder.
pub fn jpeg_step(attempt: usize, encoded_len: usize, max_bytes: usize) -> (r: JpegStep)
    requires
        attempt < 15,
    ensures
        encoded_len <= max_bytes ==> r is Accept,
        encoded_len > max_bytes && attempt + 1 < 15 ==> r == JpegStep::Next((attempt + 1) as usize),
        encoded_len > max_bytes && attempt + 1 >= 15 ==> r is GiveUp,
{
    if encoded_len <= max_bytes {
        JpegStep::Accept
    } else if attempt + 1 < 15 {
        JpegStep::Next(attempt + 1)
    } else {
        JpegStep::GiveUp
    }
}

/// The first position from `i` on whose encoding fits the budget.
pub open spec fn first_fit_from(pixels: Seq<u8>, width: u32, height: u32, max_bytes: usize, i: int) -> Option<int>
    decreases 15 - i,
{
    if i < 0 || i >= 15 {
        None
    } else if jpeg_bytes(pixels, width, height, jpeg_qualities()[i]).len() <= max_bytes {
        Some(i)
    } else {
        first_fit_from(pixels, width, height, max_bytes, i + 1)
    }
}

/// The ladder of qualities goes down from 90 in steps of 5 to 20.
pub proof fn lemma_jpeg_ladder()
    ensures
        jpeg_qualities().len() == 15,
        forall|i: int| 0 <= i < 15 ==> #[trigger] jpeg_qualities()[i] == 90 - 5 * i,
{
}

proof fn lemma_first_fit_from(pixels: Seq<u8>, width: u32, height: u32, max_bytes: usize, i: int)
    requires
        0 <= i <= 15,
    ensures
        match first_fit_from(pixels, width, height, max_bytes, i) {
            Some(j) => i <= j < 15 && jpeg_bytes(pixels, width, height, jpeg_qualities()[j]).len() <= max_bytes
                && forall|k: int| i <= k < j ==> #[trigger] jpeg_bytes(pixels, width, height, jpeg_qualities()[k]).len() > max_bytes,
            None => forall|k: int| i <= k < 15 ==> #[trigger] jpeg_bytes(pixels, width, height, jpeg_qualities()[k]).len() > max_bytes,
        },
    decreases 15 - i,
{
    if i < 15 {
        lemma_first_fit_from(pixels, width, height, max_bytes, i + 1);
    }
}

/// The search keeps the best quality that fits: it is on the ladder
/// (90, 85, ..., 20), its encoding fits the budget, and the encoding at every
/// higher quality of the ladder is longer than the budget. When nothing is
/// found, no quality of the ladder fits.
pub proof fn lemma_best_quality_that_fits(pixels: Seq<u8>, width: u32, height: u32, max_bytes: usize)
    ensures
        match first_fit_from(pixels, width, height, max_bytes, 0) {
            Some(j) => 0 <= j < 15 && jpeg_bytes(pixels, width, height, (90 - 5 * j) as u8).len() <= max_bytes
                && forall|k: int| 0 <= k < 15 && 90 - 5 * k > 90 - 5 * j
                    ==> #[trigger] jpeg_bytes(pixels, width, height, (90 - 5 * k) as u8).len() > max_bytes,
            None => forall|k: int| 0 <= k < 15 ==> #[trigger] jpeg_bytes(pixels, width, height, (90 - 5 * k) as u8).len() > max_bytes,
        },
{
    lemma_jpeg_ladder();
    lemma_first_fit_from(pixels, width, height, max_bytes, 0);
    match first_fit_from(pixels, width, height, max_bytes, 0) {
        Some(j) => {
            assert(jpeg_qualities()[j] == (90 - 5 * j) as u8);
            assert forall|k: int| 0 <= k < 15 && 90 - 5 * k > 90 - 5 * j
                implies #[trigger] jpeg_bytes(pixels, width, height, (90 - 5 * k) as u8).len() > max_bytes by {
                assert(jpeg_qualities()[k] == (90 - 5 * k) as u8);
            }
        },
        None => {
            assert forall|k: int| 0 <= k < 15 implies #[trigger] jpeg_bytes(pixels, width, height, (90 - 5 * k) as u8).len() > max_bytes by {
                assert(jpeg_qualities()[k] == (90 - 5 * k) as u8);
            }
        },
    }
}

/// Encodes an RGB image as JPEG at the best quality of the ladder whose
/// output fits in `max_bytes`, and reports that quality.
pub fn encode_jpeg_limited(pixels: &[u8], width: u32, height: u32, max_bytes: usize) -> (r: Result<(Vec<u8>, u8), CoverError>)
    requires
        pixels@.len() == width as int * height as int * 3,
    ensures
        !(1 <= width <= 65535 && 1 <= height <= 65535) ==> r matches Err(CoverError::JpegEncoding(_)),
        (1 <= width <= 65535 && 1 <= height <= 65535) ==> match first_fit_from(pixels@, width, height, max_bytes, 0) {
            Some(i) => r matches Ok((b, q)) && q == jpeg_qualities()[i]
                && b@ == jpeg_bytes(pixels@, width, height, q) && b@.len() <= max_bytes,
            None => r == Err::<(Vec<u8>, u8), CoverError>(CoverError::JpegSizeLimitUnreachable {
                best_len: jpeg_bytes(pixels@, width, height, jpeg_qualities()[14]).len() as usize,
                max_bytes,
            }),
        },
        r matches Ok((b, q)) ==> 20 <= q <= 90 && (90 - q) % 5 == 0
            && b@ == jpeg_bytes(pixels@, width, height, q) && b@.len() <= max_bytes
            && forall|k: int| 0 <= k < 15 && 90 - 5 * k > q
                ==> #[trigger] jpeg_bytes(pixels@, width, height, (90 - 5 * k) as u8).len() > max_bytes,
        r matches Err(CoverError::JpegSizeLimitUnreachable { .. }) ==> forall|k: int| 0 <= k < 15
            ==> #[trigger] jpeg_bytes(pixels@, width, height, (90 - 5 * k) as u8).len() > max_bytes,
{
    let mut attempt: usize = 0;
    loop
        invariant
            attempt < 15,
            pixels@.len() == width as int * height as int * 3,
            first_fit_from(pixels@, width, height, max_bytes, 0) == first_fit_from(pixels@, width, height, max_bytes, attempt as int),
        decreases 15 - attempt,
    {
        let quality = jpeg_quality(attempt);
        proof {
            lemma_best_quality_that_fits(pixels@, width, height, max_bytes);
            lemma_jpeg_ladder();
            assert(quality == 90 - 5 * attempt);
        }
        let bytes = match jpeg_encode(pixels, width, height, quality) {
            Ok(b) => b,
            Err(e) => return Err(CoverError::JpegEncoding(image_error_text(&e))),
        };
        match jpeg_step(attempt, bytes.len(), max_bytes) {
            JpegStep::Accept => return Ok((bytes, quality)),
            JpegStep::Next(n) => {
                attempt = n;
            },
            JpegStep::GiveUp => {
                assert(attempt == 14);
                assert(first_fit_from(pixels@, width, height, max_bytes, 15) is None);
                return Err(CoverError::JpegSizeLimitUnreachable { best_len: bytes.len(), max_bytes });
            },
        }
    }
}

/// The character of a 6-bit value in the standard Base64 alphabet of
/// RFC 4648: `A`-`Z`, `a`-`z`, `0`-`9`, `+`, `/`.
pub open spec fn base64_digit(v: int) -> char {
    if v < 26 {
        (65 + v) as char
    } else if v < 52 {
        (97 + v - 26) as char
    } else if v < 62 {
        (48 + v - 52) as char
    } else if v == 62 {
        '+'
    } else {
        '/'
    }
}

/// The standard Base64 text of some bytes (RFC 4648, section 4): each group
/// of three bytes becomes four characters; a last group of one or two bytes
/// becomes two or three characters padded with `=` to four.
pub open spec fn base64_standard(bytes: Seq<u8>) -> Seq<char>
    decreases bytes.len(),
{
    if bytes.len() == 0 {
        Seq::empty()
    } else if bytes.len() == 1 {
        let n = bytes[0] as int;
        seq![base64_digit(n / 4), base64_digit((n % 4) * 16), '=', '=']
    } else if bytes.len() == 2 {
        let n = bytes[0] as int * 256 + bytes[1] as int;
        seq![base64_digit(n / 1024), base64_digit((n / 16) % 64), base64_digit((n % 16) * 4), '=']
    } else {
        let n = bytes[0] as int * 65536 + bytes[1] as int * 256 + bytes[2] as int;
        seq![base64_digit(n / 262144), base64_digit((n / 4096) % 64), base64_digit((n / 64) % 64), base64_digit(n % 64)]
            + base64_standard(bytes.skip(3))
    }
}

/// Calls `base64::Engine::encode` with the `STANDARD` engine, which the crate
/// documents as the standard alphabet of RFC 4648 with padding. The contract
/// claims the text is [`base64_standard`] of the bytes. The engine panics when
/// the encoded length overflows `usize`, which the precondition rules out.
#[verifier::external_body]
fn base64_encode(bytes: &[u8]) -> (r: String)
    requires
        bytes@.len() <= usize::MAX / 2,
    ensures
        r@ == base64_standard(bytes@),
{
    base64::Engine::encode(&base64::engine::general_purpose::STANDARD, bytes)
}

/// PNG bytes as the `href` of an SVG image: `data:image/png;base64,` and the
/// Base64 text of the bytes.
pub fn png_data_uri(png: &[u8]) -> (r: String)
    requires
        png@.len() <= usize::MAX / 2,
    ensures
        r@ == "data:image/png;base64,"@ + base64_standard(png@),
{
    let mut s = "data:image/png;base64,".to_owned();
    let b = base64_encode(png);
    s.append(b.as_str());
    s
}

} // verus!
