use std::io::Cursor;

use image::{DynamicImage, ImageFormat, RgbaImage};
use sha2::{Digest, Sha256};
use vstd::prelude::*;

use crate::numtext::{hex_digit, hex_spec, to_hex};
use crate::paths::plain_file_name;

verus! {

/// The SHA-256 digest of `data` (the `sha2` crate's `Sha256`).
pub uninterp spec fn sha256_digest(data: Seq<u8>) -> Seq<u8>;

/// The PNG file that the `image` crate writes for an 8-bit RGBA image of the
/// given size with the given pixels.
pub uninterp spec fn png_rgba8(width: u32, height: u32, pixels: Seq<u8>) -> Seq<u8>;

/// `Sha256::digest` of the `sha2` crate: claims that the result is the
/// SHA-256 digest of `data` and that it has the 32 bytes of that digest.
#[verifier::external_body]
fn sha256(data: &[u8]) -> (r: Vec<u8>)
    ensures
        r@ == sha256_digest(data@),
        r@.len() == 32,
{
    Sha256::digest(data).to_vec()
}

/// `RgbaImage::from_raw` and `DynamicImage::write_to` with `ImageFormat::Png`
/// of the `image` crate, writing to memory. Claims: `None` exactly when the
/// pixels are fewer than four bytes per pixel (`from_raw` refuses them);
/// otherwise the encoder succeeds, giving the PNG file of those pixels,
/// unless the width or the height is zero, which the `png` encoder refuses
/// with an error whose text is returned. More pixels than the size needs
/// make the encoder panic, so they are excluded.
#[verifier::external_body]
fn encode_png(pixels: &[u8], width: u32, height: u32) -> (r: Option<Result<Vec<u8>, String>>)
    requires
        pixels@.len() <= 4 * (width as int) * (height as int),
    ensures
        r is None <==> pixels@.len() < 4 * (width as int) * (height as int),
        r matches Some(Ok(png)) ==> png@ == png_rgba8(width, height, pixels@),
        pixels@.len() == 4 * (width as int) * (height as int) && width > 0 && height > 0 ==> r matches Some(Ok(_)),
        width == 0 || height == 0 ==> r matches Some(Err(_)),
{
    match RgbaImage::from_raw(width, height, pixels.to_vec()) {
        None => None,
        Some(image) => {
            let mut output = Cursor::new(Vec::new());
            match DynamicImage::ImageRgba8(image).write_to(&mut output, ImageFormat::Png) {
                Ok(()) => Some(Ok(output.into_inner())),
                Err(error) => Some(Err(error.to_string())),
            }
        },
    }
}

pub open spec fn invalid_dimensions_message() -> Seq<char> {
    "invalid clipboard image dimensions"@
}

/// The PNG file for RGBA pixels: refused when the pixels are fewer than the
/// size needs; otherwise the encoding, which fails only for a zero width or
/// height, with the encoder's error.
pub fn encode_rgba_as_png(rgba_bytes: &[u8], width: u32, height: u32) -> (r: Result<Vec<u8>, String>)
    requires
        rgba_bytes@.len() <= 4 * (width as int) * (height as int),
    ensures
        rgba_bytes@.len() < 4 * (width as int) * (height as int) ==> (r matches Err(m) && m@
            == invalid_dimensions_message()),
        rgba_bytes@.len() == 4 * (width as int) * (height as int) && width > 0 && height > 0 ==> (
        r matches Ok(png) && png@ == png_rgba8(width, height, rgba_bytes@)),
        rgba_bytes@.len() == 4 * (width as int) * (height as int) && (width == 0 || height == 0) ==> r is Err,
{
    match encode_png(rgba_bytes, width, height) {
        None => Err(String::from_str("invalid clipboard image dimensions")),
        Some(result) => result,
    }
}

/// The name under which an image is known: the lower-case hexadecimal
/// SHA-256 digest of its PNG file.
pub open spec fn image_hash(png: Seq<u8>) -> Seq<char> {
    hex_spec(sha256_digest(png))
}

/// The lower-case hexadecimal SHA-256 digest of `png_bytes`, 64 characters.
pub fn hash_image(png_bytes: &[u8]) -> (r: String)
    ensures
        r@ == image_hash(png_bytes@),
        r@.len() == 64,
{
    let digest = sha256(png_bytes);
    to_hex(digest.as_slice())
}

/// The name of an image's file in the media directory: its hash, then `.png`.
pub open spec fn image_file_name(png: Seq<u8>) -> Seq<char> {
    image_hash(png) + ".png"@
}

/// Every character of a hexadecimal notation is a digit or a letter `a` to `f`.
proof fn lemma_hex_chars(bytes: Seq<u8>)
    ensures
        forall|i: int| 0 <= i < hex_spec(bytes).len() ==> {
            let c = #[trigger] hex_spec(bytes)[i];
            ('0' <= c <= '9') || ('a' <= c <= 'f')
        },
    decreases bytes.len(),
{
    if bytes.len() > 0 {
        let p = bytes.drop_last();
        lemma_hex_chars(p);
        let hi = bytes.last() as int / 16;
        let lo = bytes.last() as int % 16;
        assert(('0' <= hex_digit(hi) <= '9') || ('a' <= hex_digit(hi) <= 'f'));
        assert(('0' <= hex_digit(lo) <= '9') || ('a' <= hex_digit(lo) <= 'f'));
        let h = hex_spec(bytes);
        assert(h == hex_spec(p) + seq![hex_digit(hi), hex_digit(lo)]);
        assert forall|i: int| 0 <= i < h.len() implies {
            let c = #[trigger] h[i];
            ('0' <= c <= '9') || ('a' <= c <= 'f')
        } by {
            if i < hex_spec(p).len() {
                assert(h[i] == hex_spec(p)[i]);
            } else if i == hex_spec(p).len() {
                assert(h[i] == hex_digit(hi));
            } else {
                assert(h[i] == hex_digit(lo));
            }
        }
    }
}

/// An image's file name names a file of the media directory.
pub proof fn lemma_image_file_name(png: Seq<u8>)
    ensures
        plain_file_name(image_file_name(png)),
{
    reveal_strlit(".png");
    let h = image_hash(png);
    lemma_hex_chars(sha256_digest(png));
    let n = image_file_name(png);
    assert forall|i: int| 0 <= i < n.len() implies !crate::paths::is_separator(#[trigger] n[i]) && n[i] != ':' by {
        if i < h.len() {
            assert(n[i] == h[i]);
        } else {
            assert(n[i] == ".png"@[i - h.len()]);
        }
    }
    assert(n.len() == h.len() + 4);
    if n == seq!['.'] || n == seq!['.', '.'] {
        assert(n.len() <= 2);
    }
}

} // verus!
