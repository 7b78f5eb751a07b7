//! The blur-placeholder output: a fixed SVG template that declares the
//! requested viewport, applies a Gaussian blur filter with the requested
//! standard deviation, and embeds the tiny WebP raster as a base64 data URI.

use vstd::prelude::*;
use vstd::string::StringExecFns;
use vstd::utf8::decode_utf8;
use crate::b64::{b64_encode, lemma_b64_out_bytes};
use crate::codec::{dec_of, lemma_dec_of_digits, push_dec_u32};
use crate::descriptor::Blur;
use crate::paths::bytes_to_string;
use crate::query::{is_ascii_bytes, lemma_ascii_valid_utf8};

verus! {

/// Decimal digits of a number, as text.
pub open spec fn dec_chars(n: nat) -> Seq<char> {
    decode_utf8(dec_of(n))
}

/// The SVG placeholder text for the given WebP bytes and blur parameters.
pub open spec fn svg_of(webp: Seq<u8>, b: Blur) -> Seq<char> {
    "\n<svg xmlns=\"http://www.w3.org/2000/svg\" xmlns:xlink=\"http://www.w3.org/1999/xlink\" width=\"100%\" height=\"100%\" viewBox=\"0 0 "@
        + dec_chars(b.svg_width as nat) + " "@ + dec_chars(b.svg_height as nat)
        + "\" preserveAspectRatio=\"none\">\n    <filter id=\"a\" filterUnits=\"userSpaceOnUse\" color-interpolation-filters=\"sRGB\"> \n        <feGaussianBlur stdDeviation=\""@
        + dec_chars(b.sigma as nat)
        + "\" edgeMode=\"duplicate\"/> \n        <feComponentTransfer>\n            <feFuncA type=\"discrete\" tableValues=\"1 1\"/> \n        </feComponentTransfer> \n    </filter> \n    <image filter=\"url(#a)\" x=\"0\" y=\"0\" height=\"100%\" width=\"100%\" href=\"data:image/webp;base64,"@
        + decode_utf8(b64_encode(webp)) + "\"/>\n</svg>\n"@
}

/// Decimal rendering of a number as a string.
fn dec_string(n: u32) -> (r: String)
    ensures
        r@ == dec_chars(n as nat),
{
    let mut v: Vec<u8> = Vec::new();
    push_dec_u32(&mut v, n);
    proof {
        lemma_dec_of_digits(n as nat);
        assert(is_ascii_bytes(v@)) by {
            assert(forall|i: int|
                0 <= i < v@.len() ==> crate::codec::is_digit(#[trigger] v@[i]));
        }
        lemma_ascii_valid_utf8(v@);
    }
    bytes_to_string(v)
}

/// Builds the SVG placeholder around already-encoded WebP bytes: the declared
/// viewport is `svg_width` x `svg_height`, the render-time blur is `sigma`,
/// and the raster rides along as a `data:image/webp;base64,` URI.
pub fn svg_for_blur(webp: &[u8], blur: &Blur) -> (r: String)
    ensures
        r@ == svg_of(webp@, *blur),
{
    let token = crate::b64::b64_encode_exec(webp);
    proof {
        lemma_b64_out_bytes(webp@);
        assert(is_ascii_bytes(token@)) by {
            assert forall|i: int| 0 <= i < token@.len() implies #[trigger] token@[i] < 128 by {
                assert(crate::b64::is_b64_out(token@[i]));
            }
        }
        lemma_ascii_valid_utf8(token@);
    }
    let data = bytes_to_string(token);
    let mut out = String::new();
    out.append(
        "\n<svg xmlns=\"http://www.w3.org/2000/svg\" xmlns:xlink=\"http://www.w3.org/1999/xlink\" width=\"100%\" height=\"100%\" viewBox=\"0 0 ",
    );
    out.append(dec_string(blur.svg_width).as_str());
    out.append(" ");
    out.append(dec_string(blur.svg_height).as_str());
    out.append(
        "\" preserveAspectRatio=\"none\">\n    <filter id=\"a\" filterUnits=\"userSpaceOnUse\" color-interpolation-filters=\"sRGB\"> \n        <feGaussianBlur stdDeviation=\"",
    );
    out.append(dec_string(blur.sigma as u32).as_str());
    out.append(
        "\" edgeMode=\"duplicate\"/> \n        <feComponentTransfer>\n            <feFuncA type=\"discrete\" tableValues=\"1 1\"/> \n        </feComponentTransfer> \n    </filter> \n    <image filter=\"url(#a)\" x=\"0\" y=\"0\" height=\"100%\" width=\"100%\" href=\"data:image/webp;base64,",
    );
    out.append(data.as_str());
    out.append("\"/>\n</svg>\n");
    out
}

} // verus!
