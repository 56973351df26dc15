//! Base64 encoding of the background image the user picks.

use vstd::prelude::*;
use base64::Engine;

verus! {

/// The character of the standard Base64 alphabet for the sextet `v`.
pub open spec fn base64_char(v: int) -> char {
    if v < 26 {
        ((v + 65) as u8) as char
    } else if v < 52 {
        ((v - 26 + 97) as u8) as char
    } else if v < 62 {
        ((v - 52 + 48) as u8) as char
    } else if v == 62 {
        '+'
    } else {
        '/'
    }
}

/// Standard Base64 (RFC 4648 alphabet, `=` padding) of `d`: each group of
/// three bytes becomes four characters; a last group of one or two bytes
/// is padded with `==` or `=`.
pub open spec fn base64_standard(d: Seq<u8>) -> Seq<char>
    decreases d.len(),
{
    let b0 = d[0] as int;
    let b1 = d[1] as int;
    let b2 = d[2] as int;
    if d.len() == 0 {
        seq![]
    } else if d.len() == 1 {
        seq![base64_char(b0 / 4), base64_char((b0 % 4) * 16), '=', '=']
    } else if d.len() == 2 {
        seq![base64_char(b0 / 4), base64_char((b0 % 4) * 16 + b1 / 16), base64_char((b1 % 16) * 4), '=']
    } else {
        seq![
            base64_char(b0 / 4),
            base64_char((b0 % 4) * 16 + b1 / 16),
            base64_char((b1 % 16) * 4 + b2 / 64),
            base64_char(b2 % 64),
        ] + base64_standard(d.skip(3))
    }
}

/// Calls `base64::engine::general_purpose::STANDARD.encode`: standard
/// alphabet, padded.
#[verifier::external_body]
fn base64_encode(data: &[u8]) -> (r: String)
    ensures
        r@ == base64_standard(data@),
{
    base64::engine::general_purpose::STANDARD.encode(data)
}

/// The image bytes as the text the front end shows as a background: their
/// standard Base64 encoding.
pub fn encode_image_data(data: &Vec<u8>) -> (r: String)
    ensures
        r@ == base64_standard(data@),
{
    base64_encode(data.as_slice())
}

} // verus!
