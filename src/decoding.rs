//! Text decoding: the legacy code page and the per-font glyph tables.
use vstd::prelude::*;

verus! {

/// What the Windows-1252 decoder produces for a byte sequence.
pub uninterp spec fn cp1252_decode(b: Seq<u8>) -> Seq<char>;

/// Whether a character has the Unicode `White_Space` property.
pub open spec fn white_space(c: char) -> bool {
    let u = c as u32;
    (0x09 <= u <= 0x0D) || u == 0x20 || u == 0x85 || u == 0xA0 || u == 0x1680 || (0x2000 <= u
        <= 0x200A) || u == 0x2028 || u == 0x2029 || u == 0x202F || u == 0x205F || u == 0x3000
}

/// Whether a character is alphabetic or numeric in the Unicode sense.
pub uninterp spec fn alphanumeric(c: char) -> bool;

/// What lossy UTF-8 decoding produces for a byte sequence.
pub uninterp spec fn utf8_lossy(b: Seq<u8>) -> Seq<char>;

/// Relies on encoding_rs::WINDOWS_1252's `decode_without_bom_handling`: a
/// single-byte decoder, one character per byte, ASCII bytes kept as they are.
#[verifier::external_body]
pub(crate) fn decode_cp1252(b: &[u8]) -> (r: String)
    ensures
        r@ == cp1252_decode(b@),
        r@.len() == b@.len(),
        forall|i: int| 0 <= i < b@.len() && b@[i] < 0x80 ==> r@[i] == b@[i] as char,
{
    encoding_rs::WINDOWS_1252.decode_without_bom_handling(b).0.into_owned()
}

/// Relies on char::is_whitespace: the Unicode `White_Space` property.
#[verifier::external_body]
pub(crate) fn is_white_space(c: char) -> (r: bool)
    ensures
        r == white_space(c),
{
    c.is_whitespace()
}

/// Relies on char::is_alphanumeric; for ASCII exactly the letters and digits.
#[verifier::external_body]
pub(crate) fn is_alphanumeric(c: char) -> (r: bool)
    ensures
        r == alphanumeric(c),
        (c as u32) < 0x80 ==> (r <==> (('a' <= c <= 'z') || ('A' <= c <= 'Z') || ('0' <= c <= '9'))),
{
    c.is_alphanumeric()
}

/// Relies on String::from_utf8_lossy: the bytes as UTF-8, invalid sequences
/// replaced.
#[verifier::external_body]
pub(crate) fn decode_utf8_lossy(b: &[u8]) -> (r: String)
    ensures
        r@ == utf8_lossy(b@),
{
    String::from_utf8_lossy(b).into_owned()
}

/// Relies on String::push: appends one character.
#[verifier::external_body]
pub(crate) fn push_char(s: &mut String, c: char)
    ensures
        final(s)@ == old(s)@.push(c),
{
    s.push(c)
}

/// The text for the bytes of a word under a font. Font 0 is the legacy code
/// page; the other fonts carry no glyph table here, so each byte stands for
/// the code point of its own value.
pub open spec fn decode_word(b: Seq<u8>, font_idx: u8) -> Seq<char> {
    if font_idx == 0 {
        cp1252_decode(b)
    } else {
        b.map_values(|x: u8| x as char)
    }
}

/// Decodes the bytes of a word under the font `font_idx`.
pub fn decode_string(data: &[u8], font_idx: u8) -> (r: String)
    ensures
        r@ == decode_word(data@, font_idx),
{
    if font_idx == 0 {
        decode_cp1252(data)
    } else {
        let mut s = String::new();
        let mut i: usize = 0;
        while i < data.len()
            invariant
                i <= data@.len(),
                s@ == data@.subrange(0, i as int).map_values(|x: u8| x as char),
            decreases data@.len() - i,
        {
            push_char(&mut s, data[i] as char);
            assert(data@.subrange(0, i + 1) == data@.subrange(0, i as int).push(data@[i as int]));
            i += 1;
        }
        assert(data@.subrange(0, data@.len() as int) == data@);
        s
    }
}

} // verus!
