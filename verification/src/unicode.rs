//! UTF-8 character length detection and decoding.

use vstd::prelude::*;
use vstd::utf8::*;

use crate::byte_utils::all_ascii;
use crate::text::char_from_u32;

verus! {

/// Byte length of a UTF-8 character, by its leading byte.
pub open spec fn spec_utf8_char_len(first: u8) -> int {
    if first < 128 {
        1
    } else if first < 0xE0 {
        2
    } else if first < 0xF0 {
        3
    } else {
        4
    }
}

/// The bytes of `s` from `i` on.
pub open spec fn bytes_from(s: Seq<u8>, i: int) -> Seq<u8> {
    s.subrange(i, s.len() as int)
}

/// A whole UTF-8 encoded character starts at position `i` of `s`.
pub open spec fn scalar_at(s: Seq<u8>, i: int) -> bool {
    0 <= i < s.len() && valid_first_scalar(bytes_from(s, i))
}

/// The character encoded at position `i` of `s`.
pub open spec fn char_at(s: Seq<u8>, i: int) -> char {
    decode_first_scalar(bytes_from(s, i)) as char
}

/// Byte length of the character encoded at position `i` of `s`.
pub open spec fn char_len_at(s: Seq<u8>, i: int) -> int {
    length_of_first_scalar(bytes_from(s, i))
}

/// The character at `i` takes between one and four bytes, all inside `s`.
pub proof fn lemma_char_len_at(s: Seq<u8>, i: int)
    requires
        scalar_at(s, i),
    ensures
        1 <= char_len_at(s, i) <= 4,
        i + char_len_at(s, i) <= s.len(),
{
}

/// Returns the byte length of a UTF-8 character given its leading byte.
pub fn utf8_char_len(first: u8) -> (r: usize)
    ensures
        r == spec_utf8_char_len(first),
        1 <= r <= 4,
{
    if first < 128 {
        1
    } else if first < 0xE0 {
        2
    } else if first < 0xF0 {
        3
    } else {
        4
    }
}

/// Decodes the character that starts at position `i` of `s`, with its
/// byte length, or `None` when no well-formed UTF-8 character starts there.
pub fn decode_at(s: &[u8], i: usize) -> (r: Option<(char, usize)>)
    requires
        i < s@.len(),
    ensures
        r is Some <==> scalar_at(s@, i as int),
        r matches Some((c, n)) ==> c == char_at(s@, i as int) && n == char_len_at(s@, i as int)
            && c as u32 == decode_first_scalar(bytes_from(s@, i as int)),
{
    let ghost rest = bytes_from(s@, i as int);
    assert(rest[0] == s@[i as int]);
    let b0 = s[i];
    let rem = s.len() - i;
    if b0 < 0x80 {
        let cp: u32 = (b0 & 0x7F) as u32;
        assert(cp == b0) by (bit_vector)
            requires
                b0 < 0x80,
                cp == (b0 & 0x7F) as u32,
        ;
        let c = char_from_u32(cp).unwrap();
        return Some((c, 1));
    }
    if b0 < 0xC0 || b0 > 0xF7 {
        return None;
    }
    if b0 <= 0xDF {
        if rem < 2 {
            return None;
        }
        let b1 = s[i + 1];
        assert(rest[1] == b1);
        if b1 < 0x80 || b1 > 0xBF {
            return None;
        }
        let cp: u32 = (((b0 & 0x1F) as u32) << 6) | ((b1 & 0x3F) as u32);
        assert(cp <= 0x7FF) by (bit_vector)
            requires
                cp == (((b0 & 0x1F) as u32) << 6) | ((b1 & 0x3F) as u32),
        ;
        if cp < 0x80 {
            return None;
        }
        let c = char_from_u32(cp).unwrap();
        return Some((c, 2));
    }
    if b0 <= 0xEF {
        if rem < 3 {
            return None;
        }
        let b1 = s[i + 1];
        let b2 = s[i + 2];
        assert(rest[1] == b1 && rest[2] == b2);
        if b1 < 0x80 || b1 > 0xBF || b2 < 0x80 || b2 > 0xBF {
            return None;
        }
        let cp: u32 = (((b0 & 0x0F) as u32) << 12) | (((b1 & 0x3F) as u32) << 6) | ((b2
            & 0x3F) as u32);
        assert(cp <= 0xFFFF) by (bit_vector)
            requires
                cp == (((b0 & 0x0F) as u32) << 12) | (((b1 & 0x3F) as u32) << 6) | ((b2
                    & 0x3F) as u32),
        ;
        if cp < 0x800 || (0xD800 <= cp && cp <= 0xDFFF) {
            return None;
        }
        let c = char_from_u32(cp).unwrap();
        return Some((c, 3));
    }
    if rem < 4 {
        return None;
    }
    let b1 = s[i + 1];
    let b2 = s[i + 2];
    let b3 = s[i + 3];
    assert(rest[1] == b1 && rest[2] == b2 && rest[3] == b3);
    if b1 < 0x80 || b1 > 0xBF || b2 < 0x80 || b2 > 0xBF || b3 < 0x80 || b3 > 0xBF {
        return None;
    }
    let cp: u32 = (((b0 & 0x07) as u32) << 18) | (((b1 & 0x3F) as u32) << 12) | (((b2
        & 0x3F) as u32) << 6) | ((b3 & 0x3F) as u32);
    if cp < 0x10000 || cp > 0x10FFFF {
        return None;
    }
    let c = char_from_u32(cp).unwrap();
    Some((c, 4))
}

/// Decodes a UTF-8 character from the start of a byte slice.
///
/// Returns the decoded `char` and its byte length (1–4).
pub fn decode_char(s: &[u8]) -> (r: (char, usize))
    requires
        s@.len() > 0,
        valid_first_scalar(s@),
    ensures
        r.0 as u32 == decode_first_scalar(s@),
        r.1 == length_of_first_scalar(s@),
{
    assert(bytes_from(s@, 0) =~= s@);
    let (c, n) = decode_at(s, 0).unwrap();
    (c, n)
}

/// A character whose scalar value is below 0x80 is an ASCII character.
proof fn lemma_small_char(c: char)
    requires
        (c as u32) <= 0x7f,
    ensures
        '\0' <= c <= '\u{7f}',
{
}

/// The UTF-8 encoding of a character sequence is all ASCII bytes exactly
/// when the sequence is all ASCII characters.
pub proof fn lemma_ascii_bytes(chars: Seq<char>)
    ensures
        all_ascii(encode_utf8(chars)) == is_ascii_chars(chars),
    decreases chars.len(),
{
    if is_ascii_chars(chars) {
        is_ascii_chars_encode_utf8(chars);
        assert forall|k: int| 0 <= k < encode_utf8(chars).len() implies #[trigger] encode_utf8(
            chars,
        )[k] < 128 by {
            assert(chars[k] as u8 == encode_utf8(chars)[k]);
            assert('\0' <= chars[k] <= '\u{7f}');
        }
    } else if chars.len() > 0 {
        let c0 = chars[0];
        let rest = chars.drop_first();
        char_is_scalar(c0);
        let v = c0 as u32;
        let e0 = encode_scalar(v);
        assert(encode_utf8(chars) == e0 + encode_utf8(rest));
        if v > 0x7f {
            if has_width_2_encoding(v) {
                assert(leading_byte_width_2(v) >= 0xC0) by (bit_vector)
                    requires
                        0x80 <= v <= 0x7FF,
                ;
            } else if has_width_3_encoding(v) {
                assert(leading_byte_width_3(v) >= 0xC0) by (bit_vector)
                    requires
                        0x800 <= v <= 0xFFFF,
                ;
            } else {
                assert(leading_byte_width_4(v) >= 0xC0) by (bit_vector)
                    requires
                        0x10000 <= v <= 0x10FFFF,
                ;
            }
            assert(encode_utf8(chars)[0] == e0[0]);
            assert(!(encode_utf8(chars)[0] < 128));
        } else {
            let i = choose|i: int| 0 <= i < chars.len() && !('\0' <= #[trigger] chars[i] <= '\u{7f}');
            lemma_small_char(c0);
            assert(i != 0);
            assert(rest[i - 1] == chars[i]);
            assert(!is_ascii_chars(rest));
            lemma_ascii_bytes(rest);
            let k = choose|k: int| 0 <= k < encode_utf8(rest).len() && !(#[trigger] encode_utf8(rest)[k] < 128);
            assert(encode_utf8(chars)[e0.len() + k] == encode_utf8(rest)[k]);
        }
    }
}

} // verus!
