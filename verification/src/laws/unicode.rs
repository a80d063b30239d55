//! Laws of UTF-8 decoding.

use vstd::prelude::*;
use vstd::utf8::{
    decode_first_scalar, encode_scalar, encode_utf8, encode_utf8_first_scalar,
    length_of_first_scalar, valid_first_scalar,
};

use crate::unicode::spec_utf8_char_len;

verus! {

/// Bytes after a whole encoded character do not change how it decodes.
proof fn lemma_first_scalar_prefix(e: Seq<u8>, rest: Seq<u8>)
    requires
        valid_first_scalar(e),
        length_of_first_scalar(e) == e.len(),
    ensures
        valid_first_scalar(e + rest),
        decode_first_scalar(e + rest) == decode_first_scalar(e),
        length_of_first_scalar(e + rest) == length_of_first_scalar(e),
{
    let s = e + rest;
    assert(s[0] == e[0]);
    if e.len() > 1 {
        assert(s[1] == e[1]);
    }
    if e.len() > 2 {
        assert(s[2] == e[2]);
    }
    if e.len() > 3 {
        assert(s[3] == e[3]);
    }
}

/// Decoding the UTF-8 encoding of a character, followed by any bytes,
/// gives back the character and the length of its encoding, as
/// `decode_char` returns them.
pub proof fn law_decode_char_roundtrip(c: char, rest: Seq<u8>)
    ensures
        valid_first_scalar(encode_utf8(seq![c]) + rest),
        decode_first_scalar(encode_utf8(seq![c]) + rest) == c as u32,
        length_of_first_scalar(encode_utf8(seq![c]) + rest) == encode_utf8(seq![c]).len(),
{
    let e = encode_utf8(seq![c]);
    encode_utf8_first_scalar(seq![c]);
    assert(seq![c].drop_first() =~= Seq::<char>::empty());
    assert(seq![c][0] == c);
    assert(encode_utf8(Seq::<char>::empty()) =~= Seq::<u8>::empty());
    assert(e =~= encode_scalar(c as u32) + Seq::<u8>::empty());
    assert(e =~= encode_scalar(c as u32));
    lemma_first_scalar_prefix(e, rest);
}

/// `utf8_char_len` of the first byte of a character's UTF-8 encoding is
/// the length of that encoding (`char::len_utf8`).
pub proof fn law_utf8_char_len_matches_encoding(c: char)
    ensures
        spec_utf8_char_len(encode_utf8(seq![c])[0]) == encode_utf8(seq![c]).len(),
{
    let e = encode_utf8(seq![c]);
    encode_utf8_first_scalar(seq![c]);
    assert(seq![c].drop_first() =~= Seq::<char>::empty());
    assert(seq![c][0] == c);
    assert(encode_utf8(Seq::<char>::empty()) =~= Seq::<u8>::empty());
    assert(e =~= encode_scalar(c as u32) + Seq::<u8>::empty());
    assert(e =~= encode_scalar(c as u32));
}

} // verus!
