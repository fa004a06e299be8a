//! Facts about UTF-8 encoding that the format proofs rest on.
use vstd::prelude::*;
use vstd::utf8::*;

verus! {

broadcast use group_utf8_lib;

/// Encoding distributes over concatenation.
pub proof fn lemma_encode_concat(a: Seq<char>, b: Seq<char>)
    ensures
        encode_utf8(a + b) == encode_utf8(a) + encode_utf8(b),
    decreases a.len(),
{
    if a.len() > 0 {
        assert((a + b).drop_first() == a.drop_first() + b);
        lemma_encode_concat(a.drop_first(), b);
        assert(encode_utf8(a + b) == encode_scalar((a + b)[0] as u32) + encode_utf8(a.drop_first() + b));
    } else {
        assert(a + b == b);
    }
}

/// An ASCII character's byte occurs in an encoding only where the character occurs.
pub proof fn lemma_encode_avoids(chars: Seq<char>, c: char)
    requires
        (c as u32) < 0x80,
        forall|i: int| 0 <= i < chars.len() ==> chars[i] != c,
    ensures
        forall|i: int| 0 <= i < encode_utf8(chars).len() ==> encode_utf8(chars)[i] != c as u8,
    decreases chars.len(),
{
    if chars.len() > 0 {
        let rest = chars.drop_first();
        lemma_encode_avoids(rest, c);
        let s = chars[0] as u32;
        let cu = c as u32;
        let e = encode_scalar(s);
        assert forall|i: int| 0 <= i < e.len() implies e[i] != c as u8 by {
            if has_width_1_encoding(s) {
                char_u32_cast(chars[0], s);
                char_u32_cast(c, cu);
                assert(s != cu);
                assert((s & 0x7F) as u8 != cu as u8) by (bit_vector)
                    requires
                        s <= 0x7F,
                        cu < 0x80,
                        s != cu,
                ;
            } else {
                assert(leading_byte_width_2(s) >= 0x80) by (bit_vector);
                assert(leading_byte_width_3(s) >= 0x80) by (bit_vector);
                assert(leading_byte_width_4(s) >= 0x80) by (bit_vector);
                assert(last_continuation_byte(s) >= 0x80) by (bit_vector);
                assert(second_last_continuation_byte(s) >= 0x80) by (bit_vector);
                assert(third_last_continuation_byte(s) >= 0x80) by (bit_vector);
                assert(e[i] >= 0x80);
            }
        }
        assert(encode_utf8(chars) == e + encode_utf8(rest));
    }
}

/// The encoding of ASCII characters is their codes, byte for byte.
pub proof fn lemma_encode_ascii(chars: Seq<char>)
    requires
        is_ascii_chars(chars),
    ensures
        encode_utf8(chars).len() == chars.len(),
        forall|i: int| 0 <= i < chars.len() ==> encode_utf8(chars)[i] == chars[i] as u8,
{
    is_ascii_chars_encode_utf8(chars);
}

} // verus!
