//! Facts about the UTF-8 encoding of text.

use vstd::prelude::*;
use vstd::utf8::*;

verus! {

/// The encoding of two texts is that of the first followed by that of the second.
pub proof fn lemma_encode_concat(a: Seq<char>, b: Seq<char>)
    ensures
        encode_utf8(a + b) == encode_utf8(a) + encode_utf8(b),
    decreases a.len(),
{
    if a.len() == 0 {
        assert(a + b =~= b);
        assert(encode_utf8(a) + encode_utf8(b) =~= encode_utf8(b));
    } else {
        assert((a + b).drop_first() =~= a.drop_first() + b);
        lemma_encode_concat(a.drop_first(), b);
        assert(encode_utf8(a + b) =~= encode_utf8(a) + encode_utf8(b));
    }
}

/// Every byte of the encoding of a character is the character itself or lies above ASCII.
proof fn lemma_scalar_bytes(c: u32, i: int)
    requires
        is_scalar(c),
        0 <= i < encode_scalar(c).len(),
    ensures
        encode_scalar(c)[i] < 128 ==> c < 128 && encode_scalar(c)[i] == c,
        encode_scalar(c).len() > 0,
{
    assert(c < 128 ==> (c & 0x7Fu32) as u8 == c) by (bit_vector);
    assert(0xC0u8 | ((c >> 6u32) & 0x1Fu32) as u8 >= 128u8) by (bit_vector);
    assert(0xE0u8 | ((c >> 12u32) & 0x0Fu32) as u8 >= 128u8) by (bit_vector);
    assert(0xF0u8 | ((c >> 18u32) & 0x7u32) as u8 >= 128u8) by (bit_vector);
    assert(0x80u8 | (c & 0x3Fu32) as u8 >= 128u8) by (bit_vector);
    assert(0x80u8 | ((c >> 6u32) & 0x3Fu32) as u8 >= 128u8) by (bit_vector);
    assert(0x80u8 | ((c >> 12u32) & 0x3Fu32) as u8 >= 128u8) by (bit_vector);
}

/// An ASCII byte in the encoding of a text stands for that character in the text.
pub proof fn lemma_ascii_byte(s: Seq<char>, b: u8)
    requires
        b < 128,
        encode_utf8(s).contains(b),
    ensures
        s.contains(b as char),
    decreases s.len(),
{
    let e = encode_utf8(s);
    let i = choose|i: int| 0 <= i < e.len() && e[i] == b;
    let c = s[0] as u32;
    let first = encode_scalar(c);
    char_is_scalar(s[0]);
    if i < first.len() {
        assert(e[i] == first[i]);
        lemma_scalar_bytes(c, i);
        char_u32_cast(s[0], c);
        assert(c as char == b as char);
    } else {
        let rest = encode_utf8(s.drop_first());
        assert(rest[i - first.len()] == b);
        assert(rest.contains(b));
        lemma_ascii_byte(s.drop_first(), b);
        let k = choose|k: int| 0 <= k < s.drop_first().len() && s.drop_first()[k] == b as char;
        assert(s[k + 1] == b as char);
    }
}

/// The encoding of one ASCII character is one byte.
pub proof fn lemma_ascii_char(c: char)
    requires
        (c as u32) < 128,
    ensures
        encode_utf8(seq![c]) == seq![c as u8],
{
    is_ascii_chars_encode_utf8(seq![c]);
    assert(encode_utf8(seq![c]) =~= seq![c as u8]);
}

/// A text is encoded by something exactly if it is not empty.
pub proof fn lemma_encode_empty(s: Seq<char>)
    ensures
        encode_utf8(s).len() == 0 <==> s.len() == 0,
{
    if s.len() > 0 {
        char_is_scalar(s[0]);
        assert(encode_scalar(s[0] as u32).len() > 0);
    }
}

} // verus!
