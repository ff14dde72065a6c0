//! Positions in UTF-8 text: how character indices and byte offsets relate,
//! and a decoder for the scalar that starts at a given offset.

use vstd::prelude::*;
use vstd::utf8::*;

verus! {

/// Code point of the line feed.
pub const LINE_FEED: u32 = 0x0A;

/// Code point of the carriage return.
pub const CARRIAGE_RETURN: u32 = 0x0D;

/// Code point of the colon.
pub const COLON: u32 = 0x3A;

/// Code point of the backslash.
pub const BACKSLASH: u32 = 0x5C;

/// Code point of the byte-order mark.
pub const BYTE_ORDER_MARK: u32 = 0xFEFF;

/// Number of bytes that the first `k` characters of `text` occupy in UTF-8.
pub open spec fn byte_offset(text: Seq<char>, k: int) -> int {
    encode_utf8(text.take(k)).len() as int
}

/// Number of bytes that one character occupies in UTF-8.
pub open spec fn char_width(c: char) -> int {
    encode_scalar(c as u32).len() as int
}

/// Every character takes between one and four bytes.
pub proof fn lemma_char_width_bounds(c: char)
    ensures
        1 <= char_width(c) <= 4,
        (c as u32) < 0x80 <==> char_width(c) == 1,
{
}

/// Encoding distributes over concatenation.
pub proof fn lemma_encode_concat(a: Seq<char>, b: Seq<char>)
    ensures
        encode_utf8(a + b) == encode_utf8(a) + encode_utf8(b),
    decreases a.len(),
{
    if a.len() == 0 {
        assert(a + b =~= b);
        assert(encode_utf8(a) + encode_utf8(b) =~= encode_utf8(b));
    } else {
        assert((a + b).drop_first() =~= a.drop_first() + b);
        assert((a + b)[0] == a[0]);
        lemma_encode_concat(a.drop_first(), b);
        assert(encode_utf8(a + b) =~= encode_utf8(a) + encode_utf8(b));
    }
}

/// The encoding of a text is the encoding of any prefix followed by the
/// encoding of the matching suffix.
pub proof fn lemma_encode_split(text: Seq<char>, k: int)
    requires
        0 <= k <= text.len(),
    ensures
        encode_utf8(text) == encode_utf8(text.take(k)) + encode_utf8(text.skip(k)),
        0 <= byte_offset(text, k) <= encode_utf8(text).len(),
        encode_utf8(text).subrange(0, byte_offset(text, k)) == encode_utf8(text.take(k)),
        encode_utf8(text).subrange(byte_offset(text, k), encode_utf8(text).len() as int)
            == encode_utf8(text.skip(k)),
{
    assert(text =~= text.take(k) + text.skip(k));
    lemma_encode_concat(text.take(k), text.skip(k));
    let whole = encode_utf8(text);
    let n = byte_offset(text, k);
    assert(whole.subrange(0, n) =~= encode_utf8(text.take(k)));
    assert(whole.subrange(n, whole.len() as int) =~= encode_utf8(text.skip(k)));
}

/// A character is known by its code point.
pub proof fn lemma_code_point(c: char, d: char)
    ensures
        (c as u32 == d as u32) <==> c == d,
{
    char_u32_cast(c, c as u32);
    char_u32_cast(d, d as u32);
}

/// The code points of the characters that the wire format gives a meaning.
pub proof fn lemma_delimiter_codes(c: char)
    ensures
        (c as u32 == LINE_FEED) <==> c == '\n',
        (c as u32 == CARRIAGE_RETURN) <==> c == '\r',
        (c as u32 == COLON) <==> c == ':',
        (c as u32 == BACKSLASH) <==> c == '\\',
        (c as u32 == BYTE_ORDER_MARK) <==> c == '\u{FEFF}',
{
    lemma_code_point(c, '\n');
    lemma_code_point(c, '\r');
    lemma_code_point(c, ':');
    lemma_code_point(c, '\\');
    lemma_code_point(c, '\u{FEFF}');
}

/// Two texts with the same encoding are the same text.
pub proof fn lemma_encode_injective(a: Seq<char>, b: Seq<char>)
    requires
        encode_utf8(a) == encode_utf8(b),
    ensures
        a == b,
{
    encode_utf8_decode_utf8(a);
    encode_utf8_decode_utf8(b);
}

/// Moving one character forward moves the byte offset by that character's width.
pub proof fn lemma_offset_step(text: Seq<char>, k: int)
    requires
        0 <= k < text.len(),
    ensures
        byte_offset(text, k + 1) == byte_offset(text, k) + char_width(text[k]),
{
    let one = seq![text[k]];
    assert(text.take(k + 1) =~= text.take(k) + one);
    lemma_encode_concat(text.take(k), one);
    assert(one.drop_first() =~= Seq::<char>::empty());
    assert(encode_utf8(one) =~= encode_scalar(text[k] as u32)) by {
        reveal_with_fuel(encode_utf8, 2);
    }
}

/// Byte offsets grow with character indices.
pub proof fn lemma_offset_monotonic(text: Seq<char>, i: int, j: int)
    requires
        0 <= i <= j <= text.len(),
    ensures
        byte_offset(text, i) <= byte_offset(text, j),
        i < j ==> byte_offset(text, i) < byte_offset(text, j),
    decreases j - i,
{
    if i < j {
        lemma_offset_monotonic(text, i, j - 1);
        lemma_offset_step(text, j - 1);
        lemma_char_width_bounds(text[j - 1]);
    }
}

/// The two ends of a text sit at offset zero and at the encoded length.
pub proof fn lemma_offset_ends(text: Seq<char>)
    ensures
        byte_offset(text, 0) == 0,
        byte_offset(text, text.len() as int) == encode_utf8(text).len(),
{
    assert(text.take(0) =~= Seq::<char>::empty());
    assert(text.take(text.len() as int) =~= text);
}

/// The offset of a character index is a character boundary of the encoding.
pub proof fn lemma_offset_is_boundary(text: Seq<char>, k: int)
    requires
        0 <= k <= text.len(),
    ensures
        is_char_boundary(encode_utf8(text), byte_offset(text, k)),
    decreases text.len(),
{
    broadcast use encode_utf8_valid_utf8;

    let bytes = encode_utf8(text);
    if k == 0 {
        lemma_offset_ends(text);
    } else {
        let rest = text.drop_first();
        encode_utf8_first_scalar(text);
        assert(pop_first_scalar(bytes) =~= encode_utf8(rest));
        assert(text.take(k) =~= seq![text[0]] + rest.take(k - 1));
        lemma_encode_concat(seq![text[0]], rest.take(k - 1));
        assert(seq![text[0]].drop_first() =~= Seq::<char>::empty());
        assert(encode_utf8(seq![text[0]]) =~= encode_scalar(text[0] as u32)) by {
            reveal_with_fuel(encode_utf8, 2);
        }
        lemma_char_width_bounds(text[0]);
        lemma_encode_split(text, k);
        lemma_offset_is_boundary(rest, k - 1);
        assert(byte_offset(text, k) - length_of_first_scalar(bytes) == byte_offset(rest, k - 1));
    }
}

/// What the bytes from the offset of character `k` on say about that
/// character: they start with its scalar, as wide as the character is.
pub proof fn lemma_scalar_at_offset(text: Seq<char>, k: int)
    requires
        0 <= k < text.len(),
    ensures
        ({
            let bytes = encode_utf8(text);
            let rest = bytes.subrange(byte_offset(text, k), bytes.len() as int);
            &&& 0 <= byte_offset(text, k) < bytes.len()
            &&& valid_first_scalar(rest)
            &&& decode_first_scalar(rest) == text[k] as u32
            &&& length_of_first_scalar(rest) == char_width(text[k])
            &&& byte_offset(text, k + 1) == byte_offset(text, k) + char_width(text[k])
            &&& byte_offset(text, k + 1) <= bytes.len()
        }),
{
    lemma_encode_split(text, k);
    lemma_encode_split(text, k + 1);
    lemma_offset_step(text, k);
    lemma_char_width_bounds(text[k]);
    encode_utf8_first_scalar(text.skip(k));
    assert(text.skip(k)[0] == text[k]);
}

/// Decodes the scalar that starts at byte `at` and gives its code point
/// together with the number of bytes that it occupies.
pub fn scalar_at(bytes: &[u8], at: usize) -> (r: (u32, usize))
    requires
        at < bytes@.len(),
        valid_first_scalar(bytes@.subrange(at as int, bytes@.len() as int)),
    ensures
        r.0 == decode_first_scalar(bytes@.subrange(at as int, bytes@.len() as int)),
        r.1 == length_of_first_scalar(bytes@.subrange(at as int, bytes@.len() as int)),
        at + r.1 <= bytes@.len(),
{
    let ghost rest = bytes@.subrange(at as int, bytes@.len() as int);
    assert(forall|i: int| 0 <= i < rest.len() ==> rest[i] == bytes@[at + i]);
    let b0: u8 = bytes[at];
    if b0 < 0x80 {
        assert(b0 & 0x7F == b0) by (bit_vector)
            requires
                b0 < 0x80,
        ;
        (b0 as u32, 1)
    } else if b0 < 0xE0 {
        let b1: u8 = bytes[at + 1];
        ((((b0 & 0x1F) as u32) << 6) | ((b1 & 0x3F) as u32), 2)
    } else if b0 < 0xF0 {
        let b1: u8 = bytes[at + 1];
        let b2: u8 = bytes[at + 2];
        ((((b0 & 0x0F) as u32) << 12) | (((b1 & 0x3F) as u32) << 6) | ((b2 & 0x3F) as u32), 3)
    } else {
        let b1: u8 = bytes[at + 1];
        let b2: u8 = bytes[at + 2];
        let b3: u8 = bytes[at + 3];
        (
            (((b0 & 0x07) as u32) << 18) | (((b1 & 0x3F) as u32) << 12) | (((b2 & 0x3F) as u32)
                << 6) | ((b3 & 0x3F) as u32),
            4,
        )
    }
}

/// Tells whether two strings hold the same text.
pub fn same_text(a: &str, b: &str) -> (r: bool)
    ensures
        r == (a@ == b@),
{
    let x = a.as_bytes();
    let y = b.as_bytes();
    if x.len() != y.len() {
        return false;
    }
    let mut i: usize = 0;
    while i < x.len()
        invariant
            x@ == encode_utf8(a@),
            y@ == encode_utf8(b@),
            x@.len() == y@.len(),
            i <= x@.len(),
            forall|j: int| 0 <= j < i ==> x@[j] == y@[j],
        decreases x@.len() - i,
    {
        if x[i] != y[i] {
            return false;
        }
        i += 1;
    }
    proof {
        assert(x@ =~= y@);
        lemma_encode_injective(a@, b@);
    }
    true
}

} // verus!
