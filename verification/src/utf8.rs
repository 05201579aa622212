//! Appending text to byte buffers, and how UTF-8 behaves under concatenation.

use vstd::prelude::*;
use vstd::utf8::*;

verus! {

/// Whether `c` is an ASCII character.
pub open spec fn is_ascii_char(c: char) -> bool {
    '\0' <= c <= '\u{7f}'
}

/// No character precedes U+0000.
pub proof fn lemma_char_nonnegative(c: char)
    ensures
        '\0' <= c,
{
}

/// Appends `bytes` to `buf`.
pub(crate) fn append(buf: &mut Vec<u8>, bytes: &[u8])
    ensures
        final(buf)@ == old(buf)@ + bytes@,
{
    buf.extend_from_slice(bytes);
    assert(buf@ =~= old(buf)@ + bytes@);
}

/// Appends the UTF-8 encoding of `c` to `buf`.
pub(crate) fn push_char(buf: &mut Vec<u8>, c: char)
    ensures
        final(buf)@ == old(buf)@ + encode_scalar(c as u32),
{
    let scalar: u32 = c as u32;
    proof {
        char_is_scalar(c);
    }
    if scalar <= 0x7F {
        buf.push((scalar & 0x7F) as u8);
    } else if scalar <= 0x7FF {
        buf.push(0xC0 | ((scalar >> 6) & 0x1F) as u8);
        buf.push(0x80 | (scalar & 0x3F) as u8);
    } else if scalar <= 0xFFFF {
        buf.push(0xE0 | ((scalar >> 12) & 0x0F) as u8);
        buf.push(0x80 | ((scalar >> 6) & 0x3F) as u8);
        buf.push(0x80 | (scalar & 0x3F) as u8);
    } else {
        buf.push(0xF0 | ((scalar >> 18) & 0x7) as u8);
        buf.push(0x80 | ((scalar >> 12) & 0x3F) as u8);
        buf.push(0x80 | ((scalar >> 6) & 0x3F) as u8);
        buf.push(0x80 | (scalar & 0x3F) as u8);
    }
    assert(buf@ =~= old(buf)@ + encode_scalar(scalar));
}

/// Encoding a concatenation concatenates the encodings.
pub proof fn lemma_encode_concat(a: Seq<char>, b: Seq<char>)
    ensures
        encode_utf8(a + b) == encode_utf8(a) + encode_utf8(b),
    decreases a.len(),
{
    if a.len() == 0 {
        assert(a + b =~= b);
        assert(encode_utf8(a) + encode_utf8(b) =~= encode_utf8(b));
    } else {
        assert((a + b).drop_first() =~= a.drop_first() + b);
        lemma_encode_concat(a.drop_first(), b);
        assert(encode_utf8(a + b) =~= encode_utf8(a) + encode_utf8(b));
    }
}

/// A single character is encoded by its scalar value.
pub proof fn lemma_encode_one(c: char)
    ensures
        encode_utf8(seq![c]) == encode_scalar(c as u32),
        is_ascii_char(c) ==> encode_utf8(seq![c]) == seq![c as u8],
        encode_utf8(seq![c]).len() > 0,
{
    reveal_with_fuel(encode_utf8, 2);
    assert(seq![c].drop_first() =~= Seq::<char>::empty());
    assert(encode_utf8(seq![c]) =~= encode_scalar(c as u32));
    if is_ascii_char(c) {
        let s = c as u32;
        assert((s & 0x7F) as u8 == s as u8) by (bit_vector)
            requires
                s <= 0x7F,
        ;
        assert(encode_scalar(s) =~= seq![c as u8]);
    }
}

/// Pushing a character appends its encoding.
pub proof fn lemma_encode_push(a: Seq<char>, c: char)
    ensures
        encode_utf8(a.push(c)) == encode_utf8(a) + encode_scalar(c as u32),
        is_ascii_char(c) ==> encode_utf8(a.push(c)) == encode_utf8(a).push(c as u8),
{
    lemma_encode_concat(a, seq![c]);
    lemma_encode_one(c);
    assert(a.push(c) =~= a + seq![c]);
    if is_ascii_char(c) {
        assert(encode_utf8(a) + seq![c as u8] =~= encode_utf8(a).push(c as u8));
    }
}

/// An encoding is at least as long as what it encodes.
pub proof fn lemma_encode_len(a: Seq<char>)
    ensures
        encode_utf8(a).len() >= a.len(),
        a.len() == 0 ==> encode_utf8(a) == Seq::<u8>::empty(),
    decreases a.len(),
{
    if a.len() > 0 {
        lemma_encode_len(a.drop_first());
    }
}

/// The bytes of the encoding of a character outside ASCII lie outside ASCII.
proof fn lemma_encode_scalar_high(c: char)
    requires
        !is_ascii_char(c),
    ensures
        encode_scalar(c as u32).len() > 0,
        forall|i: int|
            0 <= i < encode_scalar(c as u32).len() ==> #[trigger] encode_scalar(c as u32)[i]
                >= 0x80,
{
    let scalar = c as u32;
    char_is_scalar(c);
    assert(scalar > 0x7F);
    assert(0xC0 | ((scalar >> 6) & 0x1F) as u8 >= 0x80u8) by (bit_vector);
    assert(0xE0 | ((scalar >> 12) & 0x0F) as u8 >= 0x80u8) by (bit_vector);
    assert(0xF0 | ((scalar >> 18) & 0x7) as u8 >= 0x80u8) by (bit_vector);
    assert(0x80 | ((scalar >> 12) & 0x3F) as u8 >= 0x80u8) by (bit_vector);
    assert(0x80 | ((scalar >> 6) & 0x3F) as u8 >= 0x80u8) by (bit_vector);
    assert(0x80 | (scalar & 0x3F) as u8 >= 0x80u8) by (bit_vector);
}

/// The encoding of a character lacks the bytes of the other ASCII characters.
proof fn lemma_encode_scalar_lacks(c: char, other: char)
    requires
        is_ascii_char(other),
        c != other,
    ensures
        !encode_scalar(c as u32).contains(other as u8),
{
    if is_ascii_char(c) {
        lemma_encode_one(c);
        assert(c as u8 != other as u8);
    } else {
        lemma_encode_scalar_high(c);
    }
}

/// The encoding of a text ends with the byte of the ASCII character `c` exactly if the text ends
/// with `c`, and is then the encoding of the rest before that byte.
pub proof fn lemma_encode_last(a: Seq<char>, c: char)
    requires
        a.len() > 0,
        is_ascii_char(c),
    ensures
        encode_utf8(a).len() > 0,
        encode_utf8(a).last() == c as u8 <==> a.last() == c,
        a.last() == c ==> encode_utf8(a) == encode_utf8(a.drop_last()).push(c as u8),
{
    let last = encode_scalar(a.last() as u32);
    assert(a.drop_last().push(a.last()) =~= a);
    lemma_encode_push(a.drop_last(), a.last());
    lemma_encode_one(a.last());
    if a.last() != c {
        lemma_encode_scalar_lacks(a.last(), c);
        assert(last.contains(last.last()));
        assert(encode_utf8(a).last() == last.last());
    }
}

/// Text whose encoding is made of ASCII bytes is ASCII text, and the other way round.
pub proof fn lemma_ascii_bytes(a: Seq<char>)
    ensures
        is_ascii_chars(a) <==> (forall|i: int|
            0 <= i < encode_utf8(a).len() ==> #[trigger] encode_utf8(a)[i] < 0x80),
    decreases a.len(),
{
    if a.len() > 0 {
        let head = encode_scalar(a[0] as u32);
        let rest = a.drop_first();
        lemma_ascii_bytes(rest);
        char_is_scalar(a[0]);
        assert(encode_utf8(a) == head + encode_utf8(rest));
        if is_ascii_chars(a) {
            is_ascii_chars_encode_utf8(a);
            assert forall|i: int| 0 <= i < encode_utf8(a).len() implies #[trigger] encode_utf8(a)[i]
                < 0x80 by {
                assert(a[i] as u8 == encode_utf8(a)[i]);
            }
        } else if is_ascii_char(a[0]) {
            assert(!is_ascii_chars(rest)) by {
                if is_ascii_chars(rest) {
                    assert forall|i: int| 0 <= i < a.len() implies '\0' <= #[trigger] a[i]
                        <= '\u{7f}' by {
                        if i > 0 {
                            assert(rest[i - 1] == a[i]);
                        }
                    }
                }
            }
            let k = choose|i: int|
                0 <= i < encode_utf8(rest).len() && #[trigger] encode_utf8(rest)[i] >= 0x80;
            assert(encode_utf8(a)[head.len() + k] == encode_utf8(rest)[k]);
        } else {
            lemma_encode_scalar_high(a[0]);
            assert(encode_utf8(a)[0] == head[0]);
        }
    }
}

/// Text without the ASCII character `c` has an encoding without the byte of `c`.
pub proof fn lemma_encode_lacks(a: Seq<char>, c: char)
    requires
        is_ascii_char(c),
        !a.contains(c),
    ensures
        !encode_utf8(a).contains(c as u8),
    decreases a.len(),
{
    if a.len() > 0 {
        let head = encode_scalar(a[0] as u32);
        let rest = a.drop_first();
        assert(!rest.contains(c)) by {
            if rest.contains(c) {
                let k = choose|k: int| 0 <= k < rest.len() && rest[k] == c;
                assert(a[k + 1] == c);
            }
        }
        lemma_encode_lacks(rest, c);
        assert(a[0] != c);
        lemma_encode_scalar_lacks(a[0], c);
        if encode_utf8(a).contains(c as u8) {
            let k = choose|k: int| 0 <= k < encode_utf8(a).len() && encode_utf8(a)[k] == c as u8;
            if k < head.len() {
                assert(head[k] == c as u8);
            } else {
                assert(encode_utf8(rest)[k - head.len()] == c as u8);
            }
        }
    }
}

} // verus!
