//! Character-level view of the statistic.
//!
//! A string's bytes are the UTF-8 encoding of its characters. In UTF-8 every
//! byte of a multi-byte encoding is `0x80` or above, so an ASCII byte such as
//! one of the markers occurs in the encoding exactly as often as the
//! corresponding character occurs in the text. This module proves that fact,
//! which lets the byte-scanning kernels carry character-level contracts.

use vstd::prelude::*;
use vstd::utf8::*;
use crate::model::{count_byte, net_count, MARKER_A, MARKER_B};
use crate::model::{all_markers, lemma_count_byte_concat};

verus! {

/// Number of occurrences of the character `c` in `s`.
pub open spec fn count_char(s: Seq<char>, c: char) -> int
    decreases s.len(),
{
    if s.len() == 0 {
        0
    } else {
        (if s[0] == c {
            1int
        } else {
            0int
        }) + count_char(s.drop_first(), c)
    }
}

/// The statistic at the character level: occurrences of `'s'` minus
/// occurrences of `'p'`.
pub open spec fn net_count_chars(s: Seq<char>) -> int {
    count_char(s, 's') - count_char(s, 'p')
}

proof fn lemma_count_byte_empty(b: u8)
    ensures
        count_byte(Seq::<u8>::empty(), b) == 0,
{
}

proof fn lemma_count_byte_singleton(x: u8, b: u8)
    ensures
        count_byte(seq![x], b) == if x == b {
            1int
        } else {
            0int
        },
{
    lemma_count_byte_empty(b);
    assert(seq![x].drop_last() =~= Seq::<u8>::empty());
    assert(seq![x].last() == x);
    assert(count_byte(seq![x], b) == count_byte(seq![x].drop_last(), b) + if seq![x].last() == b {
        1int
    } else {
        0int
    });
}

// Occurrences of an ASCII byte `b` in the encoding of one scalar: one if the
// scalar is the width-1 scalar of `b`, none otherwise, since every byte of a
// wider encoding is 0x80 or above.
proof fn lemma_scalar_count(d: char, c: char, b: u8)
    requires
        (c as u32) < 0x80,
        (b as u32) == (c as u32),
    ensures
        count_byte(encode_scalar(d as u32), b) == if d == c {
            1int
        } else {
            0int
        },
{
    let v = d as u32;
    char_is_scalar(d);
    char_u32_cast(d, v);
    char_u32_cast(c, c as u32);
    if has_width_1_encoding(v) {
        let e = leading_byte_width_1(v);
        assert(encode_scalar(v) =~= seq![e]);
        lemma_count_byte_singleton(e, b);
        assert(e as u32 == v) by (bit_vector)
            requires
                v < 0x80,
                e == (v & 0x7F) as u8,
        ;
        if d == c {
            assert(e == b);
        } else {
            assert(v != c as u32);
            assert(e != b);
        }
    } else {
        assert(d != c);
        if has_width_2_encoding(v) {
            let e1 = leading_byte_width_2(v);
            let e2 = last_continuation_byte(v);
            assert(encode_scalar(v) =~= seq![e1] + seq![e2]);
            lemma_count_byte_concat(seq![e1], seq![e2], b);
            lemma_count_byte_singleton(e1, b);
            lemma_count_byte_singleton(e2, b);
            assert(e1 != b && e2 != b) by (bit_vector)
                requires
                    b < 0x80,
                    e1 == 0xC0 | ((v >> 6) & 0x1F) as u8,
                    e2 == 0x80 | (v & 0x3F) as u8,
            ;
        } else if has_width_3_encoding(v) {
            let e1 = leading_byte_width_3(v);
            let e2 = second_last_continuation_byte(v);
            let e3 = last_continuation_byte(v);
            assert(encode_scalar(v) =~= seq![e1] + seq![e2] + seq![e3]);
            lemma_count_byte_concat(seq![e1] + seq![e2], seq![e3], b);
            lemma_count_byte_concat(seq![e1], seq![e2], b);
            lemma_count_byte_singleton(e1, b);
            lemma_count_byte_singleton(e2, b);
            lemma_count_byte_singleton(e3, b);
            assert(e1 != b && e2 != b && e3 != b) by (bit_vector)
                requires
                    b < 0x80,
                    e1 == 0xE0 | ((v >> 12) & 0x0F) as u8,
                    e2 == 0x80 | ((v >> 6) & 0x3F) as u8,
                    e3 == 0x80 | (v & 0x3F) as u8,
            ;
        } else {
            let e1 = leading_byte_width_4(v);
            let e2 = third_last_continuation_byte(v);
            let e3 = second_last_continuation_byte(v);
            let e4 = last_continuation_byte(v);
            assert(encode_scalar(v) =~= seq![e1] + seq![e2] + seq![e3] + seq![e4]);
            lemma_count_byte_concat(seq![e1] + seq![e2] + seq![e3], seq![e4], b);
            lemma_count_byte_concat(seq![e1] + seq![e2], seq![e3], b);
            lemma_count_byte_concat(seq![e1], seq![e2], b);
            lemma_count_byte_singleton(e1, b);
            lemma_count_byte_singleton(e2, b);
            lemma_count_byte_singleton(e3, b);
            lemma_count_byte_singleton(e4, b);
            assert(e1 != b && e2 != b && e3 != b && e4 != b) by (bit_vector)
                requires
                    b < 0x80,
                    e1 == 0xF0 | ((v >> 18) & 0x7) as u8,
                    e2 == 0x80 | ((v >> 12) & 0x3F) as u8,
                    e3 == 0x80 | ((v >> 6) & 0x3F) as u8,
                    e4 == 0x80 | (v & 0x3F) as u8,
            ;
        }
    }
}

/// An ASCII character occurs in a character sequence exactly as often as its
/// encoding byte occurs in the UTF-8 encoding of that sequence: bytes of
/// multi-byte encodings never collide with an ASCII byte value.
pub proof fn lemma_ascii_count_utf8(s: Seq<char>, c: char, b: u8)
    requires
        (c as u32) < 0x80,
        (b as u32) == (c as u32),
    ensures
        count_byte(encode_utf8(s), b) == count_char(s, c),
    decreases s.len(),
{
    if s.len() == 0 {
        assert(encode_utf8(s) =~= Seq::<u8>::empty());
    } else {
        lemma_scalar_count(s[0], c, b);
        lemma_count_byte_concat(encode_scalar(s[0] as u32), encode_utf8(s.drop_first()), b);
        lemma_ascii_count_utf8(s.drop_first(), c, b);
    }
}

/// The net count over a string's UTF-8 bytes equals the net count over its
/// characters: a byte-level scan and a codepoint-level scan of the same text
/// agree, for arbitrary text.
pub proof fn lemma_net_count_utf8(s: Seq<char>)
    ensures
        net_count(encode_utf8(s)) == net_count_chars(s),
{
    assert('s' as u32 == 115);
    assert('p' as u32 == 112);
    lemma_ascii_count_utf8(s, 's', MARKER_A);
    lemma_ascii_count_utf8(s, 'p', MARKER_B);
}

/// A text of marker characters encodes to marker bytes alone, one byte per
/// character, so the identity-based kernels may run on its whole encoding.
pub proof fn lemma_marker_chars_encode(s: Seq<char>)
    requires
        forall|i: int| 0 <= i < s.len() ==> s[i] == 's' || s[i] == 'p',
    ensures
        encode_utf8(s).len() == s.len(),
        all_markers(encode_utf8(s)),
{
    assert(is_ascii_chars(s)) by {
        assert(forall|i: int| 0 <= i < s.len() ==> '\0' <= #[trigger] s[i] <= '\u{7f}') by {
            assert(forall|i: int|
                0 <= i < s.len() ==> (#[trigger] s[i] == 's' || s[i] == 'p'));
        }
    }
    is_ascii_chars_encode_utf8(s);
    assert forall|i: int| 0 <= i < encode_utf8(s).len() implies #[trigger] encode_utf8(s)[i]
        == MARKER_A || encode_utf8(s)[i] == MARKER_B by {
        assert(encode_utf8(s)[i] == s[i] as u8);
        assert(s[i] == 's' || s[i] == 'p');
        assert('s' as u8 == MARKER_A);
        assert('p' as u8 == MARKER_B);
    }
}

} // verus!
