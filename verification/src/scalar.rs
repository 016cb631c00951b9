//! Scalar kernels: byte-at-a-time reference scans and the identity-based
//! filter and branchless variants.
//!
//! The reference kernels classify each byte as +1, -1 or 0 and are exact on
//! arbitrary input. The filter and branchless kernels count only marker A
//! (directly, or through its low bit) and apply the `2 * n_A - n` identity,
//! which names the net count exactly when every byte is one of the two
//! markers; their contracts state both the unconditional value and that
//! marker-only guarantee.

use vstd::prelude::*;
use vstd::string::StringSliceAdditionalSpecFns;
use crate::model::{all_markers, byte_weight, count_byte, low_bit_sum, net_count};
use crate::model::{MARKER_A, MARKER_B};
use crate::model::{
    lemma_all_markers_identity, lemma_count_byte_bounds, lemma_count_byte_subrange_step,
    lemma_low_bit_counts_marker_a, lemma_low_bit_sum_bounds, lemma_low_bit_sum_subrange_step,
    lemma_net_count_bounds, lemma_net_count_subrange_step,
};
use crate::encoding::{lemma_net_count_utf8, net_count_chars};

verus! {

/// Net count of `bytes[from..to]`, one byte at a time. The shared scalar
/// engine: the reference kernels run it over the whole input and the block
/// kernels over the remainder that no full block covers.
pub(crate) fn net_range(bytes: &[u8], from: usize, to: usize) -> (r: i64)
    requires
        from <= to <= bytes@.len(),
        bytes@.len() <= i64::MAX,
    ensures
        r == net_count(bytes@.subrange(from as int, to as int)),
{
    let mut res: i64 = 0;
    let mut i: usize = from;
    while i < to
        invariant
            from <= i <= to <= bytes@.len(),
            bytes@.len() <= i64::MAX,
            res == net_count(bytes@.subrange(from as int, i as int)),
        decreases to - i,
    {
        proof {
            lemma_net_count_bounds(bytes@.subrange(from as int, i as int));
            lemma_net_count_subrange_step(bytes@, from as int, i as int);
        }
        let b = bytes[i];
        if b == MARKER_A {
            res = res + 1;
        } else if b == MARKER_B {
            res = res - 1;
        }
        i = i + 1;
    }
    res
}

/// Scalar reference kernel at the character level. The contract speaks of
/// the characters of the text; the body scans the UTF-8 bytes, which agrees
/// with a codepoint-level scan on every input (see
/// [`lemma_net_count_utf8`]).
pub fn baseline_unicode(input: &str) -> (r: i64)
    requires
        input.spec_bytes().len() <= i64::MAX,
    ensures
        r == net_count_chars(input@),
        r == net_count(input.spec_bytes()),
{
    let bytes = input.as_bytes();
    let r = net_range(bytes, 0, bytes.len());
    proof {
        assert(bytes@.subrange(0, bytes@.len() as int) =~= bytes@);
        lemma_net_count_utf8(input@);
    }
    r
}

/// Scalar reference kernel: one pass, +1 on marker A, -1 on marker B. The
/// oracle the other kernels are measured against; exact on arbitrary bytes.
pub fn baseline(input: &str) -> (r: i64)
    requires
        input.spec_bytes().len() <= i64::MAX,
    ensures
        r == net_count(input.spec_bytes()),
{
    let bytes = input.as_bytes();
    let n = bytes.len();
    let mut res: i64 = 0;
    let mut i: usize = 0;
    while i < n
        invariant
            i <= n == bytes@.len(),
            n <= i64::MAX,
            res == net_count(bytes@.subrange(0, i as int)),
        decreases n - i,
    {
        proof {
            lemma_net_count_bounds(bytes@.subrange(0, i as int));
            lemma_net_count_subrange_step(bytes@, 0, i as int);
        }
        let b = bytes[i];
        if b == MARKER_A {
            res = res + 1;
        } else if b == MARKER_B {
            res = res - 1;
        }
        i = i + 1;
    }
    proof {
        assert(bytes@.subrange(0, n as int) =~= bytes@);
    }
    res
}

/// Scalar reference kernel over the byte slice view; same scan and same
/// contract as [`baseline`].
pub fn baseline_bytes(input: &str) -> (r: i64)
    requires
        input.spec_bytes().len() <= i64::MAX,
    ensures
        r == net_count(input.spec_bytes()),
{
    let bytes = input.as_bytes();
    let r = net_range(bytes, 0, bytes.len());
    proof {
        assert(bytes@.subrange(0, bytes@.len() as int) =~= bytes@);
    }
    r
}

/// Scalar kernel phrased as a classify-then-sum: each byte is mapped to its
/// weight and the weights are summed. Exact on arbitrary bytes.
pub fn opt1_idiomatic(input: &str) -> (r: i64)
    requires
        input.spec_bytes().len() <= i64::MAX,
    ensures
        r == net_count(input.spec_bytes()),
{
    let bytes = input.as_bytes();
    let n = bytes.len();
    let mut res: i64 = 0;
    let mut i: usize = 0;
    while i < n
        invariant
            i <= n == bytes@.len(),
            n <= i64::MAX,
            res == net_count(bytes@.subrange(0, i as int)),
        decreases n - i,
    {
        proof {
            lemma_net_count_bounds(bytes@.subrange(0, i as int));
            lemma_net_count_subrange_step(bytes@, 0, i as int);
        }
        let b = bytes[i];
        let w: i64 = if b == MARKER_A {
            1
        } else if b == MARKER_B {
            -1
        } else {
            0
        };
        proof {
            assert(w == byte_weight(b));
        }
        res = res + w;
        i = i + 1;
    }
    proof {
        assert(bytes@.subrange(0, n as int) =~= bytes@);
    }
    res
}

/// Filter kernel: counts marker A alone and applies the `2 * n_A - n`
/// identity. The first clause gives its value on arbitrary input; the
/// identity names the net count exactly on marker-only input.
pub fn opt2_count_s(input: &str) -> (r: i64)
    requires
        input.spec_bytes().len() <= i64::MAX,
    ensures
        r == 2 * count_byte(input.spec_bytes(), MARKER_A) - input.spec_bytes().len(),
        all_markers(input.spec_bytes()) ==> r == net_count(input.spec_bytes()),
{
    let bytes = input.as_bytes();
    let n = bytes.len();
    let mut n_s: i64 = 0;
    let mut i: usize = 0;
    while i < n
        invariant
            i <= n == bytes@.len(),
            n <= i64::MAX,
            n_s == count_byte(bytes@.subrange(0, i as int), MARKER_A),
        decreases n - i,
    {
        proof {
            lemma_count_byte_bounds(bytes@.subrange(0, i as int), MARKER_A);
            lemma_count_byte_subrange_step(bytes@, MARKER_A, 0, i as int);
        }
        if bytes[i] == MARKER_A {
            n_s = n_s + 1;
        }
        i = i + 1;
    }
    proof {
        assert(bytes@.subrange(0, n as int) =~= bytes@);
        lemma_count_byte_bounds(bytes@, MARKER_A);
        if all_markers(bytes@) {
            lemma_all_markers_identity(bytes@);
        }
    }
    n_s - ((n as i64) - n_s)
}

/// Branchless kernel: sums the low bit of every byte and applies the same
/// `2 * n_A - n` identity; among the markers only marker A is odd. The first
/// clause gives its value on arbitrary input.
pub fn opt3_count_s_branchless(input: &str) -> (r: i64)
    requires
        input.spec_bytes().len() <= i64::MAX,
    ensures
        r == 2 * low_bit_sum(input.spec_bytes()) - input.spec_bytes().len(),
        all_markers(input.spec_bytes()) ==> r == net_count(input.spec_bytes()),
{
    let bytes = input.as_bytes();
    let n = bytes.len();
    let mut n_s: i64 = 0;
    let mut i: usize = 0;
    while i < n
        invariant
            i <= n == bytes@.len(),
            n <= i64::MAX,
            n_s == low_bit_sum(bytes@.subrange(0, i as int)),
        decreases n - i,
    {
        proof {
            lemma_low_bit_sum_bounds(bytes@.subrange(0, i as int));
            lemma_low_bit_sum_subrange_step(bytes@, 0, i as int);
            let b = bytes@[i as int];
            assert(b & 1 <= 1) by (bit_vector);
        }
        n_s = n_s + ((bytes[i] & 1) as i64);
        i = i + 1;
    }
    proof {
        assert(bytes@.subrange(0, n as int) =~= bytes@);
        lemma_low_bit_sum_bounds(bytes@);
        if all_markers(bytes@) {
            lemma_all_markers_identity(bytes@);
            lemma_low_bit_counts_marker_a(bytes@);
        }
    }
    n_s - ((n as i64) - n_s)
}

} // verus!
