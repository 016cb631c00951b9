//! Mathematical model of the marker statistic.
//!
//! The statistic is the number of occurrences of the marker byte `MARKER_A`
//! minus the number of occurrences of `MARKER_B` in a byte sequence. The
//! kernels state their contracts over the spec functions of this module.

use vstd::prelude::*;

verus! {

/// Marker byte counted as +1: ASCII `'s'`.
pub const MARKER_A: u8 = 115;

/// Marker byte counted as -1: ASCII `'p'`.
pub const MARKER_B: u8 = 112;

/// Number of occurrences of the byte `b` in `s`.
pub open spec fn count_byte(s: Seq<u8>, b: u8) -> int
    decreases s.len(),
{
    if s.len() == 0 {
        0
    } else {
        count_byte(s.drop_last(), b) + if s.last() == b {
            1int
        } else {
            0int
        }
    }
}

/// The statistic every kernel computes: occurrences of marker A minus
/// occurrences of marker B, over raw byte values.
pub open spec fn net_count(s: Seq<u8>) -> int {
    count_byte(s, MARKER_A) - count_byte(s, MARKER_B)
}

/// Contribution of a single byte to the net count.
pub open spec fn byte_weight(b: u8) -> int {
    if b == MARKER_A {
        1
    } else if b == MARKER_B {
        -1
    } else {
        0
    }
}

/// Sum of the least-significant bits of the bytes of `s`. The branchless and
/// lane kernels classify a byte by this bit: among the two markers, only
/// marker A is odd.
pub open spec fn low_bit_sum(s: Seq<u8>) -> int
    decreases s.len(),
{
    if s.len() == 0 {
        0
    } else {
        low_bit_sum(s.drop_last()) + (s.last() & 1)
    }
}

/// True when every byte of `s` is one of the two markers (the binary-alphabet
/// precondition of the identity-based fast paths).
pub open spec fn all_markers(s: Seq<u8>) -> bool {
    forall|i: int| 0 <= i < s.len() ==> s[i] == MARKER_A || s[i] == MARKER_B
}

/// Length of the prefix of an `n`-byte input covered by full `block`-byte
/// blocks.
pub open spec fn blocked_len(n: int, block: int) -> int {
    (n / block) * block
}

/// Result of a lane kernel with `block`-byte blocks: the fast path tallies
/// low bits over the block-covered prefix and applies the `2 * n_A - n_fast`
/// identity; the scalar tail contributes its exact net count.
pub open spec fn lane_kernel_value(s: Seq<u8>, block: int) -> int {
    let p = blocked_len(s.len() as int, block);
    2 * low_bit_sum(s.take(p)) - p + net_count(s.skip(p))
}

pub proof fn lemma_count_byte_bounds(s: Seq<u8>, b: u8)
    ensures
        0 <= count_byte(s, b) <= s.len(),
    decreases s.len(),
{
    if s.len() > 0 {
        lemma_count_byte_bounds(s.drop_last(), b);
    }
}

pub proof fn lemma_net_count_bounds(s: Seq<u8>)
    ensures
        -(s.len() as int) <= net_count(s) <= s.len() as int,
{
    lemma_count_byte_bounds(s, MARKER_A);
    lemma_count_byte_bounds(s, MARKER_B);
}

pub proof fn lemma_low_bit_sum_bounds(s: Seq<u8>)
    ensures
        0 <= low_bit_sum(s) <= s.len(),
    decreases s.len(),
{
    if s.len() > 0 {
        lemma_low_bit_sum_bounds(s.drop_last());
        let b = s.last();
        assert(b & 1 <= 1) by (bit_vector);
    }
}

pub proof fn lemma_count_byte_subrange_step(s: Seq<u8>, b: u8, from: int, i: int)
    requires
        0 <= from <= i < s.len(),
    ensures
        count_byte(s.subrange(from, i + 1), b) == count_byte(s.subrange(from, i), b) + if s[i]
            == b {
            1int
        } else {
            0int
        },
{
    assert(s.subrange(from, i + 1).drop_last() =~= s.subrange(from, i));
    assert(s.subrange(from, i + 1).last() == s[i]);
}

pub proof fn lemma_net_count_subrange_step(s: Seq<u8>, from: int, i: int)
    requires
        0 <= from <= i < s.len(),
    ensures
        net_count(s.subrange(from, i + 1)) == net_count(s.subrange(from, i)) + byte_weight(s[i]),
{
    lemma_count_byte_subrange_step(s, MARKER_A, from, i);
    lemma_count_byte_subrange_step(s, MARKER_B, from, i);
}

pub proof fn lemma_low_bit_sum_subrange_step(s: Seq<u8>, from: int, i: int)
    requires
        0 <= from <= i < s.len(),
    ensures
        low_bit_sum(s.subrange(from, i + 1)) == low_bit_sum(s.subrange(from, i)) + (s[i] & 1),
{
    assert(s.subrange(from, i + 1).drop_last() =~= s.subrange(from, i));
    assert(s.subrange(from, i + 1).last() == s[i]);
}

pub proof fn lemma_count_byte_concat(s: Seq<u8>, t: Seq<u8>, b: u8)
    ensures
        count_byte(s + t, b) == count_byte(s, b) + count_byte(t, b),
    decreases t.len(),
{
    if t.len() == 0 {
        assert(s + t =~= s);
    } else {
        lemma_count_byte_concat(s, t.drop_last(), b);
        assert((s + t).drop_last() =~= s + t.drop_last());
        assert((s + t).last() == t.last());
    }
}

pub proof fn lemma_low_bit_sum_concat(s: Seq<u8>, t: Seq<u8>)
    ensures
        low_bit_sum(s + t) == low_bit_sum(s) + low_bit_sum(t),
    decreases t.len(),
{
    if t.len() == 0 {
        assert(s + t =~= s);
    } else {
        lemma_low_bit_sum_concat(s, t.drop_last());
        assert((s + t).drop_last() =~= s + t.drop_last());
        assert((s + t).last() == t.last());
    }
}

pub proof fn lemma_net_count_concat(s: Seq<u8>, t: Seq<u8>)
    ensures
        net_count(s + t) == net_count(s) + net_count(t),
{
    lemma_count_byte_concat(s, t, MARKER_A);
    lemma_count_byte_concat(s, t, MARKER_B);
}

pub proof fn lemma_net_count_split(s: Seq<u8>, k: int)
    requires
        0 <= k <= s.len(),
    ensures
        net_count(s) == net_count(s.take(k)) + net_count(s.skip(k)),
{
    assert(s =~= s.take(k) + s.skip(k));
    lemma_net_count_concat(s.take(k), s.skip(k));
}

/// Identity behind the filter kernel: on marker-only input, every byte that
/// is not marker A is marker B, so the net count is
/// `2 * (occurrences of marker A) - length`.
pub proof fn lemma_all_markers_identity(s: Seq<u8>)
    requires
        all_markers(s),
    ensures
        net_count(s) == 2 * count_byte(s, MARKER_A) - s.len(),
    decreases s.len(),
{
    if s.len() > 0 {
        assert(all_markers(s.drop_last())) by {
            assert(forall|i: int|
                0 <= i < s.len() - 1 ==> s.drop_last()[i] == s[i]);
        }
        lemma_all_markers_identity(s.drop_last());
    }
}

/// Identity behind the branchless kernels: the two markers differ exactly in
/// their least-significant bit, so on marker-only input the low-bit sum
/// counts the occurrences of marker A.
pub proof fn lemma_low_bit_counts_marker_a(s: Seq<u8>)
    requires
        all_markers(s),
    ensures
        low_bit_sum(s) == count_byte(s, MARKER_A),
    decreases s.len(),
{
    if s.len() > 0 {
        assert(all_markers(s.drop_last())) by {
            assert(forall|i: int|
                0 <= i < s.len() - 1 ==> s.drop_last()[i] == s[i]);
        }
        lemma_low_bit_counts_marker_a(s.drop_last());
        let b = s.last();
        assert(b == 115 ==> b & 1 == 1) by (bit_vector);
        assert(b == 112 ==> b & 1 == 0) by (bit_vector);
    }
}

/// Oracle agreement for the identity-based kernels: on marker-only input,
/// `2 * (occurrences of marker A) - length` is the net count, and so is
/// `2 * (low-bit sum) - length`.
pub proof fn lemma_all_markers_net(s: Seq<u8>)
    requires
        all_markers(s),
    ensures
        net_count(s) == 2 * count_byte(s, MARKER_A) - s.len(),
        net_count(s) == 2 * low_bit_sum(s) - s.len(),
{
    lemma_all_markers_identity(s);
    lemma_low_bit_counts_marker_a(s);
}

/// Purity of the kernels: each contract equates the result with a spec
/// function of the borrowed input alone, so two calls on the same input
/// cannot disagree. Stated for results pinned to the net count; the
/// identity kernels' results are pinned the same way through
/// [`lane_kernel_value`] and [`low_bit_sum`].
pub proof fn lemma_net_count_deterministic(s: Seq<u8>, r1: i64, r2: i64)
    requires
        r1 == net_count(s),
        r2 == net_count(s),
    ensures
        r1 == r2,
{
}

/// Oracle agreement for the lane kernels: when every byte of the
/// block-covered prefix is a marker, the fast-path identity plus the exact
/// scalar tail give the net count of the whole input. The tail past the last
/// full block may hold arbitrary bytes.
pub proof fn lemma_lane_kernel_agrees(s: Seq<u8>, block: int)
    requires
        1 <= block,
        all_markers(s.take(blocked_len(s.len() as int, block))),
    ensures
        lane_kernel_value(s, block) == net_count(s),
{
    let n = s.len() as int;
    let p = blocked_len(n, block);
    assert(0 <= p <= n) by (nonlinear_arith)
        requires
            block >= 1,
            n >= 0,
            p == (n / block) * block,
    ;
    let pre = s.take(p);
    lemma_all_markers_identity(pre);
    lemma_low_bit_counts_marker_a(pre);
    lemma_net_count_split(s, p);
}

pub proof fn lemma_count_byte_all(s: Seq<u8>, b: u8)
    requires
        forall|i: int| 0 <= i < s.len() ==> s[i] == b,
    ensures
        count_byte(s, b) == s.len(),
    decreases s.len(),
{
    if s.len() > 0 {
        assert(forall|i: int| 0 <= i < s.len() - 1 ==> s.drop_last()[i] == s[i]);
        lemma_count_byte_all(s.drop_last(), b);
    }
}

pub proof fn lemma_count_byte_none(s: Seq<u8>, b: u8)
    requires
        forall|i: int| 0 <= i < s.len() ==> s[i] != b,
    ensures
        count_byte(s, b) == 0,
    decreases s.len(),
{
    if s.len() > 0 {
        assert(forall|i: int| 0 <= i < s.len() - 1 ==> s.drop_last()[i] == s[i]);
        lemma_count_byte_none(s.drop_last(), b);
    }
}

/// Extreme inputs: a sequence made entirely of marker A nets its full length.
pub proof fn lemma_net_count_all_marker_a(s: Seq<u8>)
    requires
        forall|i: int| 0 <= i < s.len() ==> s[i] == MARKER_A,
    ensures
        net_count(s) == s.len(),
{
    lemma_count_byte_all(s, MARKER_A);
    lemma_count_byte_none(s, MARKER_B);
}

/// Extreme inputs: a sequence made entirely of marker B nets the negation of
/// its full length.
pub proof fn lemma_net_count_all_marker_b(s: Seq<u8>)
    requires
        forall|i: int| 0 <= i < s.len() ==> s[i] == MARKER_B,
    ensures
        net_count(s) == -(s.len() as int),
{
    lemma_count_byte_all(s, MARKER_B);
    lemma_count_byte_none(s, MARKER_A);
}

} // verus!
