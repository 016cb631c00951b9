//! Lane kernels: the vector classify-and-accumulate pipeline, rendered
//! portably.
//!
//! A block of `lanes` consecutive bytes is classified in one step — each
//! lane maps its byte to 1 for marker A and 0 for marker B — and added into
//! a narrow 8-bit accumulator per lane. A lane gains at most one per block,
//! so after [`FLUSH_PERIOD`] blocks the accumulators are exactly full and
//! must be widened into the 64-bit running total and cleared; missing that
//! cadence would wrap a lane and corrupt the result silently. The suffix not
//! covered by a full block goes through the scalar engine, which is exact on
//! arbitrary bytes. Unrolling replicates the per-block accumulators, which
//! here simply widens the block.

use vstd::prelude::*;
use vstd::string::StringSliceAdditionalSpecFns;
use crate::model::{all_markers, blocked_len, lane_kernel_value, low_bit_sum, net_count};
use crate::model::{MARKER_A, MARKER_B};
use crate::model::{
    lemma_lane_kernel_agrees, lemma_low_bit_sum_bounds, lemma_low_bit_sum_subrange_step,
    lemma_net_count_bounds,
};
use crate::scalar::net_range;

verus! {

/// Bytes per vector block: the lane count of one hardware vector register.
pub const N_LANES: usize = 16;

/// Block iterations between widening flushes. Each lane gains at most one
/// per block, so this is the 8-bit lane capacity: one more block could wrap
/// a full lane back to zero.
pub const FLUSH_PERIOD: usize = 255;

/// Sum of all lane accumulators: the value a horizontal add widens into the
/// running total.
pub open spec fn lane_total(s: Seq<u8>) -> int
    decreases s.len(),
{
    if s.len() == 0 {
        0
    } else {
        lane_total(s.drop_last()) + s.last()
    }
}

proof fn lemma_lane_total_nonneg(s: Seq<u8>)
    ensures
        lane_total(s) >= 0,
    decreases s.len(),
{
    if s.len() > 0 {
        lemma_lane_total_nonneg(s.drop_last());
    }
}

proof fn lemma_lane_total_zero(s: Seq<u8>)
    requires
        forall|k: int| 0 <= k < s.len() ==> s[k] == 0,
    ensures
        lane_total(s) == 0,
    decreases s.len(),
{
    if s.len() > 0 {
        assert(forall|k: int| 0 <= k < s.len() - 1 ==> s.drop_last()[k] == s[k]);
        lemma_lane_total_zero(s.drop_last());
    }
}

proof fn lemma_lane_total_update(s: Seq<u8>, j: int, v: u8)
    requires
        0 <= j < s.len(),
    ensures
        lane_total(s.update(j, v)) == lane_total(s) - s[j] + v,
    decreases s.len(),
{
    if j == s.len() - 1 {
        assert(s.update(j, v).drop_last() =~= s.drop_last());
        assert(s.update(j, v).last() == v);
    } else {
        assert(s.update(j, v).drop_last() =~= s.drop_last().update(j, v));
        assert(s.update(j, v).last() == s.last());
        lemma_lane_total_update(s.drop_last(), j, v);
        assert(s.drop_last()[j] == s[j]);
    }
}

/// Fresh zeroed lane accumulators.
fn zero_lanes(lanes: usize) -> (acc: Vec<u8>)
    ensures
        acc@.len() == lanes,
        forall|k: int| 0 <= k < lanes ==> acc@[k] == 0,
{
    let mut acc: Vec<u8> = Vec::new();
    let mut k: usize = 0;
    while k < lanes
        invariant
            k <= lanes,
            acc@.len() == k,
            forall|t: int| 0 <= t < k ==> acc@[t] == 0,
        decreases lanes - k,
    {
        acc.push(0);
        k = k + 1;
    }
    acc
}

/// Widen every lane accumulator into the 64-bit total and clear it: the
/// overflow-safe flush.
fn flush_lanes(acc: &mut Vec<u8>, res: &mut i64)
    requires
        *old(res) >= 0,
        *old(res) + lane_total(old(acc)@) <= i64::MAX,
    ensures
        final(acc)@.len() == old(acc)@.len(),
        forall|k: int| 0 <= k < final(acc)@.len() ==> final(acc)@[k] == 0,
        *final(res) == *old(res) + lane_total(old(acc)@),
        *final(res) >= 0,
{
    let lanes = acc.len();
    let mut j: usize = 0;
    while j < lanes
        invariant
            j <= lanes,
            acc@.len() == lanes,
            *res >= 0,
            *res + lane_total(acc@) == *old(res) + lane_total(old(acc)@),
            *old(res) >= 0,
            *old(res) + lane_total(old(acc)@) <= i64::MAX,
            forall|k: int| 0 <= k < j ==> acc@[k] == 0,
        decreases lanes - j,
    {
        proof {
            lemma_lane_total_update(acc@, j as int, 0u8);
            lemma_lane_total_nonneg(acc@.update(j as int, 0u8));
        }
        let v = acc[j];
        *res = *res + (v as i64);
        acc[j] = 0;
        j = j + 1;
    }
    proof {
        lemma_lane_total_zero(acc@);
    }
}

/// The shared lane engine: classify-and-accumulate over full `lanes`-byte
/// blocks with the flush cadence, the `2 * n_A - n_fast` identity over the
/// block-covered prefix, and the scalar engine over the tail.
fn lane_engine(bytes: &[u8], lanes: usize) -> (r: i64)
    requires
        1 <= lanes,
        bytes@.len() <= i64::MAX,
    ensures
        r == lane_kernel_value(bytes@, lanes as int),
        all_markers(bytes@.take(blocked_len(bytes@.len() as int, lanes as int))) ==> r
            == net_count(bytes@),
{
    let n = bytes.len();
    let n_blocks = n / lanes;
    proof {
        assert((n as int / lanes as int) * (lanes as int) <= n as int) by (nonlinear_arith)
            requires
                lanes as int >= 1,
                n as int >= 0,
        ;
    }
    let n_fast = n_blocks * lanes;
    let mut res: i64 = 0;
    let mut acc = zero_lanes(lanes);
    let mut since: usize = 0;
    let mut block_i: usize = 0;
    proof {
        lemma_lane_total_zero(acc@);
        assert(bytes@.take(0) =~= Seq::<u8>::empty());
    }
    while block_i < n_blocks
        invariant
            1 <= lanes,
            n == bytes@.len(),
            n <= i64::MAX,
            n_fast == n_blocks * lanes,
            n_fast <= n,
            block_i <= n_blocks,
            acc@.len() == lanes,
            since < FLUSH_PERIOD,
            forall|k: int| 0 <= k < lanes ==> acc@[k] <= since,
            res >= 0,
            res + lane_total(acc@) == low_bit_sum(bytes@.take((block_i * lanes) as int)),
        decreases n_blocks - block_i,
    {
        proof {
            assert((block_i + 1) * lanes <= n_blocks * lanes && block_i * lanes + lanes == (block_i
                + 1) * lanes) by (nonlinear_arith)
                requires
                    block_i < n_blocks,
                    lanes >= 1,
            ;
        }
        let offset = block_i * lanes;
        let mut j: usize = 0;
        while j < lanes
            invariant
                1 <= lanes,
                n == bytes@.len(),
                n <= i64::MAX,
                offset == block_i * lanes,
                offset + lanes <= n_fast <= n,
                j <= lanes,
                acc@.len() == lanes,
                since < FLUSH_PERIOD,
                forall|k: int| 0 <= k < j ==> acc@[k] <= since + 1,
                forall|k: int| j <= k < lanes ==> acc@[k] <= since,
                res >= 0,
                res + lane_total(acc@) == low_bit_sum(bytes@.take((offset + j) as int)),
            decreases lanes - j,
        {
            let b = bytes[offset + j];
            let bit = b & 1;
            proof {
                assert(b & 1 <= 1) by (bit_vector);
                lemma_lane_total_update(acc@, j as int, (acc@[j as int] + bit) as u8);
                lemma_low_bit_sum_subrange_step(bytes@, 0, (offset + j) as int);
                assert(bytes@.take((offset + j) as int) == bytes@.subrange(
                    0,
                    (offset + j) as int,
                ));
                assert(bytes@.take((offset + j + 1) as int) == bytes@.subrange(
                    0,
                    (offset + j + 1) as int,
                ));
            }
            let cur = acc[j];
            acc[j] = cur + bit;
            j = j + 1;
        }
        since = since + 1;
        if since == FLUSH_PERIOD {
            proof {
                lemma_low_bit_sum_bounds(bytes@.take((offset + lanes) as int));
                lemma_lane_total_nonneg(acc@);
            }
            flush_lanes(&mut acc, &mut res);
            proof {
                lemma_lane_total_zero(acc@);
            }
            since = 0;
        }
        block_i = block_i + 1;
    }
    proof {
        lemma_low_bit_sum_bounds(bytes@.take((n_blocks * lanes) as int));
        lemma_lane_total_nonneg(acc@);
    }
    flush_lanes(&mut acc, &mut res);
    proof {
        lemma_low_bit_sum_bounds(bytes@.take(n_fast as int));
    }
    let r0 = res - ((n_fast as i64) - res);
    let tail = net_range(bytes, n_fast, n);
    proof {
        assert(bytes@.subrange(n_fast as int, n as int) == bytes@.skip(n_fast as int));
        lemma_net_count_bounds(bytes@.skip(n_fast as int));
        assert(blocked_len(n as int, lanes as int) == n_fast);
        if all_markers(bytes@.take(blocked_len(bytes@.len() as int, lanes as int))) {
            lemma_lane_kernel_agrees(bytes@, lanes as int);
        }
    }
    r0 + tail
}

/// One less than marker A: a saturating subtraction of this value maps
/// marker A to 1 and marker B (like anything at or below it) to 0.
pub const CLASS_BASE: u8 = 114;

/// Vector classification kernel with the saturating-subtraction classify:
/// each lane subtracts [`CLASS_BASE`] saturating at zero, so among the two
/// markers exactly marker A yields 1. Bytes above marker A would classify
/// above 1 and wrap a lane, so this kernel asks for markers only in the
/// block-covered prefix; the scalar tail is exact on arbitrary bytes.
pub fn opt3_simd_naive(input: &str) -> (r: i64)
    requires
        input.spec_bytes().len() <= i64::MAX,
        all_markers(
            input.spec_bytes().take(
                blocked_len(input.spec_bytes().len() as int, N_LANES as int),
            ),
        ),
    ensures
        r == lane_kernel_value(input.spec_bytes(), N_LANES as int),
        r == net_count(input.spec_bytes()),
{
    let bytes = input.as_bytes();
    let n = bytes.len();
    let lanes = N_LANES;
    let n_blocks = n / lanes;
    proof {
        assert((n as int / lanes as int) * (lanes as int) <= n as int) by (nonlinear_arith)
            requires
                lanes as int >= 1,
                n as int >= 0,
        ;
    }
    let n_fast = n_blocks * lanes;
    let mut res: i64 = 0;
    let mut acc = zero_lanes(lanes);
    let mut since: usize = 0;
    let mut block_i: usize = 0;
    proof {
        lemma_lane_total_zero(acc@);
        assert(bytes@.take(0) =~= Seq::<u8>::empty());
        assert(blocked_len(n as int, lanes as int) == n_fast);
    }
    while block_i < n_blocks
        invariant
            1 <= lanes,
            n == bytes@.len(),
            n <= i64::MAX,
            n_fast == n_blocks * lanes,
            n_fast <= n,
            all_markers(bytes@.take(n_fast as int)),
            block_i <= n_blocks,
            acc@.len() == lanes,
            since < FLUSH_PERIOD,
            forall|k: int| 0 <= k < lanes ==> acc@[k] <= since,
            res >= 0,
            res + lane_total(acc@) == low_bit_sum(bytes@.take((block_i * lanes) as int)),
        decreases n_blocks - block_i,
    {
        proof {
            assert((block_i + 1) * lanes <= n_blocks * lanes && block_i * lanes + lanes == (block_i
                + 1) * lanes) by (nonlinear_arith)
                requires
                    block_i < n_blocks,
                    lanes >= 1,
            ;
        }
        let offset = block_i * lanes;
        let mut j: usize = 0;
        while j < lanes
            invariant
                1 <= lanes,
                n == bytes@.len(),
                n <= i64::MAX,
                offset == block_i * lanes,
                offset + lanes <= n_fast <= n,
                all_markers(bytes@.take(n_fast as int)),
                j <= lanes,
                acc@.len() == lanes,
                since < FLUSH_PERIOD,
                forall|k: int| 0 <= k < j ==> acc@[k] <= since + 1,
                forall|k: int| j <= k < lanes ==> acc@[k] <= since,
                res >= 0,
                res + lane_total(acc@) == low_bit_sum(bytes@.take((offset + j) as int)),
            decreases lanes - j,
        {
            let b = bytes[offset + j];
            let cls = b.saturating_sub(CLASS_BASE);
            proof {
                assert(bytes@.take(n_fast as int)[(offset + j) as int] == bytes@[(offset
                    + j) as int]);
                assert(b == MARKER_A || b == MARKER_B);
                assert(b == 115 ==> b & 1 == 1) by (bit_vector);
                assert(b == 112 ==> b & 1 == 0) by (bit_vector);
                assert(cls == (b & 1));
                lemma_lane_total_update(acc@, j as int, (acc@[j as int] + cls) as u8);
                lemma_low_bit_sum_subrange_step(bytes@, 0, (offset + j) as int);
                assert(bytes@.take((offset + j) as int) == bytes@.subrange(
                    0,
                    (offset + j) as int,
                ));
                assert(bytes@.take((offset + j + 1) as int) == bytes@.subrange(
                    0,
                    (offset + j + 1) as int,
                ));
            }
            let cur = acc[j];
            acc[j] = cur + cls;
            j = j + 1;
        }
        since = since + 1;
        if since == FLUSH_PERIOD {
            proof {
                lemma_low_bit_sum_bounds(bytes@.take((offset + lanes) as int));
                lemma_lane_total_nonneg(acc@);
            }
            flush_lanes(&mut acc, &mut res);
            proof {
                lemma_lane_total_zero(acc@);
            }
            since = 0;
        }
        block_i = block_i + 1;
    }
    proof {
        lemma_low_bit_sum_bounds(bytes@.take((n_blocks * lanes) as int));
        lemma_lane_total_nonneg(acc@);
    }
    flush_lanes(&mut acc, &mut res);
    proof {
        lemma_low_bit_sum_bounds(bytes@.take(n_fast as int));
    }
    let r0 = res - ((n_fast as i64) - res);
    let tail = net_range(bytes, n_fast, n);
    proof {
        assert(bytes@.subrange(n_fast as int, n as int) == bytes@.skip(n_fast as int));
        lemma_net_count_bounds(bytes@.skip(n_fast as int));
        assert(blocked_len(n as int, lanes as int) == n_fast);
        lemma_lane_kernel_agrees(bytes@, lanes as int);
    }
    r0 + tail
}

/// Vector classification kernel: 16-lane blocks, low-bit classification,
/// narrow accumulators with the periodic widening flush, scalar tail. The
/// first clause gives its exact value on arbitrary input; when the
/// block-covered prefix holds markers only, that value is the net count of
/// the whole input.
pub fn opt4_simd(input: &str) -> (r: i64)
    requires
        input.spec_bytes().len() <= i64::MAX,
    ensures
        r == lane_kernel_value(input.spec_bytes(), N_LANES as int),
        all_markers(
            input.spec_bytes().take(
                blocked_len(input.spec_bytes().len() as int, N_LANES as int),
            ),
        ) ==> r == net_count(input.spec_bytes()),
{
    let bytes = input.as_bytes();
    lane_engine(bytes, N_LANES)
}

/// Unrolled vector kernel: `unroll` independent 16-lane accumulator blocks
/// are processed per outer iteration, one `unroll * 16`-byte super-block at
/// a time. The flush cadence per lane is unchanged. Same contract shape as
/// [`opt4_simd`], at the super-block width.
pub fn opt5_simd_unrolled(input: &str, unroll: usize) -> (r: i64)
    requires
        1 <= unroll,
        (N_LANES as int) * (unroll as int) <= usize::MAX,
        input.spec_bytes().len() <= i64::MAX,
    ensures
        r == lane_kernel_value(input.spec_bytes(), (N_LANES as int) * (unroll as int)),
        all_markers(
            input.spec_bytes().take(
                blocked_len(
                    input.spec_bytes().len() as int,
                    (N_LANES as int) * (unroll as int),
                ),
            ),
        ) ==> r == net_count(input.spec_bytes()),
{
    let bytes = input.as_bytes();
    let lanes = N_LANES * unroll;
    lane_engine(bytes, lanes)
}

} // verus!
