//! Chunked kernels: the portable software-pipelined alternative to explicit
//! vector blocks.
//!
//! The input is cut into chunks short enough that an 8-bit tally of low bits
//! cannot overflow inside one chunk; each chunk is summed narrowly and
//! widened once into the 64-bit total. The `2 * n_A - n` identity then turns
//! the marker-A tally into the net count, exact whenever every byte is one
//! of the two markers.

use vstd::prelude::*;
use vstd::string::StringSliceAdditionalSpecFns;
use crate::model::{all_markers, low_bit_sum, net_count};
use crate::model::{
    lemma_all_markers_identity, lemma_low_bit_counts_marker_a, lemma_low_bit_sum_bounds,
    lemma_low_bit_sum_concat, lemma_low_bit_sum_subrange_step,
};

verus! {

/// Bytes per chunk. A chunk byte adds at most one to the 8-bit tally, so any
/// value up to 255 is safe; 192 leaves margin below that capacity.
pub const CHUNK: usize = 192;

/// Low-bit tally of `bytes[from..to]` in a narrow 8-bit accumulator; the
/// range must be short enough that the tally cannot wrap.
fn chunk_tally(bytes: &[u8], from: usize, to: usize) -> (acc: u8)
    requires
        from <= to <= bytes@.len(),
        to - from <= 255,
    ensures
        acc == low_bit_sum(bytes@.subrange(from as int, to as int)),
{
    let mut acc: u8 = 0;
    let mut j: usize = from;
    while j < to
        invariant
            from <= j <= to <= bytes@.len(),
            to - from <= 255,
            acc == low_bit_sum(bytes@.subrange(from as int, j as int)),
            acc <= j - from,
        decreases to - j,
    {
        proof {
            lemma_low_bit_sum_subrange_step(bytes@, from as int, j as int);
            lemma_low_bit_sum_bounds(bytes@.subrange(from as int, j as int + 1));
            let b = bytes@[j as int];
            assert(b & 1 <= 1) by (bit_vector);
        }
        acc = acc + (bytes[j] & 1);
        j = j + 1;
    }
    acc
}

/// Chunked kernel: every chunk, the trailing partial one included, is
/// tallied narrowly and widened once; then the `2 * n_A - n` identity. The
/// first clause gives its value on arbitrary input; it is the net count
/// exactly on marker-only input.
pub fn opt6_chunk_count(input: &str) -> (r: i64)
    requires
        input.spec_bytes().len() <= i64::MAX,
    ensures
        r == 2 * low_bit_sum(input.spec_bytes()) - input.spec_bytes().len(),
        all_markers(input.spec_bytes()) ==> r == net_count(input.spec_bytes()),
{
    let bytes = input.as_bytes();
    let n = bytes.len();
    let mut n_s: i64 = 0;
    let mut start: usize = 0;
    proof {
        assert(bytes@.take(0) =~= Seq::<u8>::empty());
    }
    while start < n
        invariant
            start <= n == bytes@.len(),
            n <= i64::MAX,
            n_s >= 0,
            n_s == low_bit_sum(bytes@.take(start as int)),
        decreases n - start,
    {
        let end = if n - start > CHUNK {
            start + CHUNK
        } else {
            n
        };
        let acc = chunk_tally(bytes, start, end);
        proof {
            assert(bytes@.take(end as int) =~= bytes@.take(start as int) + bytes@.subrange(
                start as int,
                end as int,
            ));
            lemma_low_bit_sum_concat(
                bytes@.take(start as int),
                bytes@.subrange(start as int, end as int),
            );
            lemma_low_bit_sum_bounds(bytes@.take(end as int));
            lemma_low_bit_sum_bounds(bytes@.subrange(start as int, end as int));
        }
        n_s = n_s + (acc as i64);
        start = end;
    }
    proof {
        assert(bytes@.take(n as int) =~= bytes@);
        lemma_low_bit_sum_bounds(bytes@);
        if all_markers(bytes@) {
            lemma_all_markers_identity(bytes@);
            lemma_low_bit_counts_marker_a(bytes@);
        }
    }
    n_s - ((n as i64) - n_s)
}

/// Chunked kernel over exact chunks: full chunks are tallied by index, the
/// remainder shorter than one chunk is tallied the same narrow way rather
/// than through the scalar engine. Same contract as [`opt6_chunk_count`].
pub fn opt6_chunk_exact_count(input: &str) -> (r: i64)
    requires
        input.spec_bytes().len() <= i64::MAX,
    ensures
        r == 2 * low_bit_sum(input.spec_bytes()) - input.spec_bytes().len(),
        all_markers(input.spec_bytes()) ==> r == net_count(input.spec_bytes()),
{
    let bytes = input.as_bytes();
    let n = bytes.len();
    let n_chunks = n / CHUNK;
    proof {
        assert((n as int / CHUNK as int) * (CHUNK as int) <= n as int && n as int - (n as int
            / CHUNK as int) * (CHUNK as int) < CHUNK as int) by (nonlinear_arith)
            requires
                n as int >= 0,
        ;
    }
    let n_full = n_chunks * CHUNK;
    let mut n_s: i64 = 0;
    let mut c: usize = 0;
    proof {
        assert(bytes@.take(0) =~= Seq::<u8>::empty());
    }
    while c < n_chunks
        invariant
            n == bytes@.len(),
            n <= i64::MAX,
            n_full == n_chunks * CHUNK,
            n_full <= n,
            c <= n_chunks,
            n_s >= 0,
            n_s == low_bit_sum(bytes@.take((c * CHUNK) as int)),
        decreases n_chunks - c,
    {
        proof {
            assert((c + 1) * CHUNK <= n_chunks * CHUNK && c * CHUNK + CHUNK == (c + 1)
                * CHUNK) by (nonlinear_arith)
                requires
                    c < n_chunks,
            ;
        }
        let start = c * CHUNK;
        let acc = chunk_tally(bytes, start, start + CHUNK);
        proof {
            assert(bytes@.take((start + CHUNK) as int) =~= bytes@.take(start as int)
                + bytes@.subrange(start as int, (start + CHUNK) as int));
            lemma_low_bit_sum_concat(
                bytes@.take(start as int),
                bytes@.subrange(start as int, (start + CHUNK) as int),
            );
            lemma_low_bit_sum_bounds(bytes@.take((start + CHUNK) as int));
            lemma_low_bit_sum_bounds(bytes@.subrange(start as int, (start + CHUNK) as int));
        }
        n_s = n_s + (acc as i64);
        c = c + 1;
    }
    let rest = chunk_tally(bytes, n_full, n);
    proof {
        assert(bytes@.take(n as int) =~= bytes@.take(n_full as int) + bytes@.subrange(
            n_full as int,
            n as int,
        ));
        lemma_low_bit_sum_concat(
            bytes@.take(n_full as int),
            bytes@.subrange(n_full as int, n as int),
        );
        lemma_low_bit_sum_bounds(bytes@.subrange(n_full as int, n as int));
        assert(bytes@.take(n as int) =~= bytes@);
        lemma_low_bit_sum_bounds(bytes@);
        if all_markers(bytes@) {
            lemma_all_markers_identity(bytes@);
            lemma_low_bit_counts_marker_a(bytes@);
        }
    }
    n_s = n_s + (rest as i64);
    n_s - ((n as i64) - n_s)
}

} // verus!
