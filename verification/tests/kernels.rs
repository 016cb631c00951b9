use sp_count::baseline;
use sp_count::baseline_bytes;
use sp_count::baseline_unicode;
use sp_count::gen_random_input;
use sp_count::opt1_idiomatic;
use sp_count::opt2_count_s;
use sp_count::opt3_count_s_branchless;
use sp_count::opt3_simd_naive;
use sp_count::opt4_simd;
use sp_count::opt5_simd_unrolled;
use sp_count::opt6_chunk_count;
use sp_count::opt6_chunk_exact_count;

/// Runs every kernel on a marker-only input and checks the expected value.
fn check_all(expected: i64, input: &str) {
    assert_eq!(expected, baseline_unicode(input));
    assert_eq!(expected, baseline(input));
    assert_eq!(expected, baseline_bytes(input));
    assert_eq!(expected, opt1_idiomatic(input));
    assert_eq!(expected, opt2_count_s(input));
    assert_eq!(expected, opt3_count_s_branchless(input));
    assert_eq!(expected, opt3_simd_naive(input));
    assert_eq!(expected, opt4_simd(input));
    assert_eq!(expected, opt5_simd_unrolled(input, 2));
    assert_eq!(expected, opt5_simd_unrolled(input, 4));
    assert_eq!(expected, opt5_simd_unrolled(input, 8));
    assert_eq!(expected, opt5_simd_unrolled(input, 10));
    assert_eq!(expected, opt5_simd_unrolled(input, 12));
    assert_eq!(expected, opt5_simd_unrolled(input, 16));
    assert_eq!(expected, opt6_chunk_count(input));
    assert_eq!(expected, opt6_chunk_exact_count(input));
}

#[test]
fn test_simple() {
    check_all(3, "spssssp");
    check_all(100, &(0..100).into_iter().map(|_| 's').collect::<String>());
    check_all(-100, &(0..100).into_iter().map(|_| 'p').collect::<String>());
}

#[test]
fn test_large() {
    let input = gen_random_input(421337);
    let expected = baseline_unicode(&input);
    check_all(expected, &input);
}

#[test]
fn test_all_s() {
    let expected = 1024 * 1024;
    let input = "s".repeat(expected);
    check_all(expected as i64, &input);
}

#[test]
fn test_correctness() {
    let input = "spssssp";
    let expected = 3;
    assert_eq!(expected, baseline(input));
    assert_eq!(expected, baseline_bytes(input));
    assert_eq!(expected, opt1_idiomatic(input));
    assert_eq!(expected, opt2_count_s(input));
    assert_eq!(expected, opt3_simd_naive(input));
}

#[test]
fn test_correctness_large() {
    let input = gen_random_input(421337);
    let expected = baseline(&input);
    assert_eq!(expected, baseline(&input));
    assert_eq!(expected, baseline_bytes(&input));
    assert_eq!(expected, opt1_idiomatic(&input));
    assert_eq!(expected, opt2_count_s(&input));
    assert_eq!(expected, opt3_simd_naive(&input));
}

#[test]
fn test_all_p() {
    let expected: i64 = -(1 << 20);
    let input = "p".repeat(1 << 20);
    check_all(expected, &input);
}

#[test]
fn test_boundary_lengths() {
    // around one vector block (16), one super-block of each unroll factor,
    // one chunk (192), and across the flush threshold (255 and 256 blocks)
    let lengths = [
        0usize, 1, 15, 16, 17, 31, 32, 33, 63, 64, 65, 127, 128, 129, 159, 160, 161, 191, 192,
        193, 255, 256, 257, 383, 384, 385, 4079, 4080, 4081, 4095, 4096, 4097, 4112,
    ];
    for &n in lengths.iter() {
        let input = gen_random_input(n);
        let expected = baseline(&input);
        check_all(expected, &input);
    }
}

#[test]
fn test_purity() {
    let input = gen_random_input(1000);
    let copy = input.clone();
    assert_eq!(baseline(&input), baseline(&input));
    assert_eq!(opt4_simd(&input), opt4_simd(&input));
    assert_eq!(opt6_chunk_exact_count(&input), opt6_chunk_exact_count(&input));
    assert_eq!(input, copy);
}

#[test]
fn test_mixed_alphabet_scalar_kernels() {
    // two 's', two 'p', two other bytes: net 0
    let input = "sapxps";
    assert_eq!(0, baseline(input));
    assert_eq!(0, baseline_unicode(input));
    assert_eq!(0, baseline_bytes(input));
    assert_eq!(0, opt1_idiomatic(input));
    // shorter than one block, so the whole input is the scalar tail
    assert_eq!(0, opt4_simd(input));
}

#[test]
fn test_mixed_alphabet_unicode_text() {
    // non-ASCII characters: a byte-level scan agrees with a character-level
    // scan because multi-byte encodings never contain an ASCII marker byte
    let mut text = String::new();
    text.push('s');
    text.push('\u{00df}');
    text.push('p');
    text.push('\u{2211}');
    text.push('s');
    assert_eq!(1, baseline(&text));
    assert_eq!(1, baseline_unicode(&text));
    assert_eq!(1, baseline_bytes(&text));
    assert_eq!(1, opt1_idiomatic(&text));
}

#[test]
fn test_mixed_alphabet_fast_path() {
    // 'a' is odd, so once the input fills a whole block the low-bit fast
    // path counts it like marker A while the scalar oracle does not
    let input = "a".repeat(16);
    assert_eq!(0, baseline(&input));
    assert_eq!(16, opt4_simd(&input));
    assert_ne!(baseline(&input), opt4_simd(&input));
    // the identity kernels apply their formula to every byte
    assert_eq!(16, opt3_count_s_branchless(&input));
    assert_eq!(16, opt6_chunk_count(&input));
    assert_eq!(16, opt6_chunk_exact_count(&input));
    assert_eq!(-16, opt2_count_s(&input));
    // one byte short of a block, the same bytes go through the scalar tail
    let short = "a".repeat(15);
    assert_eq!(0, opt4_simd(&short));
    assert_eq!(0, opt5_simd_unrolled(&short, 2));
}

#[test]
fn test_generator_length_and_alphabet() {
    let s = gen_random_input(500);
    assert_eq!(500, s.len());
    assert!(s.bytes().all(|b| b == b's' || b == b'p'));
    assert_eq!(0, gen_random_input(0).len());
}
