use rawgrep::fragments::{
    ascii_lowercase_avx2, ascii_lowercase_neon, ascii_lowercase_u32_le, check_fragment_presence,
    check_fragment_presence_avx2, check_fragment_presence_avx2_ci, check_fragment_presence_neon, check_fragment_presence_neon_ci,
    check_fragment_presence_scalar, check_fragment_presence_with, extract_pattern_fragments_with_len,
    fragment_mask_u32, hash_fragment, hash_fragment_u32, select_fragment_len, SimdSupport,
};

use nohash_hasher::IntSet;

// Builds the (hashes, index, fragment_len) triple for `pattern` and runs it through the
// dispatch function as on a machine with AVX2. For case-insensitive queries, lowercases
// `pattern` first, as the real caller does (the pattern side lowercases once up front;
// only the buffer side folds while scanning).
fn presence_bits(buf: &[u8], pattern: &[u8], case_insensitive: bool) -> (Vec<bool>, usize) {
    let fragment_len = select_fragment_len(&[pattern]).unwrap();
    let lowered;
    let pattern_for_extraction = if case_insensitive {
        lowered = pattern.to_ascii_lowercase();
        lowered.as_slice()
    } else {
        pattern
    };
    let hashes = extract_pattern_fragments_with_len(pattern_for_extraction, fragment_len);
    let index: IntSet<u32> = hashes.iter().copied().collect();
    let mut scratch = vec![0u64; hashes.len().div_ceil(64)];
    check_fragment_presence_with(
        SimdSupport::Avx2,
        buf,
        &hashes,
        &mut scratch,
        &index,
        fragment_len,
        case_insensitive,
    );
    let bits: Vec<bool> = (0..hashes.len()).map(|i| scratch[i / 64] & (1u64 << (i % 64)) != 0).collect();
    (bits, fragment_len)
}

#[test]
fn baseline_finds_literal_present_in_large_buffer_via_avx2() {
    let mut buf = vec![b'x'; 40];
    buf[10..16].copy_from_slice(b"needle");
    let (bits, _) = presence_bits(&buf, b"needle", false);
    assert!(bits.iter().all(|&b| b), "every fragment of a present literal should be found");
}

#[test]
fn baseline_correctly_reports_absent_in_large_buffer_via_avx2() {
    let buf = vec![b'x'; 40];
    let (bits, _) = presence_bits(&buf, b"needle", false);
    assert!(bits.iter().all(|&b| !b), "no fragment should be found in an unrelated buffer");
}

#[test]
fn baseline_finds_literal_present_in_small_buffer_via_scalar() {
    let buf = b"..needle..";
    let (bits, _) = presence_bits(buf, b"needle", false);
    assert!(bits.iter().all(|&b| b));
}

#[test]
fn baseline_case_sensitive_does_not_match_different_case() {
    let mut buf = vec![b'x'; 40];
    buf[10..16].copy_from_slice(b"NEEDLE");
    let (bits, _) = presence_bits(&buf, b"needle", false);
    assert!(bits.iter().all(|&b| !b));
}

#[test]
fn case_insensitive_finds_uppercase_via_scalar() {
    let buf = b"..NEEDLE..";
    let (bits, _) = presence_bits(buf, b"needle", true);
    assert!(bits.iter().all(|&b| b));
}

#[test]
fn case_insensitive_finds_mixed_case_via_scalar() {
    let buf = b"..NeEdLe..";
    let (bits, _) = presence_bits(buf, b"needle", true);
    assert!(bits.iter().all(|&b| b));
}

#[test]
fn case_insensitive_still_correctly_reports_absent() {
    let buf = b"totally unrelated text here";
    let (bits, _) = presence_bits(buf, b"needle", true);
    assert!(bits.iter().all(|&b| !b));
}

#[test]
fn case_insensitive_large_buffer_uses_simd_ci_kernel() {
    let mut buf = vec![b'x'; 40];
    buf[10..16].copy_from_slice(b"NEEDLE");
    let (bits, _) = presence_bits(&buf, b"needle", true);
    assert!(bits.iter().all(|&b| b));
}

#[test]
fn case_insensitive_large_buffer_absent_via_simd_ci_kernel() {
    let buf = vec![b'x'; 40];
    let (bits, _) = presence_bits(&buf, b"needle", true);
    assert!(bits.iter().all(|&b| !b));
}

#[test]
fn case_insensitive_mixed_case_large_buffer() {
    let mut buf = vec![b'-'; 50];
    buf[20..26].copy_from_slice(b"NeEdLe");
    let (bits, _) = presence_bits(&buf, b"needle", true);
    assert!(bits.iter().all(|&b| b));
}

// Bytes right outside 'A'..='Z' ('@', '[', and '`'/'{') through the whole scanner on a
// buffer large enough for the vector path: the case-swapped pattern is found, a
// near-miss on a boundary byte is not.
#[test]
fn case_insensitive_boundary_bytes_in_real_scan() {
    let pattern: &[u8] = b"A@Zx[a";
    let mut buf = vec![b'.'; 48];
    buf[15..15 + pattern.len()].copy_from_slice(b"a@zX[A");
    let (bits, _) = presence_bits(&buf, pattern, true);
    assert!(bits.iter().all(|&b| b), "case-swapped letters with untouched boundary bytes should match");

    let mut buf2 = vec![b'.'; 48];
    buf2[15..15 + pattern.len()].copy_from_slice(b"a`zX[A");
    let (bits2, _) = presence_bits(&buf2, pattern, true);
    assert!(!bits2.iter().all(|&b| b), "corrupting a boundary byte must not still read as a full match");
}

#[test]
fn avx2_ci_direct_invocation_finds_and_reports_absent() {
    let pattern = b"needle";
    let fragment_len = select_fragment_len(&[pattern.as_slice()]).unwrap();
    let hashes = extract_pattern_fragments_with_len(pattern, fragment_len);
    let mask = fragment_mask_u32(fragment_len);

    let mut present_buf = vec![b'x'; 40];
    present_buf[10..16].copy_from_slice(b"NeEdLE");
    let mut scratch = vec![0u64; hashes.len().div_ceil(64)];
    check_fragment_presence_avx2_ci(&present_buf, &hashes, &mut scratch, mask);
    assert!((0..hashes.len()).all(|i| scratch[i / 64] & (1u64 << (i % 64)) != 0));

    let absent_buf = vec![b'x'; 40];
    let mut scratch2 = vec![0u64; hashes.len().div_ceil(64)];
    check_fragment_presence_avx2_ci(&absent_buf, &hashes, &mut scratch2, mask);
    assert!((0..hashes.len()).all(|i| scratch2[i / 64] & (1u64 << (i % 64)) == 0));
}

#[test]
fn neon_ci_direct_invocation_finds_and_reports_absent() {
    let pattern = b"needle";
    let fragment_len = select_fragment_len(&[pattern.as_slice()]).unwrap();
    let hashes = extract_pattern_fragments_with_len(pattern, fragment_len);
    let mask = fragment_mask_u32(fragment_len);

    let mut present_buf = vec![b'x'; 24];
    present_buf[5..11].copy_from_slice(b"NeEdLE");
    let mut scratch = vec![0u64; (hashes.len() + 63) / 64];
    check_fragment_presence_neon_ci(&present_buf, &hashes, &mut scratch, mask);
    assert!((0..hashes.len()).all(|i| scratch[i / 64] & (1u64 << (i % 64)) != 0));

    let absent_buf = vec![b'x'; 24];
    let mut scratch2 = vec![0u64; (hashes.len() + 63) / 64];
    check_fragment_presence_neon_ci(&absent_buf, &hashes, &mut scratch2, mask);
    assert!((0..hashes.len()).all(|i| scratch2[i / 64] & (1u64 << (i % 64)) == 0));
}

#[test]
fn neon_case_sensitive_direct_invocation_matches_avx2_semantics() {
    let pattern = b"needle";
    let fragment_len = select_fragment_len(&[pattern.as_slice()]).unwrap();
    let hashes = extract_pattern_fragments_with_len(pattern, fragment_len);
    let mask = fragment_mask_u32(fragment_len);

    let mut exact_buf = vec![b'x'; 24];
    exact_buf[5..11].copy_from_slice(b"needle");
    let mut scratch = vec![0u64; (hashes.len() + 63) / 64];
    check_fragment_presence_neon(&exact_buf, &hashes, &mut scratch, mask);
    assert!((0..hashes.len()).all(|i| scratch[i / 64] & (1u64 << (i % 64)) != 0));

    let mut different_case_buf = vec![b'x'; 24];
    different_case_buf[5..11].copy_from_slice(b"NEEDLE");
    let mut scratch2 = vec![0u64; (hashes.len() + 63) / 64];
    check_fragment_presence_neon(&different_case_buf, &hashes, &mut scratch2, mask);
    assert!((0..hashes.len()).all(|i| scratch2[i / 64] & (1u64 << (i % 64)) == 0));
}

// 80 pairwise-distinct bytes that stay distinct after ASCII lowercasing, so every
// 4-byte window is distinct: 77 fragments, over the 64 of one scratch word.
fn long_distinct_pattern() -> Vec<u8> {
    let mut bytes: Vec<u8> = Vec::new();
    bytes.extend(b'A'..=b'Z');
    bytes.extend(b'0'..=b'9');
    bytes.extend(0x21u8..=0x2Fu8);
    bytes.extend(0x3Au8..=0x40u8);
    bytes.extend(0x5Bu8..=0x60u8);
    bytes.extend(0x7Bu8..=0x7Eu8);
    bytes.extend(0x80u8..=0x8Bu8);
    assert_eq!(bytes.len(), 80);

    let mut seen = std::collections::HashSet::new();
    assert!(bytes.iter().all(|b| seen.insert(*b)), "must be pairwise distinct");
    let mut seen_folded = std::collections::HashSet::new();
    assert!(
        bytes.iter().all(|b| seen_folded.insert(b.to_ascii_lowercase())),
        "must stay pairwise distinct after lowercasing"
    );
    bytes
}

#[test]
fn case_insensitive_many_fragments_found() {
    let pattern = long_distinct_pattern();
    let fragment_len = select_fragment_len(&[pattern.as_slice()]).unwrap();
    assert_eq!(fragment_len, 4);
    let lowered = pattern.to_ascii_lowercase();
    let hashes = extract_pattern_fragments_with_len(&lowered, fragment_len);
    assert!(hashes.len() > 64, "expected >64 fragments, got {}", hashes.len());
    let index: IntSet<u32> = hashes.iter().copied().collect();

    let mut buf = vec![b'.'; 200];
    let upper: Vec<u8> = pattern.iter().map(|b| b.to_ascii_uppercase()).collect();
    buf[50..50 + upper.len()].copy_from_slice(&upper);

    let mut scratch = vec![0u64; hashes.len().div_ceil(64)];
    check_fragment_presence_with(SimdSupport::Avx2, &buf, &hashes, &mut scratch, &index, fragment_len, true);
    let all_found = (0..hashes.len()).all(|i| scratch[i / 64] & (1u64 << (i % 64)) != 0);
    assert!(all_found, "every fragment of the embedded (case-swapped) pattern should be found");
}

#[test]
fn finds_literal_at_tail_not_covered_by_a_full_simd_batch() {
    let mut buf = vec![b'x'; 40];
    buf[34..40].copy_from_slice(b"NeEdLE");
    let (bits, _) = presence_bits(&buf, b"needle", true);
    assert!(bits.iter().all(|&b| b));
}

#[test]
fn case_insensitive_many_fragments_absent() {
    let pattern = long_distinct_pattern();
    let fragment_len = select_fragment_len(&[pattern.as_slice()]).unwrap();
    let lowered = pattern.to_ascii_lowercase();
    let hashes = extract_pattern_fragments_with_len(&lowered, fragment_len);
    assert!(hashes.len() > 64);
    let index: IntSet<u32> = hashes.iter().copied().collect();

    let buf = vec![b'.'; 200];
    let mut scratch = vec![0u64; hashes.len().div_ceil(64)];
    check_fragment_presence_with(SimdSupport::Avx2, &buf, &hashes, &mut scratch, &index, fragment_len, true);
    let none_found = (0..hashes.len()).all(|i| scratch[i / 64] & (1u64 << (i % 64)) == 0);
    assert!(none_found, "an unrelated buffer should report no fragments found");
}

// The scalar scan and the vector-shaped kernels must agree on every input.
#[test]
fn case_insensitive_scalar_and_dispatched_agree_on_random_inputs() {
    let mut rng = 0xD1B54A32D192ED03u64;
    let mut next = move || {
        rng ^= rng << 13;
        rng ^= rng >> 7;
        rng ^= rng << 17;
        rng
    };

    let alphabet: &[u8] = b"abcdefghijklmnopqrstuvwxyzABCDEFGHIJKLMNOPQRSTUVWXYZ0123456789 _-";

    for case in 0..2000u32 {
        let buf_len = 4 + (next() % 220) as usize;
        let pat_len = 3 + (next() % 6) as usize;

        let mut buf: Vec<u8> = (0..buf_len).map(|_| alphabet[(next() as usize) % alphabet.len()]).collect();
        let pattern: Vec<u8> = (0..pat_len).map(|_| alphabet[(next() as usize) % alphabet.len()]).collect();

        if case % 2 == 0 && buf.len() >= pattern.len() {
            let max_start = buf.len() - pattern.len();
            let pos = (next() as usize) % (max_start + 1);
            for (i, &b) in pattern.iter().enumerate() {
                buf[pos + i] = if next() % 2 == 0 { b.to_ascii_uppercase() } else { b.to_ascii_lowercase() };
            }
        }

        let fragment_len = match select_fragment_len(&[pattern.as_slice()]) {
            Some(l) => l,
            None => continue,
        };
        let lowered = pattern.to_ascii_lowercase();
        let hashes = extract_pattern_fragments_with_len(&lowered, fragment_len);
        if hashes.is_empty() {
            continue;
        }
        let index: IntSet<u32> = hashes.iter().copied().collect();
        let mask = fragment_mask_u32(fragment_len);

        for simd in [SimdSupport::Avx2, SimdSupport::Neon, SimdSupport::Portable] {
            let mut scratch_dispatched = vec![0u64; hashes.len().div_ceil(64)];
            let mut scratch_scalar = vec![0u64; hashes.len().div_ceil(64)];

            check_fragment_presence_with(simd, &buf, &hashes, &mut scratch_dispatched, &index, fragment_len, true);
            check_fragment_presence_scalar(&buf, &hashes, &mut scratch_scalar, &index, mask, true);

            assert_eq!(
                scratch_dispatched,
                scratch_scalar,
                "mismatch for buf={:?} pattern={:?}",
                String::from_utf8_lossy(&buf),
                String::from_utf8_lossy(&pattern),
            );
        }
    }
}

#[test]
fn ascii_lowercase_u32_le_matches_per_byte_reference_exhaustively_sampled() {
    fn reference(w: u32) -> u32 {
        u32::from_le_bytes(w.to_le_bytes().map(|b| b.to_ascii_lowercase()))
    }

    let adversarial: [u8; 6] = [0x00, 0xFF, 0x40, 0x5B, 0x60, 0x7B];
    for lane in 0..4 {
        for v in 0..=255u8 {
            for &other in &adversarial {
                let mut bytes = [other; 4];
                bytes[lane] = v;
                let w = u32::from_le_bytes(bytes);
                assert_eq!(ascii_lowercase_u32_le(w), reference(w));
            }
        }
    }

    let mut rng = 0x2545F4914F6CDD1Du64;
    for _ in 0..10_000_000u32 {
        rng ^= rng << 13;
        rng ^= rng >> 7;
        rng ^= rng << 17;
        let w = rng as u32;
        assert_eq!(ascii_lowercase_u32_le(w), reference(w));
    }
}

// All 256 values in each lane, the other lanes held at values right outside 'A'..='Z'
// (and 0x00/0xFF), for the 32-lane and the 16-lane block lowercasing.
#[test]
fn fragments_exhaustive_per_lane_with_boundary_neighbors() {
    let adversarial: [u8; 8] = [0x00, 0xFF, 0x40, 0x5B, 0x60, 0x7B, 0x41, 0x5A];

    for lane in 0..32 {
        for v in 0..=255u8 {
            for &other in &adversarial {
                let mut bytes = [other; 32];
                bytes[lane] = v;
                assert_eq!(ascii_lowercase_avx2(bytes), bytes.map(|b| b.to_ascii_lowercase()), "lane {lane} value {v:#04x}");
            }
        }
    }
    for lane in 0..16 {
        for v in 0..=255u8 {
            for &other in &adversarial {
                let mut bytes = [other; 16];
                bytes[lane] = v;
                assert_eq!(ascii_lowercase_neon(bytes), bytes.map(|b| b.to_ascii_lowercase()), "lane {lane} value {v:#04x}");
            }
        }
    }
}

#[test]
fn fragments_large_random_sample() {
    let mut rng = 0x9E3779B97F4A7C15u64;
    let mut next_byte = || {
        rng ^= rng << 13;
        rng ^= rng >> 7;
        rng ^= rng << 17;
        (rng & 0xFF) as u8
    };
    for _ in 0..2_000_000u32 {
        let bytes: [u8; 32] = std::array::from_fn(|_| next_byte());
        assert_eq!(ascii_lowercase_avx2(bytes), bytes.map(|b| b.to_ascii_lowercase()));
    }

    let mut rng = 0x2545F4914F6CDD1Du64;
    let mut next_byte = || {
        rng ^= rng << 13;
        rng ^= rng >> 7;
        rng ^= rng << 17;
        (rng & 0xFF) as u8
    };
    for _ in 0..2_000_000u32 {
        let bytes: [u8; 16] = std::array::from_fn(|_| next_byte());
        assert_eq!(ascii_lowercase_neon(bytes), bytes.map(|b| b.to_ascii_lowercase()));
    }
}

#[test]
fn short_pattern_gets_fragments_with_3_byte_fragment() {
    let fragment_len = select_fragment_len(&["foo".as_bytes()]).unwrap();
    assert_eq!(fragment_len, 3);

    let frags = extract_pattern_fragments_with_len("foo".as_bytes(), fragment_len);
    assert_eq!(frags.len(), 1, "a 3-byte pattern with a 3-byte fragment is exactly one fragment");
}

#[test]
fn em_dash_gets_fragments() {
    let em_dash = "\u{2014}".as_bytes();
    assert_eq!(em_dash.len(), 3);

    let fragment_len = select_fragment_len(&[em_dash]).unwrap();
    let frags = extract_pattern_fragments_with_len(em_dash, fragment_len);
    assert_eq!(frags.len(), 1);
}

#[test]
fn too_short_pattern_disables_fragment_cache() {
    assert_eq!(select_fragment_len(&["fo".as_bytes()]), None);
    assert_eq!(select_fragment_len(&["f".as_bytes()]), None);
}

#[test]
fn mixed_length_alternation_uses_shortest() {
    let patterns: [&[u8]; 2] = ["fo".as_bytes(), "hello".as_bytes()];
    assert_eq!(select_fragment_len(&patterns), None);

    let patterns: [&[u8]; 2] = ["foo".as_bytes(), "hello".as_bytes()];
    assert_eq!(select_fragment_len(&patterns), Some(3));
}

#[test]
fn masked_buffer_hash_matches_padded_pattern_hash() {
    let fragment_len = 3;
    let mask = fragment_mask_u32(fragment_len);

    let pattern_frag = {
        let mut frag = [0u8; 4];
        frag[..3].copy_from_slice(b"foo");
        hash_fragment(frag)
    };

    for tail_byte in 0..=255u8 {
        let buf_word = u32::from_le_bytes([b'f', b'o', b'o', tail_byte]);
        let buf_hash = hash_fragment_u32(buf_word & mask);
        assert_eq!(buf_hash, pattern_frag, "tail byte {tail_byte} should be masked out");
    }
}

// The portable entry point gives the same bits as the scalar scan.
#[test]
fn portable_dispatch_is_the_scalar_scan() {
    let mut buf = vec![b'x'; 100];
    buf[60..66].copy_from_slice(b"NeEdLe");
    let hashes = extract_pattern_fragments_with_len(b"needle", 4);
    let index: IntSet<u32> = hashes.iter().copied().collect();
    let mut a = vec![0u64; 1];
    let mut b = vec![0u64; 1];
    check_fragment_presence(&buf, &hashes, &mut a, &index, 4, true);
    check_fragment_presence_scalar(&buf, &hashes, &mut b, &index, fragment_mask_u32(4), true);
    assert_eq!(a, b);
    assert_eq!(a[0], (1u64 << hashes.len()) - 1);
}

#[test]
fn fragment_hash_is_a_bijection_on_samples() {
    let mut seen = std::collections::HashMap::new();
    let mut rng = 0x9E3779B97F4A7C15u64;
    for _ in 0..100_000u32 {
        rng ^= rng << 13;
        rng ^= rng >> 7;
        rng ^= rng << 17;
        let w = rng as u32;
        let h = hash_fragment_u32(w);
        if let Some(prev) = seen.insert(h, w) {
            assert_eq!(prev, w);
        }
    }
    assert_eq!(hash_fragment(*b"abcd"), hash_fragment_u32(u32::from_le_bytes(*b"abcd")));
}

#[test]
fn wide_kernel_with_repeated_hashes() {
    // 40 bytes with 8 lanes: blocks 0, 8, 16 and 24 are batches, windows 32..=36 the tail.
    let mut buf = vec![0u8; 40];
    buf[0..4].copy_from_slice(b"wxyz");
    buf[32..40].copy_from_slice(b"abcdabcd");
    let h = |s: &[u8]| extract_pattern_fragments_with_len(s, 4)[0];
    let mask = fragment_mask_u32(4);
    let (batch, tail2, tail1) = (h(b"wxyz"), h(b"abcd"), h(b"bcda"));
    let hashes = vec![batch, tail2, tail1, batch, tail2, tail1, tail2];
    let mut scratch = vec![0u64; 1];
    check_fragment_presence_avx2(&buf, &hashes, &mut scratch, mask);
    let bits: Vec<bool> = (0..hashes.len()).map(|j| scratch[0] >> j & 1 == 1).collect();
    // A batch sets every fragment holding its hash; each of the two tail windows showing
    // `abcd` sets one more, first to last; the one tail window showing `bcda` sets one.
    assert_eq!(bits, vec![true, true, true, true, true, false, false]);
}
