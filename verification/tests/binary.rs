use rawgrep::binary::{
    detect_byte_order_leading_mark_len, is_binary_chunk, is_binary_chunk_avx2, is_binary_chunk_with, is_dot_entry,
    is_hidden_entry, Encoding, BINARY_CONTROL_COUNT, BINARY_PROBE_LEN,
};
use rawgrep::fragments::SimdSupport;

#[test]
fn dot_entries() {
    assert!(is_dot_entry(b"."));
    assert!(is_dot_entry(b".."));
    assert!(!is_dot_entry(b"..."));
    assert!(!is_dot_entry(b".git"));
    assert!(!is_dot_entry(b""));
    assert!(is_hidden_entry(b".git"));
    assert!(!is_hidden_entry(b"src"));
}

#[test]
fn byte_order_marks() {
    assert_eq!(detect_byte_order_leading_mark_len(&[0xFF, 0xFE, 0x00, 0x00, 0x41]), Some(Encoding::Utf32LE));
    assert_eq!(detect_byte_order_leading_mark_len(&[0x00, 0x00, 0xFE, 0xFF]), Some(Encoding::Utf32BE));
    assert_eq!(detect_byte_order_leading_mark_len(&[0xEF, 0xBB, 0xBF, b'a']), Some(Encoding::Utf8));
    assert_eq!(detect_byte_order_leading_mark_len(&[0xFF, 0xFE, 0x41, 0x00]), Some(Encoding::Utf16LE));
    assert_eq!(detect_byte_order_leading_mark_len(&[0xFE, 0xFF]), Some(Encoding::Utf16BE));
    assert_eq!(detect_byte_order_leading_mark_len(&[0xFE]), None);
    assert_eq!(detect_byte_order_leading_mark_len(b"plain"), None);
}

#[test]
fn text_is_not_binary() {
    assert!(!is_binary_chunk(b""));
    assert!(!is_binary_chunk(b"hello, world\n\tindented\r\n"));
}

#[test]
fn nul_byte_means_binary() {
    assert!(is_binary_chunk(b"abc\0def"));
}

#[test]
fn byte_order_mark_overrides_nul_bytes() {
    let utf16: Vec<u8> = [0xFF, 0xFE].iter().copied().chain("text".bytes().flat_map(|b| [b, 0])).collect();
    assert!(!is_binary_chunk(&utf16));
}

#[test]
fn control_byte_threshold() {
    let mut at_limit = vec![b'a'; 100];
    at_limit.extend(std::iter::repeat(0x01u8).take(BINARY_CONTROL_COUNT));
    assert!(!is_binary_chunk(&at_limit));
    at_limit.push(0x7F);
    assert!(is_binary_chunk(&at_limit));
}

#[test]
fn only_the_probed_head_counts() {
    let mut data = vec![b'a'; BINARY_PROBE_LEN];
    data.extend(std::iter::repeat(0x01u8).take(100));
    data.push(0);
    assert!(!is_binary_chunk(&data));
}

#[test]
fn kernels_agree_on_random_chunks() {
    let mut rng = 0x9E3779B97F4A7C15u64;
    let mut next = move || {
        rng ^= rng << 13;
        rng ^= rng >> 7;
        rng ^= rng << 17;
        rng
    };
    for _ in 0..2000 {
        let len = (next() % 700) as usize;
        let data: Vec<u8> = (0..len)
            .map(|_| {
                let r = next();
                if r % 16 == 0 { (r >> 8) as u8 % 0x20 } else { b'a' + (r >> 8) as u8 % 26 }
            })
            .collect();
        let portable = is_binary_chunk(&data);
        assert_eq!(is_binary_chunk_with(SimdSupport::Avx2, &data), portable);
        assert_eq!(is_binary_chunk_with(SimdSupport::Neon, &data), portable);
        if len > 0 && detect_byte_order_leading_mark_len(&data).is_none() {
            assert_eq!(is_binary_chunk_avx2(&data), portable);
        }
    }
}
