//! Directory-entry name checks, byte-order-mark detection and the binary-content
//! heuristic applied to the head of a file.
use vstd::prelude::*;
use crate::fragments::SimdSupport;

verus! {

/// The byte-order marks recognised at the start of a buffer.
#[derive(Clone, Copy, PartialEq, Eq, Debug)]
pub enum Encoding {
    Utf8,
    Utf16LE,
    Utf16BE,
    Utf32LE,
    Utf32BE,
}

/// How many rejected control bytes the probed head of a file may hold and still count
/// as text.
pub const BINARY_CONTROL_COUNT: usize = 32;

/// How many leading bytes of a file the binary heuristic looks at.
pub const BINARY_PROBE_LEN: usize = 512;

/// Is `name` the directory entry `.` or `..`?
pub fn is_dot_entry(name: &[u8]) -> (r: bool)
    ensures
        r == (name@ == seq![46u8] || name@ == seq![46u8, 46u8]),
{
    proof {
        assert(name@.len() == 1 && name@[0] == 46u8 ==> name@ =~= seq![46u8]);
        assert(name@.len() == 2 && name@[0] == 46u8 && name@[1] == 46u8 ==> name@ =~= seq![46u8, 46u8]);
    }
    name.len() == 1 && name[0] == 46u8 || name.len() == 2 && name[0] == 46u8 && name[1] == 46u8
}

/// Does the (non-empty) entry name start with a dot?
pub fn is_hidden_entry(name: &[u8]) -> (r: bool)
    requires
        name@.len() > 0,
    ensures
        r == (name@[0] == 46u8),
{
    name[0] == 46u8
}

pub open spec fn starts_with(data: Seq<u8>, prefix: Seq<u8>) -> bool {
    prefix.len() <= data.len() && data.subrange(0, prefix.len() as int) == prefix
}

/// The encoding declared by a byte-order mark at the start of `data`; the four-byte
/// UTF-32 marks are tried before the UTF-16 ones they begin with.
pub open spec fn bom_spec(data: Seq<u8>) -> Option<Encoding> {
    if starts_with(data, seq![0xFFu8, 0xFEu8, 0x00u8, 0x00u8]) {
        Some(Encoding::Utf32LE)
    } else if starts_with(data, seq![0x00u8, 0x00u8, 0xFEu8, 0xFFu8]) {
        Some(Encoding::Utf32BE)
    } else if starts_with(data, seq![0xEFu8, 0xBBu8, 0xBFu8]) {
        Some(Encoding::Utf8)
    } else if starts_with(data, seq![0xFFu8, 0xFEu8]) {
        Some(Encoding::Utf16LE)
    } else if starts_with(data, seq![0xFEu8, 0xFFu8]) {
        Some(Encoding::Utf16BE)
    } else {
        None
    }
}

/// The encoding that a byte-order mark at the start of `data` declares, if any.
pub fn detect_byte_order_leading_mark_len(data: &[u8]) -> (r: Option<Encoding>)
    ensures
        r == bom_spec(data@),
{
    let n = data.len();
    proof {
        if n >= 2 {
            assert(data@.subrange(0, 2) =~= seq![data@[0], data@[1]]);
        }
        if n >= 3 {
            assert(data@.subrange(0, 3) =~= seq![data@[0], data@[1], data@[2]]);
        }
        if n >= 4 {
            assert(data@.subrange(0, 4) =~= seq![data@[0], data@[1], data@[2], data@[3]]);
        }
    }
    if n >= 4 && data[0] == 0xFF && data[1] == 0xFE && data[2] == 0x00 && data[3] == 0x00 {
        return Some(Encoding::Utf32LE);
    }
    if n >= 4 && data[0] == 0x00 && data[1] == 0x00 && data[2] == 0xFE && data[3] == 0xFF {
        return Some(Encoding::Utf32BE);
    }
    if n >= 3 && data[0] == 0xEF && data[1] == 0xBB && data[2] == 0xBF {
        return Some(Encoding::Utf8);
    }
    if n >= 2 && data[0] == 0xFF && data[1] == 0xFE {
        return Some(Encoding::Utf16LE);
    }
    if n >= 2 && data[0] == 0xFE && data[1] == 0xFF {
        return Some(Encoding::Utf16BE);
    }
    None
}

/// A byte that text should not hold: an ASCII control byte other than tab, line feed
/// and carriage return, or DEL.
pub open spec fn is_rejected(b: u8) -> bool {
    (b < 0x20 && b != 0x09 && b != 0x0a && b != 0x0d) || b == 0x7f
}

/// The number of rejected bytes in `s`.
pub open spec fn rejected_count(s: Seq<u8>) -> nat
    decreases s.len(),
{
    if s.len() == 0 {
        0
    } else {
        rejected_count(s.drop_last()) + if is_rejected(s.last()) {
            1nat
        } else {
            0nat
        }
    }
}

/// The head of a file that the heuristic looks at.
pub open spec fn probe_window(data: Seq<u8>) -> Seq<u8> {
    if data.len() <= BINARY_PROBE_LEN {
        data
    } else {
        data.take(BINARY_PROBE_LEN as int)
    }
}

/// The probed head holds a NUL byte or more rejected bytes than text may hold.
pub open spec fn looks_binary(window: Seq<u8>) -> bool {
    window.contains(0u8) || rejected_count(window) > BINARY_CONTROL_COUNT
}

/// The verdict on a chunk: never for an empty one or one with a byte-order mark (UTF-16
/// and UTF-32 text holds NUL bytes), otherwise the heuristic on its head.
pub open spec fn is_binary_spec(data: Seq<u8>) -> bool {
    data.len() > 0 && bom_spec(data) is None && looks_binary(probe_window(data))
}

/// The sum of the lane counters.
pub open spec fn lane_total(lanes: Seq<u8>) -> int
    decreases lanes.len(),
{
    if lanes.len() == 0 {
        0
    } else {
        lane_total(lanes.drop_last()) + lanes.last()
    }
}

proof fn lemma_lane_total_update(lanes: Seq<u8>, j: int, v: u8)
    requires
        0 <= j < lanes.len(),
    ensures
        lane_total(lanes.update(j, v)) == lane_total(lanes) - lanes[j] + v,
    decreases lanes.len(),
{
    if j == lanes.len() - 1 {
        assert(lanes.update(j, v).drop_last() =~= lanes.drop_last());
    } else {
        lemma_lane_total_update(lanes.drop_last(), j, v);
        assert(lanes.update(j, v).drop_last() =~= lanes.drop_last().update(j, v));
    }
}

proof fn lemma_lane_total_push(lanes: Seq<u8>, v: u8)
    ensures
        lane_total(lanes.push(v)) == lane_total(lanes) + v,
{
    assert(lanes.push(v).drop_last() =~= lanes);
}

/// Taking one more byte of `s` adds that byte to the count and to the bytes held.
proof fn lemma_take_step(s: Seq<u8>, p: int)
    requires
        0 <= p < s.len(),
    ensures
        rejected_count(s.take(p + 1)) == rejected_count(s.take(p)) + if is_rejected(s[p]) {
            1nat
        } else {
            0nat
        },
        s.take(p + 1).contains(0u8) <==> (s.take(p).contains(0u8) || s[p] == 0u8),
{
    assert(s.take(p + 1).drop_last() =~= s.take(p));
    let h = s.take(p);
    if h.contains(0u8) {
        let k = choose|k: int| 0 <= k < h.len() && h[k] == 0u8;
        assert(s.take(p + 1)[k] == 0u8);
    }
    if s[p] == 0u8 {
        assert(s.take(p + 1)[p] == 0u8);
    }
    let t = s.take(p + 1);
    if t.contains(0u8) && s[p] != 0u8 {
        let k = choose|k: int| 0 <= k < t.len() && t[k] == 0u8;
        assert(s.take(p)[k] == 0u8);
    }
}

/// 1 for a rejected byte, 0 otherwise.
fn is_rejected_byte(b: u8) -> (r: u8)
    ensures
        r == if is_rejected(b) {
            1u8
        } else {
            0u8
        },
{
    if (b < 0x20 && b != 0x09 && b != 0x0a && b != 0x0d) || b == 0x7f {
        1
    } else {
        0
    }
}

/// The heuristic on the head of `data`, counted in `width` lanes: lane `j` counts the
/// rejected bytes and notes the NUL bytes at offsets `j` modulo `width`, the tail padded
/// with spaces; the lanes are summed at the end. With at least 16 lanes no lane counts
/// past 33, so a byte counter is enough.
fn control_scan(data: &[u8], width: usize) -> (r: bool)
    requires
        16 <= width <= 64,
    ensures
        r == looks_binary(probe_window(data@)),
{
    let check_len: usize = if data.len() < BINARY_PROBE_LEN {
        data.len()
    } else {
        BINARY_PROBE_LEN
    };
    let ghost window = data@.take(check_len as int);
    assert(window =~= probe_window(data@));
    let full = check_len / width;
    assert(full * width <= check_len && check_len - full * width < width && full <= 32) by (nonlinear_arith)
        requires
            full == check_len / width,
            16 <= width,
            check_len <= 512,
    ;
    let rem = check_len - full * width;
    let mut bad: Vec<u8> = Vec::new();
    let mut nul: Vec<bool> = Vec::new();
    let mut k: usize = 0;
    while k < width
        invariant
            k <= width,
            bad@.len() == k,
            nul@.len() == k,
            forall|i: int| 0 <= i < k ==> bad@[i] == 0u8,
            forall|i: int| 0 <= i < k ==> !nul@[i],
            lane_total(bad@) == 0,
        decreases width - k,
    {
        proof {
            lemma_lane_total_push(bad@, 0u8);
        }
        bad.push(0);
        nul.push(false);
        k = k + 1;
    }
    assert(window.take(0) =~= Seq::<u8>::empty());
    let mut c: usize = 0;
    while c < full
        invariant
            16 <= width <= 64,
            check_len <= data@.len(),
            window == data@.take(check_len as int),
            full * width <= check_len,
            full <= 32,
            c <= full,
            bad@.len() == width,
            nul@.len() == width,
            forall|i: int| 0 <= i < width ==> bad@[i] <= c,
            lane_total(bad@) == rejected_count(window.take(c * width)),
            (exists|i: int| 0 <= i < width && nul@[i]) <==> window.take(c * width).contains(0u8),
        decreases full - c,
    {
        assert(c * width + width <= full * width) by (nonlinear_arith)
            requires
                c < full,
        ;
        let base = c * width;
        let mut j: usize = 0;
        while j < width
            invariant
                16 <= width <= 64,
                check_len <= data@.len(),
                window == data@.take(check_len as int),
                base + width <= check_len,
                c < full <= 32,
                j <= width,
                bad@.len() == width,
                nul@.len() == width,
                forall|i: int| 0 <= i < width ==> bad@[i] <= c + if i < j {
                    1int
                } else {
                    0int
                },
                lane_total(bad@) == rejected_count(window.take(base + j)),
                (exists|i: int| 0 <= i < width && nul@[i]) <==> window.take(base + j).contains(0u8),
            decreases width - j,
        {
            let b = data[base + j];
            assert(window[base + j] == b);
            let add = is_rejected_byte(b);
            proof {
                lemma_take_step(window, base + j);
                lemma_lane_total_update(bad@, j as int, (bad@[j as int] + add) as u8);
            }
            let lane = bad[j] + add;
            bad.set(j, lane);
            if b == 0 {
                nul.set(j, true);
                assert(nul@[j as int]);
            }
            j = j + 1;
        }
        assert((c + 1) * width == base + width) by (nonlinear_arith)
            requires
                base == c * width,
        ;
        c = c + 1;
    }
    let base = full * width;
    if rem != 0 {
        let mut j: usize = 0;
        while j < width
            invariant
                16 <= width <= 64,
                check_len <= data@.len(),
                window == data@.take(check_len as int),
                base + rem == check_len,
                rem < width,
                full <= 32,
                j <= width,
                bad@.len() == width,
                nul@.len() == width,
                forall|i: int| 0 <= i < width ==> bad@[i] <= full + if i < j {
                    1int
                } else {
                    0int
                },
                lane_total(bad@) == rejected_count(window.take(base + if j < rem {
                    j as int
                } else {
                    rem as int
                })),
                (exists|i: int| 0 <= i < width && nul@[i]) <==> window.take(base + if j < rem {
                    j as int
                } else {
                    rem as int
                }).contains(0u8),
            decreases width - j,
        {
            if j < rem {
                let b = data[base + j];
                assert(window[base + j] == b);
                let add = is_rejected_byte(b);
                proof {
                    lemma_take_step(window, base + j);
                    lemma_lane_total_update(bad@, j as int, (bad@[j as int] + add) as u8);
                }
                let lane = bad[j] + add;
                bad.set(j, lane);
                if b == 0 {
                    nul.set(j, true);
                    assert(nul@[j as int]);
                }
            } else {
                let add = is_rejected_byte(0x20);
                proof {
                    lemma_lane_total_update(bad@, j as int, (bad@[j as int] + add) as u8);
                }
                let lane = bad[j] + add;
                bad.set(j, lane);
            }
            j = j + 1;
        }
    }
    assert(window.take(check_len as int) =~= window);
    let mut any_nul = false;
    let mut control_count: usize = 0;
    let mut j: usize = 0;
    while j < width
        invariant
            16 <= width <= 64,
            full <= 32,
            j <= width,
            bad@.len() == width,
            nul@.len() == width,
            forall|i: int| 0 <= i < width ==> bad@[i] <= full + 1,
            control_count == lane_total(bad@.take(j as int)),
            control_count <= 33 * j,
            any_nul <==> exists|i: int| 0 <= i < j && nul@[i],
        decreases width - j,
    {
        assert(bad@.take(j + 1).drop_last() =~= bad@.take(j as int));
        any_nul = any_nul || nul[j];
        control_count = control_count + bad[j] as usize;
        j = j + 1;
    }
    assert(bad@.take(width as int) =~= bad@);
    any_nul || control_count > BINARY_CONTROL_COUNT
}

/// The heuristic on the head of `data`, portable version: sixteen lanes.
fn is_binary_chunk_(data: &[u8]) -> (r: bool)
    ensures
        r == looks_binary(probe_window(data@)),
{
    control_scan(data, 16)
}

/// The heuristic on the head of `data` in the shape of the AVX2 kernel: thirty-two
/// lanes, one per byte of a 256-bit register.
pub fn is_binary_chunk_avx2(data: &[u8]) -> (r: bool)
    ensures
        r == looks_binary(probe_window(data@)),
{
    control_scan(data, 32)
}

/// `memchr::memchr`: the index of the first occurrence of `needle` in `haystack`, or
/// `None` when it does not occur.
#[verifier::external_body]
fn memchr_first(needle: u8, haystack: &[u8]) -> (r: Option<usize>)
    ensures
        match r {
            Some(i) => i < haystack@.len() && haystack@[i as int] == needle && forall|k: int|
                0 <= k < i ==> haystack@[k] != needle,
            None => !haystack@.contains(needle),
        },
{
    memchr::memchr(needle, haystack)
}

/// Does this chunk (the start of a file) look binary? The kernel is chosen by what the
/// machine supports; they all give the same verdict.
pub fn is_binary_chunk_with(simd: SimdSupport, data: &[u8]) -> (r: bool)
    ensures
        r == is_binary_spec(data@),
{
    if data.len() == 0 {
        return false;
    }
    if detect_byte_order_leading_mark_len(data).is_some() {
        return false;
    }
    let check_len: usize = if data.len() < BINARY_PROBE_LEN {
        data.len()
    } else {
        BINARY_PROBE_LEN
    };
    let (probe, _) = data.split_at(check_len);
    assert(probe@ =~= probe_window(data@));
    match memchr_first(0, probe) {
        Some(i) => {
            assert(probe@[i as int] == 0u8);
            return true;
        },
        None => {},
    }
    match simd {
        SimdSupport::Avx2 => is_binary_chunk_avx2(data),
        _ => is_binary_chunk_(data),
    }
}

/// Does this chunk (the start of a file) look binary? No chunk with a byte-order mark
/// does; otherwise one whose first `BINARY_PROBE_LEN` bytes hold a NUL byte or more
/// than `BINARY_CONTROL_COUNT` rejected control bytes does. Portable kernel.
pub fn is_binary_chunk(data: &[u8]) -> (r: bool)
    ensures
        r == is_binary_spec(data@),
{
    is_binary_chunk_with(SimdSupport::Portable, data)
}

/// A plain-text byte: printable ASCII, tab, line feed or carriage return.
pub open spec fn is_plain_text_byte(b: u8) -> bool {
    (0x20 <= b && b <= 0x7e) || b == 0x09 || b == 0x0a || b == 0x0d
}

proof fn lemma_plain_text_count(s: Seq<u8>)
    requires
        forall|i: int| 0 <= i < s.len() ==> is_plain_text_byte(#[trigger] s[i]),
    ensures
        rejected_count(s) == 0,
        !s.contains(0u8),
    decreases s.len(),
{
    if s.len() > 0 {
        lemma_plain_text_count(s.drop_last());
        assert(is_plain_text_byte(s[s.len() - 1]));
    }
}

/// Plain text is never binary: a chunk all of whose bytes are printable ASCII, tab,
/// line feed or carriage return (so text with Unix or Windows line endings) is not
/// classified binary, whatever its length.
pub proof fn lemma_plain_text_is_not_binary(data: Seq<u8>)
    requires
        forall|i: int| 0 <= i < data.len() ==> is_plain_text_byte(#[trigger] data[i]),
    ensures
        !is_binary_spec(data),
{
    let w = probe_window(data);
    assert forall|i: int| 0 <= i < w.len() implies is_plain_text_byte(#[trigger] w[i]) by {
        assert(w[i] == data[i]);
    }
    lemma_plain_text_count(w);
}

/// Control bytes other than tab, line feed and carriage return (and DEL) make a chunk
/// binary once there are more of them in its head than text may hold: a chunk without
/// a byte-order mark whose probed head holds more than `BINARY_CONTROL_COUNT` bytes in
/// 0x01..=0x08, 0x0B, 0x0C, 0x0E..=0x1F or 0x7F is binary.
pub proof fn lemma_many_controls_is_binary(data: Seq<u8>)
    requires
        bom_spec(data) is None,
        count_controls(probe_window(data)) > BINARY_CONTROL_COUNT,
    ensures
        is_binary_spec(data),
{
    lemma_count_controls(probe_window(data));
}

/// The number of bytes in 0x01..=0x08, 0x0B, 0x0C, 0x0E..=0x1F or 0x7F.
pub open spec fn count_controls(s: Seq<u8>) -> nat
    decreases s.len(),
{
    if s.len() == 0 {
        0
    } else {
        count_controls(s.drop_last()) + if (1 <= s.last() <= 8) || s.last() == 0x0b || s.last() == 0x0c
            || (0x0e <= s.last() <= 0x1f) || s.last() == 0x7f {
            1nat
        } else {
            0nat
        }
    }
}

proof fn lemma_count_controls(s: Seq<u8>)
    ensures
        count_controls(s) <= rejected_count(s),
        count_controls(s) <= s.len(),
    decreases s.len(),
{
    if s.len() > 0 {
        lemma_count_controls(s.drop_last());
    }
}

} // verus!
