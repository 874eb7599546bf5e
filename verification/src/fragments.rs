//! Fragment extraction and presence checking for the fragment cache.
//!
//! A fragment is a small (3- or 4-byte) sliding window of a pattern. Each window is
//! zero-padded to four bytes, read as a little-endian word and multiplied by an odd
//! constant; a buffer is then scanned for the same hashes, computed from masked
//! four-byte loads.
use vstd::prelude::*;
use nohash_hasher::IntSet;
use vstd::set_lib::{lemma_int_range, lemma_len_subset, lemma_subset_equality, set_int_range};

verus! {

/// The default-hasher builder of std, here holding `nohash_hasher`'s pass-through hasher.
#[verifier::external_type_specification]
#[verifier::external_body]
#[verifier::reject_recursive_types(H)]
pub struct ExBuildHasherDefault<H>(std::hash::BuildHasherDefault<H>);

/// `nohash_hasher`'s hasher, which hashes an integer key to itself.
#[verifier::external_type_specification]
#[verifier::external_body]
#[verifier::reject_recursive_types(T)]
pub struct ExNoHashHasher<T>(nohash_hasher::NoHashHasher<T>);

/// `HashSet::insert` on a set of `u32` hashed by `nohash_hasher`: the key joins the
/// set, and the result tells whether it was absent before. (The pass-through hasher
/// is deterministic, so the set behaves as a set of its keys.)
#[verifier::external_body]
pub(crate) fn fragment_set_insert(set: &mut IntSet<u32>, key: u32) -> (inserted: bool)
    ensures
        final(set)@ == old(set)@.insert(key),
        inserted == !old(set)@.contains(key),
{
    set.insert(key)
}

/// `Vec::from_iter` over a `HashSet` of `u32` hashed by `nohash_hasher`: each key of
/// the set, once. The order is the set's own iteration order, which is not stated.
#[verifier::external_body]
pub(crate) fn fragment_set_into_vec(set: IntSet<u32>) -> (r: Vec<u32>)
    ensures
        r@.to_set() == set@,
        r@.no_duplicates(),
{
    Vec::from_iter(set)
}

/// `HashSet::contains` on a set of `u32` hashed by `nohash_hasher`: membership of
/// the key.
#[verifier::external_body]
fn fragment_set_contains(set: &IntSet<u32>, key: u32) -> (r: bool)
    ensures
        r == set@.contains(key),
{
    set.contains(&key)
}

/// The length of a fragment window.
#[derive(Clone, Copy)]
pub enum FragmentLen {
    Three,
    Four,
}

impl FragmentLen {
    pub open spec fn spec_len(self) -> usize {
        match self {
            FragmentLen::Three => 3,
            FragmentLen::Four => 4,
        }
    }

    /// Only 3 and 4 are fragment lengths.
    pub fn from_fragment_len(fragment_len: usize) -> (r: Self)
        requires
            fragment_len == 3 || fragment_len == 4,
        ensures
            r.spec_len() == fragment_len,
    {
        match fragment_len {
            3 => FragmentLen::Three,
            _ => FragmentLen::Four,
        }
    }

    pub fn as_usize(self) -> (r: usize)
        ensures
            r == self.spec_len(),
    {
        match self {
            FragmentLen::Three => 3,
            FragmentLen::Four => 4,
        }
    }
}

/// Shortest pattern length for which the fragment cache is used at all.
pub const MIN_FRAGMENT_LEN: usize = 3;

pub const FRAGMENT_HASH_MULTIPLIER: u32 = 0x9e3779b9;

/// The multiplicative inverse of `FRAGMENT_HASH_MULTIPLIER` modulo 2^32.
pub const FRAGMENT_HASH_INVERSE: u32 = 0x144cbc89;

/// Multiplication by the odd multiplier, modulo 2^32.
pub open spec fn spec_hash_word(w: u32) -> u32 {
    ((w as int * FRAGMENT_HASH_MULTIPLIER as int) % 0x1_0000_0000) as u32
}

/// The little-endian word made of four bytes.
pub open spec fn le_word(b0: u8, b1: u8, b2: u8, b3: u8) -> u32 {
    (b0 as u32) | ((b1 as u32) << 8u32) | ((b2 as u32) << 16u32) | ((b3 as u32) << 24u32)
}

/// Byte `k` (0 is the least significant) of a word.
pub open spec fn word_byte(w: u32, k: u32) -> u8 {
    ((w >> (8 * k)) & 0xff) as u8
}

/// ASCII lowercasing of one byte.
pub open spec fn lower_byte(b: u8) -> u8 {
    if 0x41 <= b && b <= 0x5a {
        (b + 0x20) as u8
    } else {
        b
    }
}

/// ASCII lowercasing of every byte of a sequence.
pub open spec fn lower_bytes(s: Seq<u8>) -> Seq<u8> {
    s.map_values(|b: u8| lower_byte(b))
}

/// ASCII lowercasing of each of the four bytes of a little-endian word.
pub open spec fn spec_lower_word(w: u32) -> u32 {
    le_word(
        lower_byte(word_byte(w, 0)),
        lower_byte(word_byte(w, 1)),
        lower_byte(word_byte(w, 2)),
        lower_byte(word_byte(w, 3)),
    )
}

/// The mask that keeps the first `fragment_len` bytes of a little-endian word.
pub open spec fn spec_fragment_mask(fragment_len: usize) -> u32 {
    if fragment_len == 1 {
        0x0000_00FF
    } else if fragment_len == 2 {
        0x0000_FFFF
    } else if fragment_len == 3 {
        0x00FF_FFFF
    } else {
        0xFFFF_FFFF
    }
}

/// Bytes `i..i+4` of `s` as a little-endian word.
pub open spec fn window_word(s: Seq<u8>, i: int) -> u32 {
    le_word(s[i], s[i + 1], s[i + 2], s[i + 3])
}

/// The hash of a pattern fragment: its bytes zero-padded to four, as a word.
pub open spec fn padded_word(frag: Seq<u8>) -> u32 {
    le_word(
        if frag.len() > 0 { frag[0] } else { 0 },
        if frag.len() > 1 { frag[1] } else { 0 },
        if frag.len() > 2 { frag[2] } else { 0 },
        if frag.len() > 3 { frag[3] } else { 0 },
    )
}

/// The hash of the fragment of `pattern` that starts at `i`.
pub open spec fn pattern_fragment_hash(pattern: Seq<u8>, i: int, fragment_len: int) -> u32 {
    spec_hash_word(padded_word(pattern.subrange(i, i + fragment_len)))
}

/// The hash that a scan computes for the four-byte window of `buf` at `i`.
pub open spec fn window_hash(buf: Seq<u8>, i: int, mask: u32, case_insensitive: bool) -> u32 {
    let w = window_word(buf, i);
    spec_hash_word((if case_insensitive { spec_lower_word(w) } else { w }) & mask)
}

pub open spec fn spec_stride(buf_len: int) -> usize {
    if buf_len <= 65536 {
        1
    } else if buf_len <= 1048576 {
        8
    } else {
        64
    }
}

proof fn lemma_hash_inverse(w: u32)
    ensures
        ((spec_hash_word(w) as int * FRAGMENT_HASH_INVERSE as int) % 0x1_0000_0000) == w,
{
    assert((((w as int * 0x9e3779b9int) % 0x1_0000_0000) * 0x144cbc89int) % 0x1_0000_0000 == w)
        by (bit_vector);
}

/// Hashing is a bijection on 32-bit words: distinct words never share a hash.
pub proof fn lemma_hash_word_injective(a: u32, b: u32)
    ensures
        spec_hash_word(a) == spec_hash_word(b) <==> a == b,
{
    lemma_hash_inverse(a);
    lemma_hash_inverse(b);
}

/// A four-byte window masked to `fragment_len` bytes hashes exactly like the pattern
/// fragment made of its first `fragment_len` bytes, zero-padded: the bytes past the
/// fragment never matter.
pub proof fn lemma_masked_window_matches_padded_fragment(
    b0: u8,
    b1: u8,
    b2: u8,
    b3: u8,
    fragment_len: usize,
)
    requires
        1 <= fragment_len <= 4,
    ensures
        spec_hash_word(le_word(b0, b1, b2, b3) & spec_fragment_mask(fragment_len))
            == spec_hash_word(padded_word(seq![b0, b1, b2, b3].subrange(0, fragment_len as int))),
{
    let s = seq![b0, b1, b2, b3].subrange(0, fragment_len as int);
    if fragment_len == 1 {
        assert(le_word(b0, b1, b2, b3) & 0xff == le_word(b0, 0, 0, 0)) by (bit_vector);
    } else if fragment_len == 2 {
        assert(le_word(b0, b1, b2, b3) & 0xffff == le_word(b0, b1, 0, 0)) by (bit_vector);
    } else if fragment_len == 3 {
        assert(le_word(b0, b1, b2, b3) & 0xff_ffff == le_word(b0, b1, b2, 0)) by (bit_vector);
    } else {
        assert(le_word(b0, b1, b2, b3) & 0xffff_ffff == le_word(b0, b1, b2, b3)) by (bit_vector);
    }
}

proof fn lemma_word_bytes(b0: u8, b1: u8, b2: u8, b3: u8)
    ensures
        word_byte(le_word(b0, b1, b2, b3), 0) == b0,
        word_byte(le_word(b0, b1, b2, b3), 1) == b1,
        word_byte(le_word(b0, b1, b2, b3), 2) == b2,
        word_byte(le_word(b0, b1, b2, b3), 3) == b3,
{
    assert(word_byte(le_word(b0, b1, b2, b3), 0) == b0) by (bit_vector);
    assert(word_byte(le_word(b0, b1, b2, b3), 1) == b1) by (bit_vector);
    assert(word_byte(le_word(b0, b1, b2, b3), 2) == b2) by (bit_vector);
    assert(word_byte(le_word(b0, b1, b2, b3), 3) == b3) by (bit_vector);
}

/// Lowercasing a window word is lowercasing each of its bytes.
pub proof fn lemma_lower_window(b0: u8, b1: u8, b2: u8, b3: u8)
    ensures
        spec_lower_word(le_word(b0, b1, b2, b3)) == le_word(
            lower_byte(b0),
            lower_byte(b1),
            lower_byte(b2),
            lower_byte(b3),
        ),
{
    lemma_word_bytes(b0, b1, b2, b3);
}

/// Hash a four-byte fragment (shorter fragments are zero-padded by the caller).
pub fn hash_fragment(frag: [u8; 4]) -> (r: u32)
    ensures
        r == spec_hash_word(le_word(frag@[0], frag@[1], frag@[2], frag@[3])),
{
    let w = (frag[0] as u32) | ((frag[1] as u32) << 8u32) | ((frag[2] as u32) << 16u32) | ((
    frag[3] as u32) << 24u32);
    w.wrapping_mul(FRAGMENT_HASH_MULTIPLIER)
}

pub fn hash_fragment_u32(frag: u32) -> (r: u32)
    ensures
        r == spec_hash_word(frag),
{
    frag.wrapping_mul(FRAGMENT_HASH_MULTIPLIER)
}

/// The mask that zeroes every byte past `fragment_len` in a little-endian word; any
/// length outside `1..=3` keeps the whole word.
pub fn fragment_mask_u32(fragment_len: usize) -> (r: u32)
    ensures
        r == spec_fragment_mask(fragment_len),
{
    match fragment_len {
        1 => 0x0000_00FF,
        2 => 0x0000_FFFF,
        3 => 0x00FF_FFFF,
        _ => 0xFFFF_FFFF,
    }
}

/// Pick one fragment length usable across every literal: the shortest literal's
/// length, capped at 4, or `None` when there is no literal or one is shorter than
/// `MIN_FRAGMENT_LEN`.
pub fn select_fragment_len(patterns: &[&[u8]]) -> (r: Option<usize>)
    ensures
        r is Some <==> (patterns@.len() > 0 && forall|i: int|
            0 <= i < patterns@.len() ==> #[trigger] patterns@[i]@.len() >= MIN_FRAGMENT_LEN),
        r matches Some(l) ==> {
            &&& l <= 4
            &&& forall|i: int| 0 <= i < patterns@.len() ==> l <= #[trigger] patterns@[i]@.len()
            &&& (l == 4 || exists|i: int|
                0 <= i < patterns@.len() && #[trigger] patterns@[i]@.len() == l)
        },
{
    if patterns.len() == 0 {
        return None;
    }
    let mut shortest: usize = patterns[0].len();
    let mut at: usize = 0;
    let mut k: usize = 1;
    while k < patterns.len()
        invariant
            1 <= k <= patterns@.len(),
            at < k,
            shortest == patterns@[at as int]@.len(),
            forall|i: int| 0 <= i < k ==> shortest <= #[trigger] patterns@[i]@.len(),
        decreases patterns@.len() - k,
    {
        if patterns[k].len() < shortest {
            shortest = patterns[k].len();
            at = k;
        }
        k = k + 1;
    }
    if shortest < MIN_FRAGMENT_LEN {
        assert(patterns@[at as int]@.len() < MIN_FRAGMENT_LEN);
        None
    } else {
        if shortest < 4 {
            assert(patterns@[at as int]@.len() == shortest);
            Some(shortest)
        } else {
            Some(4)
        }
    }
}

/// ASCII-lowercase each byte of a little-endian word.
pub fn ascii_lowercase_u32_le(w: u32) -> (r: u32)
    ensures
        r == spec_lower_word(w),
{
    let b0 = ascii_lower(((w >> 0u32) & 0xff) as u8);
    let b1 = ascii_lower(((w >> 8u32) & 0xff) as u8);
    let b2 = ascii_lower(((w >> 16u32) & 0xff) as u8);
    let b3 = ascii_lower(((w >> 24u32) & 0xff) as u8);
    proof {
        assert(word_byte(w, 0) == ((w >> 0u32) & 0xff) as u8) by (bit_vector);
        assert(word_byte(w, 1) == ((w >> 8u32) & 0xff) as u8) by (bit_vector);
        assert(word_byte(w, 2) == ((w >> 16u32) & 0xff) as u8) by (bit_vector);
        assert(word_byte(w, 3) == ((w >> 24u32) & 0xff) as u8) by (bit_vector);
    }
    (b0 as u32) | ((b1 as u32) << 8u32) | ((b2 as u32) << 16u32) | ((b3 as u32) << 24u32)
}

/// ASCII lowercasing of one byte.
pub fn ascii_lower(b: u8) -> (r: u8)
    ensures
        r == lower_byte(b),
{
    if 0x41 <= b && b <= 0x5a {
        b + 0x20
    } else {
        b
    }
}

/// Lowercase every byte of a 32-byte (AVX2-register-sized) block, ASCII only, each
/// byte on its own.
pub fn ascii_lowercase_avx2(v: [u8; 32]) -> (r: [u8; 32])
    ensures
        r@ == lower_bytes(v@),
{
    let mut out = v;
    let mut k: usize = 0;
    while k < 32
        invariant
            k <= 32,
            out@.len() == 32,
            forall|i: int| 0 <= i < k ==> out@[i] == lower_byte(v@[i]),
            forall|i: int| k <= i < 32 ==> out@[i] == v@[i],
        decreases 32 - k,
    {
        out[k] = ascii_lower(out[k]);
        k = k + 1;
    }
    assert(out@ =~= lower_bytes(v@));
    out
}

/// Lowercase every byte of a 16-byte (NEON-register-sized) block, ASCII only, each
/// byte on its own.
pub fn ascii_lowercase_neon(v: [u8; 16]) -> (r: [u8; 16])
    ensures
        r@ == lower_bytes(v@),
{
    let mut out = v;
    let mut k: usize = 0;
    while k < 16
        invariant
            k <= 16,
            out@.len() == 16,
            forall|i: int| 0 <= i < k ==> out@[i] == lower_byte(v@[i]),
            forall|i: int| k <= i < 16 ==> out@[i] == v@[i],
        decreases 16 - k,
    {
        out[k] = ascii_lower(out[k]);
        k = k + 1;
    }
    assert(out@ =~= lower_bytes(v@));
    out
}

/// How many bytes a presence scan advances per step: every byte of a small buffer,
/// every 8th of a medium one, every 64th of a large one.
pub fn stride_heuristic(buf_len: usize) -> (r: usize)
    ensures
        r == spec_stride(buf_len as int),
{
    if buf_len <= 65536 {
        1
    } else if buf_len <= 1048576 {
        8
    } else {
        64
    }
}

/// `s` with every repeated value dropped after its first occurrence.
pub open spec fn dedup_in_order(s: Seq<u32>) -> Seq<u32>
    decreases s.len(),
{
    if s.len() == 0 {
        Seq::empty()
    } else {
        let d = dedup_in_order(s.drop_last());
        if d.contains(s.last()) {
            d
        } else {
            d.push(s.last())
        }
    }
}

/// The hashes of every `fragment_len`-byte window of `pattern`, in order.
pub open spec fn pattern_window_hashes(pattern: Seq<u8>, fragment_len: int) -> Seq<u32> {
    if pattern.len() < fragment_len {
        Seq::empty()
    } else {
        Seq::new(
            (pattern.len() - fragment_len + 1) as nat,
            |i: int| pattern_fragment_hash(pattern, i, fragment_len),
        )
    }
}

/// The distinct fragment hashes of a pattern, in order of first appearance.
pub open spec fn pattern_fragments(pattern: Seq<u8>, fragment_len: int) -> Seq<u32> {
    dedup_in_order(pattern_window_hashes(pattern, fragment_len))
}

proof fn lemma_push_contains(s: Seq<u32>, a: u32, x: u32)
    ensures
        s.push(a).contains(x) <==> (s.contains(x) || x == a),
{
    if s.contains(x) {
        let k = choose|k: int| 0 <= k < s.len() && s[k] == x;
        assert(s.push(a)[k] == x);
    }
    if x == a {
        assert(s.push(a)[s.len() as int] == x);
    }
    if s.push(a).contains(x) && x != a {
        let k = choose|k: int| 0 <= k < s.push(a).len() && s.push(a)[k] == x;
        assert(s[k] == x);
    }
}

/// The values of `dedup_in_order(s)` are those of `s`, each once.
pub proof fn lemma_dedup_in_order(s: Seq<u32>)
    ensures
        dedup_in_order(s).to_set() == s.to_set(),
        dedup_in_order(s).no_duplicates(),
        forall|x: u32| dedup_in_order(s).contains(x) <==> s.contains(x),
    decreases s.len(),
{
    if s.len() > 0 {
        let p = s.drop_last();
        lemma_dedup_in_order(p);
        let d = dedup_in_order(p);
        assert(p.push(s.last()) =~= s);
        assert forall|x: u32| dedup_in_order(s).contains(x) <==> s.contains(x) by {
            lemma_push_contains(p, s.last(), x);
            lemma_push_contains(d, s.last(), x);
        }
        if !d.contains(s.last()) {
            assert forall|i: int, j: int|
                0 <= i < j < dedup_in_order(s).len() implies dedup_in_order(s)[i]
                != dedup_in_order(s)[j] by {
                if j == d.len() {
                    assert(d[i] == dedup_in_order(s)[i]);
                }
            }
        }
        assert(dedup_in_order(s).to_set() =~= s.to_set());
    } else {
        assert(dedup_in_order(s).to_set() =~= s.to_set());
    }
}

/// Pack up to four bytes of `pattern` starting at `i`, zero-padded, into a hashable word.
fn padded_fragment(pattern: &[u8], i: usize, fragment_len: usize) -> (r: [u8; 4])
    requires
        1 <= fragment_len <= 4,
        i + fragment_len <= pattern@.len(),
    ensures
        le_word(r@[0], r@[1], r@[2], r@[3]) == padded_word(
            pattern@.subrange(i as int, i + fragment_len),
        ),
{
    let b0 = pattern[i];
    let b1 = if fragment_len > 1 { pattern[i + 1] } else { 0 };
    let b2 = if fragment_len > 2 { pattern[i + 2] } else { 0 };
    let b3 = if fragment_len > 3 { pattern[i + 3] } else { 0 };
    [b0, b1, b2, b3]
}

/// The distinct hashes of the `fragment_len`-byte windows of `pattern`, in order of
/// first appearance; each window is zero-padded to four bytes before hashing, so it
/// hashes like a masked four-byte load of a buffer.
pub fn extract_pattern_fragments_with_len(pattern: &[u8], fragment_len: usize) -> (r: Vec<u32>)
    requires
        1 <= fragment_len <= 4,
    ensures
        r@ == pattern_fragments(pattern@, fragment_len as int),
{
    if pattern.len() < fragment_len {
        proof {
            assert(pattern_window_hashes(pattern@, fragment_len as int) =~= Seq::<u32>::empty());
        }
        return Vec::new();
    }
    let ghost all = pattern_window_hashes(pattern@, fragment_len as int);
    let mut fragments: Vec<u32> = Vec::new();
    let mut seen: IntSet<u32> = IntSet::default();
    let count = pattern.len() - fragment_len + 1;
    let mut i: usize = 0;
    while i < count
        invariant
            count == pattern@.len() - fragment_len + 1,
            all == pattern_window_hashes(pattern@, fragment_len as int),
            all.len() == count,
            1 <= fragment_len <= 4,
            i <= count,
            fragments@ == dedup_in_order(all.take(i as int)),
            seen@ == fragments@.to_set(),
        decreases count - i,
    {
        let frag = padded_fragment(pattern, i, fragment_len);
        let hash = hash_fragment(frag);
        assert(hash == all[i as int]);
        assert(all.take(i + 1).drop_last() =~= all.take(i as int));
        proof {
            lemma_dedup_in_order(all.take(i as int));
        }
        let ghost before = fragments@;
        if fragment_set_insert(&mut seen, hash) {
            fragments.push(hash);
        }
        proof {
            assert forall|x: u32| seen@.contains(x) <==> fragments@.to_set().contains(x) by {
                lemma_push_contains(before, hash, x);
            }
            assert(seen@ =~= fragments@.to_set());
        }
        i = i + 1;
    }
    assert(all.take(count as int) =~= all);
    fragments
}

/// Bit `b` of a word.
pub open spec fn bit_of(x: u64, b: int) -> bool {
    (x >> (b as u64)) & 1 == 1
}

/// Bit `j` of a bitset stored as 64-bit words, least significant bit first.
pub open spec fn scratch_bit(scratch: Seq<u64>, j: int) -> bool {
    bit_of(scratch[j / 64], j % 64)
}

/// `j` is the first index of `hashes` that holds its value.
pub open spec fn first_index_of(hashes: Seq<u32>, j: int) -> bool {
    forall|k: int| 0 <= k < j ==> hashes[k] != hashes[j]
}

/// The scalar scan looks at the four-byte window at `i`: one every `stride` bytes.
pub open spec fn scalar_sampled(len: int, i: int) -> bool {
    0 <= i && i % (spec_stride(len) as int) == 0 && i + 4 <= len
}

/// Some window that the scalar scan looks at before `limit` hashes to `h`.
pub open spec fn scalar_seen_before(
    buf: Seq<u8>,
    mask: u32,
    case_insensitive: bool,
    h: u32,
    limit: int,
) -> bool {
    exists|i: int|
        scalar_sampled(buf.len() as int, i) && i < limit && #[trigger] window_hash(
            buf,
            i,
            mask,
            case_insensitive,
        ) == h
}

/// What the scalar scan marks for fragment `j`: a first occurrence of its hash, known
/// to the index, seen in some scanned window (before `limit`).
pub open spec fn scalar_hit_before(
    buf: Seq<u8>,
    hashes: Seq<u32>,
    index: Set<u32>,
    mask: u32,
    case_insensitive: bool,
    j: int,
    limit: int,
) -> bool {
    &&& first_index_of(hashes, j)
    &&& index.contains(hashes[j])
    &&& scalar_seen_before(buf, mask, case_insensitive, hashes[j], limit)
}

pub open spec fn scalar_hit(
    buf: Seq<u8>,
    hashes: Seq<u32>,
    index: Set<u32>,
    mask: u32,
    case_insensitive: bool,
    j: int,
) -> bool {
    scalar_hit_before(buf, hashes, index, mask, case_insensitive, j, buf.len() as int)
}

proof fn lemma_set_bit(x: u64, b: u64, c: u64)
    requires
        b < 64,
        c < 64,
    ensures
        bit_of(x | (1u64 << b), c as int) == (bit_of(x, c as int) || b == c),
        (x & (1u64 << b) == 0) == !bit_of(x, b as int),
{
    assert(((x | (1u64 << b)) >> c) & 1 == 1 <==> ((x >> c) & 1 == 1 || b == c)) by (bit_vector)
        requires
            b < 64,
            c < 64,
    ;
    assert((x & (1u64 << b) == 0) <==> !((x >> b) & 1 == 1)) by (bit_vector)
        requires
            b < 64,
    ;
}

/// Two words that agree on bits `k` to 63 agree once shifted right by `k`.
proof fn lemma_high_bits_agree(x: u64, y: u64, k: u64)
    requires
        k < 64,
        forall|b: int| k <= b < 64 ==> #[trigger] bit_of(x, b) == bit_of(y, b),
    ensures
        x >> k == y >> k,
    decreases 63 - k,
{
    assert(bit_of(x, k as int) == bit_of(y, k as int));
    if k == 63 {
        assert(((x >> k) & 1 == 1) == ((y >> k) & 1 == 1) ==> x >> k == y >> k) by (bit_vector)
            requires
                k == 63,
        ;
    } else {
        lemma_high_bits_agree(x, y, (k + 1) as u64);
        let k1 = (k + 1) as u64;
        assert((x >> k1 == y >> k1 && ((x >> k) & 1 == 1) == ((y >> k) & 1 == 1)) ==> x >> k == y
            >> k) by (bit_vector)
            requires
                k < 63,
                k1 == k + 1,
        ;
    }
}

/// A word is determined by its bits.
proof fn lemma_bits_determine_word(x: u64, y: u64)
    requires
        forall|b: int| 0 <= b < 64 ==> #[trigger] bit_of(x, b) == bit_of(y, b),
    ensures
        x == y,
{
    lemma_high_bits_agree(x, y, 0);
    assert(x >> 0u64 == x && y >> 0u64 == y) by (bit_vector);
}

/// Bitsets of one length with the same bits are the same words.
proof fn lemma_bits_determine_scratch(x: Seq<u64>, y: Seq<u64>)
    requires
        x.len() == y.len(),
        forall|j: int| 0 <= j < 64 * x.len() ==> #[trigger] scratch_bit(x, j) == scratch_bit(y, j),
    ensures
        x == y,
{
    assert forall|w: int| 0 <= w < x.len() implies x[w] == y[w] by {
        assert forall|b: int| 0 <= b < 64 implies #[trigger] bit_of(x[w], b) == bit_of(y[w], b) by {
            let j = 64 * w + b;
            assert(j / 64 == w && j % 64 == b);
            assert(scratch_bit(x, j) == scratch_bit(y, j));
        }
        lemma_bits_determine_word(x[w], y[w]);
    }
    assert(x =~= y);
}

/// Setting bit `j` of a bitset changes that bit and no other.
proof fn lemma_set_scratch_bit(s: Seq<u64>, j: int)
    requires
        0 <= j < 64 * s.len(),
    ensures
        forall|k: int|
            0 <= k < 64 * s.len() ==> scratch_bit(
                s.update(j / 64, s[j / 64] | (1u64 << ((j % 64) as u64))),
                k,
            ) == (scratch_bit(s, k) || k == j),
        (s[j / 64] & (1u64 << ((j % 64) as u64)) == 0) == !scratch_bit(s, j),
{
    let t = s.update(j / 64, s[j / 64] | (1u64 << ((j % 64) as u64)));
    assert forall|k: int| 0 <= k < 64 * s.len() implies scratch_bit(t, k) == (scratch_bit(s, k)
        || k == j) by {
        if k / 64 == j / 64 {
            lemma_set_bit(s[j / 64], (j % 64) as u64, (k % 64) as u64);
        }
    }
    lemma_set_bit(s[j / 64], (j % 64) as u64, (j % 64) as u64);
}

/// The hash of the window of `buf` at `offset`, lowercased first when
/// `case_insensitive`, masked to the fragment length.
pub fn tail_hash_at(buf: &[u8], offset: usize, mask: u32, case_insensitive: bool) -> (r: u32)
    requires
        offset + 4 <= buf@.len(),
    ensures
        r == window_hash(buf@, offset as int, mask, case_insensitive),
{
    let mut raw = (buf[offset] as u32) | ((buf[offset + 1] as u32) << 8u32) | ((buf[offset
        + 2] as u32) << 16u32) | ((buf[offset + 3] as u32) << 24u32);
    if case_insensitive {
        raw = ascii_lowercase_u32_le(raw);
    }
    raw = raw & mask;
    hash_fragment_u32(raw)
}

/// Portable presence scan: every `stride_heuristic(buf.len())` bytes, hash the window
/// and, when the index knows the hash, set the bit of the first fragment that holds it.
/// Bits already set stay set; nothing else changes.
#[verifier::spinoff_prover]
#[verifier::rlimit(50)]
pub fn check_fragment_presence_scalar(
    buf: &[u8],
    fragment_hashes: &[u32],
    fragment_presence_scratch: &mut [u64],
    fragment_index: &IntSet<u32>,
    mask: u32,
    case_insensitive: bool,
)
    requires
        buf@.len() <= isize::MAX,
        fragment_hashes@.len() <= 64 * old(fragment_presence_scratch)@.len(),
    ensures
        final(fragment_presence_scratch)@.len() == old(fragment_presence_scratch)@.len(),
        forall|j: int|
            0 <= j < 64 * old(fragment_presence_scratch)@.len() ==> #[trigger] scratch_bit(
                final(fragment_presence_scratch)@,
                j,
            ) == (scratch_bit(old(fragment_presence_scratch)@, j) || (j
                < fragment_hashes@.len() && scalar_hit(
                buf@,
                fragment_hashes@,
                fragment_index@,
                mask,
                case_insensitive,
                j,
            ))),
{
    let ghost old_scratch = fragment_presence_scratch@;
    let ghost words = old_scratch.len();
    let ghost hashes = fragment_hashes@;
    let ghost index = fragment_index@;
    let num_frags = fragment_hashes.len();
    let stride = stride_heuristic(buf.len());
    let mut found_count: usize = 0;
    let ghost mut newly: Set<int> = Set::empty();
    let mut i: usize = 0;
    proof {
        lemma_int_range(0, num_frags as int);
    }
    while i + 4 <= buf.len()
        invariant
            buf@.len() <= isize::MAX,
            num_frags == hashes.len(),
            hashes == fragment_hashes@,
            index == fragment_index@,
            num_frags <= 64 * words,
            stride == spec_stride(buf@.len() as int),
            (i as int) % (stride as int) == 0,
            i <= buf@.len() + 64,
            fragment_presence_scratch@.len() == words,
            words == old_scratch.len(),
            old_scratch == old(fragment_presence_scratch)@,
            set_int_range(0, num_frags as int).finite(),
            set_int_range(0, num_frags as int).len() == num_frags,
            forall|j: int|
                0 <= j < 64 * words ==> #[trigger] scratch_bit(fragment_presence_scratch@, j) == (
                scratch_bit(old_scratch, j) || (j < num_frags && scalar_hit_before(
                    buf@,
                    hashes,
                    index,
                    mask,
                    case_insensitive,
                    j,
                    i as int,
                ))),
            newly.finite(),
            newly.subset_of(set_int_range(0, num_frags as int)),
            found_count == newly.len(),
            forall|j: int|
                #[trigger] newly.contains(j) <==> (0 <= j < num_frags && !scratch_bit(
                    old_scratch,
                    j,
                ) && scalar_hit_before(buf@, hashes, index, mask, case_insensitive, j, i as int)),
        decreases buf@.len() + 64 - i,
    {
        let hash = tail_hash_at(buf, i, mask, case_insensitive);
        let ghost before = fragment_presence_scratch@;
        let ghost cur = i as int;
        let ghost next = (i + stride) as int;
        let mut done = false;
        let mut idx: usize = 0;
        let known = fragment_set_contains(fragment_index, hash);
        if known {
            while !done && idx < num_frags
                invariant
                    known == index.contains(hash),
                    num_frags == hashes.len(),
                    hashes == fragment_hashes@,
                    idx <= num_frags,
                    !done ==> forall|k: int| 0 <= k < idx ==> hashes[k] != hash,
                    done ==> idx < num_frags && hashes[idx as int] == hash && forall|k: int|
                        0 <= k < idx ==> hashes[k] != hash,
                decreases num_frags - idx + (if done { 0int } else { 1int }),
            {
                if fragment_hashes[idx] == hash {
                    done = true;
                } else {
                    idx = idx + 1;
                }
            }
        }
        let mut marked = false;
        if done {
            let word = idx / 64;
            let bit = 1u64 << ((idx % 64) as u64);
            proof {
                lemma_set_scratch_bit(before, idx as int);
            }
            if fragment_presence_scratch[word] & bit == 0 {
                fragment_presence_scratch[word] = fragment_presence_scratch[word] | bit;
                marked = true;
            }
        }
        proof {
            lemma_seen_step(buf@, mask, case_insensitive, cur, stride as int);
            lemma_hit_step(buf@, hashes, index, mask, case_insensitive, cur, next, hash, done, idx as int);
            if marked {
                assert(!newly.contains(idx as int));
                newly = newly.insert(idx as int);
                lemma_len_subset(newly, set_int_range(0, num_frags as int));
            }
            assert forall|j: int|
                #[trigger] newly.contains(j) <==> (0 <= j < num_frags && !scratch_bit(
                    old_scratch,
                    j,
                ) && scalar_hit_before(buf@, hashes, index, mask, case_insensitive, j, next)) by {
                if 0 <= j < num_frags {
                    assert(scalar_hit_before(buf@, hashes, index, mask, case_insensitive, j, next)
                        == (scalar_hit_before(buf@, hashes, index, mask, case_insensitive, j, cur)
                        || (done && j == idx)));
                }
            }
            assert forall|j: int|
                0 <= j < 64 * words implies #[trigger] scratch_bit(fragment_presence_scratch@, j)
                == (scratch_bit(old_scratch, j) || (j < num_frags && scalar_hit_before(
                    buf@,
                    hashes,
                    index,
                    mask,
                    case_insensitive,
                    j,
                    next,
                ))) by {
                assert(scratch_bit(before, j) == (scratch_bit(old_scratch, j) || (j < num_frags
                    && scalar_hit_before(buf@, hashes, index, mask, case_insensitive, j, cur))));
                if j < num_frags {
                    assert(scalar_hit_before(buf@, hashes, index, mask, case_insensitive, j, next)
                        == (scalar_hit_before(buf@, hashes, index, mask, case_insensitive, j, cur)
                        || (done && j == idx)));
                }
            }
        }
        if marked {
            found_count = found_count + 1;
            if found_count == num_frags {
                proof {
                    lemma_subset_equality(newly, set_int_range(0, num_frags as int));
                    assert forall|j: int|
                        0 <= j < 64 * words implies #[trigger] scratch_bit(
                            fragment_presence_scratch@,
                            j,
                        ) == (scratch_bit(old_scratch, j) || (j < num_frags && scalar_hit(
                            buf@,
                            hashes,
                            index,
                            mask,
                            case_insensitive,
                            j,
                        ))) by {
                        if j < num_frags {
                            assert(newly.contains(j));
                            lemma_hit_before_implies_hit(
                                buf@,
                                hashes,
                                index,
                                mask,
                                case_insensitive,
                                j,
                                next,
                            );
                        }
                    }
                }
                return ;
            }
        }
        i = i + stride;
    }
    proof {
        assert forall|j: int|
            0 <= j < 64 * words implies #[trigger] scratch_bit(fragment_presence_scratch@, j) == (
            scratch_bit(old_scratch, j) || (j < num_frags && scalar_hit(
                buf@,
                hashes,
                index,
                mask,
                case_insensitive,
                j,
            ))) by {
            if j < num_frags {
                lemma_hit_before_implies_hit(buf@, hashes, index, mask, case_insensitive, j, i as int);
                if scalar_hit(buf@, hashes, index, mask, case_insensitive, j) {
                    let w = choose|w: int|
                        scalar_sampled(buf@.len() as int, w) && w < buf@.len() && #[trigger] window_hash(
                            buf@,
                            w,
                            mask,
                            case_insensitive,
                        ) == hashes[j];
                    assert(w < i);
                }
            }
        }
    }
}

/// The step of a wide scan: the portable stride, but at least one batch of lanes.
pub open spec fn wide_stride(len: int, lanes: int) -> int {
    if (spec_stride(len) as int) < lanes {
        lanes
    } else {
        spec_stride(len) as int
    }
}

/// The windows a wide scan looks at: the first `lanes` windows of every stride-aligned
/// block whose whole batch fits in the buffer, and every window from the first block
/// whose batch does not fit.
pub open spec fn wide_covered(len: int, lanes: int, p: int) -> bool {
    let s = wide_stride(len, lanes);
    0 <= p && p + 4 <= len && (p % s < lanes || p - p % s + lanes + 3 > len)
}

/// Some window that a wide scan looks at hashes to `h`.
pub open spec fn wide_seen(buf: Seq<u8>, mask: u32, case_insensitive: bool, lanes: int, h: u32) -> bool {
    exists|p: int|
        wide_covered(buf.len() as int, lanes, p) && #[trigger] window_hash(
            buf,
            p,
            mask,
            case_insensitive,
        ) == h
}

/// Some fragment holding `h` has its bit set.
pub open spec fn hash_marked(bits: Seq<u64>, hashes: Seq<u32>, h: u32) -> bool {
    exists|j: int| 0 <= j < hashes.len() && hashes[j] == h && #[trigger] scratch_bit(bits, j)
}

/// A window the batch phase of a wide scan looks at: among the first `lanes` windows of
/// a stride-aligned block whose whole batch fits in the buffer.
pub open spec fn batch_window(len: int, lanes: int, p: int) -> bool {
    let s = wide_stride(len, lanes);
    0 <= p && p % s < lanes && p - p % s + lanes + 3 <= len
}

/// A window the tail phase of a wide scan looks at: any window of a block whose batch
/// does not fit.
pub open spec fn tail_window(len: int, lanes: int, p: int) -> bool {
    let s = wide_stride(len, lanes);
    0 <= p && p + 4 <= len && p - p % s + lanes + 3 > len
}

/// Some batch window of a block before `bound` hashes to `h`.
pub open spec fn batch_seen_upto(buf: Seq<u8>, mask: u32, case_insensitive: bool, lanes: int, h: u32, bound: int) -> bool {
    exists|p: int|
        batch_window(buf.len() as int, lanes, p) && p - p % wide_stride(buf.len() as int, lanes) < bound
            && #[trigger] window_hash(buf, p, mask, case_insensitive) == h
}

/// Some batch window hashes to `h`.
pub open spec fn batch_seen(buf: Seq<u8>, mask: u32, case_insensitive: bool, lanes: int, h: u32) -> bool {
    exists|p: int|
        batch_window(buf.len() as int, lanes, p) && #[trigger] window_hash(buf, p, mask, case_insensitive) == h
}

/// How many tail windows before `upto` hash to `h`.
pub open spec fn tail_hits(buf: Seq<u8>, mask: u32, case_insensitive: bool, lanes: int, h: u32, upto: int) -> nat
    decreases upto,
{
    if upto <= 0 {
        0
    } else {
        tail_hits(buf, mask, case_insensitive, lanes, h, upto - 1) + if tail_window(
            buf.len() as int,
            lanes,
            upto - 1,
        ) && window_hash(buf, upto - 1, mask, case_insensitive) == h {
            1nat
        } else {
            0nat
        }
    }
}

/// How many fragments before `j` hold `h` and were not set to begin with.
pub open spec fn rank_before(hashes: Seq<u32>, init: Seq<u64>, h: u32, j: int) -> nat
    decreases j,
{
    if j <= 0 {
        0
    } else {
        rank_before(hashes, init, h, j - 1) + if hashes[j - 1] == h && !scratch_bit(init, j - 1) {
            1nat
        } else {
            0nat
        }
    }
}

/// Whether a wide scan leaves fragment `j` set, from the bits it started from: set to
/// begin with; or its hash is in some batch window (a batch sets every fragment holding
/// a hash it shows); or, counting the fragments holding its hash that were not set to
/// begin with in order, it comes before as many of them as tail windows show the hash
/// (each tail window sets the first fragment holding its hash not set yet).
pub open spec fn wide_marks(
    init: Seq<u64>,
    buf: Seq<u8>,
    hashes: Seq<u32>,
    mask: u32,
    case_insensitive: bool,
    lanes: int,
    j: int,
) -> bool {
    ||| scratch_bit(init, j)
    ||| batch_seen(buf, mask, case_insensitive, lanes, hashes[j])
    ||| rank_before(hashes, init, hashes[j], j) < tail_hits(
        buf,
        mask,
        case_insensitive,
        lanes,
        hashes[j],
        buf.len() as int,
    )
}

proof fn lemma_tail_hits_mono(buf: Seq<u8>, mask: u32, ci: bool, lanes: int, h: u32, a: int, b: int)
    requires
        a <= b,
    ensures
        tail_hits(buf, mask, ci, lanes, h, a) <= tail_hits(buf, mask, ci, lanes, h, b),
    decreases b - a,
{
    if a < b {
        lemma_tail_hits_mono(buf, mask, ci, lanes, h, a, b - 1);
    }
}

/// No tail window at or past `len - 3`: the count stops growing there.
proof fn lemma_tail_hits_end(buf: Seq<u8>, mask: u32, ci: bool, lanes: int, h: u32, a: int)
    requires
        a >= buf.len() - 3,
        a >= 0,
    ensures
        tail_hits(buf, mask, ci, lanes, h, a) == tail_hits(buf, mask, ci, lanes, h, buf.len() as int),
    decreases if a >= buf.len() { a - buf.len() } else { buf.len() - a },
{
    if a > buf.len() {
        lemma_tail_hits_end(buf, mask, ci, lanes, h, a - 1);
    } else if a < buf.len() {
        lemma_tail_hits_end(buf, mask, ci, lanes, h, a + 1);
    }
}

/// No tail window comes before the first block whose batch does not fit.
proof fn lemma_tail_hits_zero(buf: Seq<u8>, mask: u32, ci: bool, lanes: int, h: u32, t: int, a: int)
    requires
        1 <= lanes,
        t >= 0,
        t % wide_stride(buf.len() as int, lanes) == 0,
        t == 0 || t - wide_stride(buf.len() as int, lanes) + lanes + 3 <= buf.len(),
        a <= t,
    ensures
        tail_hits(buf, mask, ci, lanes, h, a) == 0,
    decreases a,
{
    if a > 0 {
        lemma_tail_hits_zero(buf, mask, ci, lanes, h, t, a - 1);
        let s = wide_stride(buf.len() as int, lanes);
        let p = a - 1;
        lemma_block_start(p, s);
        let b = p - p % s;
        assert(0int % s == 0);
        lemma_multiples_apart(0int, t, s);
        vstd::arithmetic::div_mod::lemma_mod_add_multiples_vanish(t - s, s);
        if b < t - s {
            lemma_multiples_apart(b, t - s, s);
        }
        if b > t - s {
            lemma_multiples_apart(t - s, b, s);
        }
    }
}

/// One more fragment holding `h` not set to begin with raises the count by one.
proof fn lemma_rank_step(hashes: Seq<u32>, init: Seq<u64>, h: u32, a: int, b: int)
    requires
        0 <= a < b,
        hashes[a] == h,
        !scratch_bit(init, a),
    ensures
        rank_before(hashes, init, h, a) < rank_before(hashes, init, h, b),
    decreases b - a,
{
    if b > a + 1 {
        lemma_rank_step(hashes, init, h, a, b - 1);
    }
}

/// The count rises one at a time: below any count reached at `k` there is a fragment
/// holding `h`, not set to begin with, at which the count is exactly that.
proof fn lemma_rank_witness(hashes: Seq<u32>, init: Seq<u64>, h: u32, k: int, c: int)
    requires
        0 <= c < rank_before(hashes, init, h, k),
    ensures
        exists|w: int|
            0 <= w < k && hashes[w] == h && !scratch_bit(init, w) && #[trigger] rank_before(
                hashes,
                init,
                h,
                w,
            ) == c,
    decreases k,
{
    if rank_before(hashes, init, h, k - 1) > c {
        lemma_rank_witness(hashes, init, h, k - 1, c);
        let w = choose|w: int|
            0 <= w < k - 1 && hashes[w] == h && !scratch_bit(init, w) && #[trigger] rank_before(
                hashes,
                init,
                h,
                w,
            ) == c;
        assert(rank_before(hashes, init, h, w) == c);
    } else {
        assert(rank_before(hashes, init, h, k - 1) == c);
    }
}

/// The hashes of the `lanes` consecutive windows starting at `offset`.
fn lane_hashes(buf: &[u8], offset: usize, lanes: usize, mask: u32, case_insensitive: bool) -> (r:
    Vec<u32>)
    requires
        offset + lanes + 3 <= buf@.len(),
    ensures
        r@.len() == lanes,
        forall|k: int|
            0 <= k < lanes ==> #[trigger] r@[k] == window_hash(
                buf@,
                offset + k,
                mask,
                case_insensitive,
            ),
{
    let mut r: Vec<u32> = Vec::new();
    let mut k: usize = 0;
    while k < lanes
        invariant
            offset + lanes + 3 <= buf.len(),
            k <= lanes,
            r@.len() == k,
            forall|i: int|
                0 <= i < k ==> #[trigger] r@[i] == window_hash(buf@, offset + i, mask, case_insensitive),
        decreases lanes - k,
    {
        r.push(tail_hash_at(buf, offset + k, mask, case_insensitive));
        k = k + 1;
    }
    r
}

fn lanes_contain(lanes: &Vec<u32>, h: u32) -> (r: bool)
    ensures
        r == lanes@.contains(h),
{
    let mut k: usize = 0;
    while k < lanes.len()
        invariant
            k <= lanes@.len(),
            forall|i: int| 0 <= i < k ==> lanes@[i] != h,
        decreases lanes@.len() - k,
    {
        if lanes[k] == h {
            return true;
        }
        k = k + 1;
    }
    false
}

/// Bookkeeping of a scan: bits only get set, `newly` holds the fragment bits the scan
/// set itself, and `remaining` counts the fragments it has not set yet.
pub open spec fn scan_state(
    initial: Seq<u64>,
    cur: Seq<u64>,
    n: int,
    newly: Set<int>,
    remaining: int,
) -> bool {
    &&& cur.len() == initial.len()
    &&& 0 <= n <= 64 * initial.len()
    &&& forall|j: int| 0 <= j < 64 * initial.len() && scratch_bit(initial, j) ==> #[trigger] scratch_bit(cur, j)
    &&& forall|j: int|
        0 <= j < 64 * initial.len() && #[trigger] scratch_bit(cur, j) && !scratch_bit(initial, j) ==> j < n
    &&& newly.finite()
    &&& newly.subset_of(set_int_range(0, n))
    &&& remaining == n - newly.len()
    &&& forall|j: int|
        #[trigger] newly.contains(j) <==> (0 <= j < n && !scratch_bit(initial, j) && scratch_bit(cur, j))
}

/// Once every fragment has been set by the scan, every fragment bit is set.
proof fn lemma_scan_done(initial: Seq<u64>, cur: Seq<u64>, n: int, newly: Set<int>)
    requires
        scan_state(initial, cur, n, newly, 0),
    ensures
        forall|j: int| 0 <= j < n ==> #[trigger] scratch_bit(cur, j),
{
    lemma_int_range(0, n);
    lemma_subset_equality(newly, set_int_range(0, n));
    assert forall|j: int| 0 <= j < n implies #[trigger] scratch_bit(cur, j) by {
        assert(set_int_range(0, n).contains(j));
        assert(newly.contains(j));
    }
}

/// Sets bit `j`, which is clear, and records it.
fn set_fragment_bit(
    found: &mut [u64],
    j: usize,
    remaining: usize,
    Ghost(initial): Ghost<Seq<u64>>,
    Ghost(newly): Ghost<Set<int>>,
    Ghost(n): Ghost<int>,
) -> (res: (usize, Ghost<Set<int>>))
    requires
        scan_state(initial, old(found)@, n, newly, remaining as int),
        j < n,
        !scratch_bit(old(found)@, j as int),
    ensures
        scan_state(initial, final(found)@, n, res.1@, res.0 as int),
        forall|k: int|
            0 <= k < 64 * initial.len() ==> #[trigger] scratch_bit(final(found)@, k) == (scratch_bit(
                old(found)@,
                k,
            ) || k == j),
{
    let ghost before = found@;
    proof {
        lemma_set_scratch_bit(before, j as int);
        lemma_int_range(0, n);
        assert(!newly.contains(j as int));
        lemma_len_subset(newly.insert(j as int), set_int_range(0, n));
    }
    let word = j / 64;
    found[word] = found[word] | (1u64 << ((j % 64) as u64));
    let ghost newly2 = newly.insert(j as int);
    proof {
        assert forall|k: int|
            #[trigger] newly2.contains(k) <==> (0 <= k < n && !scratch_bit(initial, k) && scratch_bit(
                found@,
                k,
            )) by {
            if 0 <= k < n {
                assert(scratch_bit(found@, k) == (scratch_bit(before, k) || k == j));
            }
        }
        assert forall|k: int|
            0 <= k < 64 * initial.len() && scratch_bit(initial, k) implies #[trigger] scratch_bit(found@, k) by {
            assert(scratch_bit(before, k));
        }
        assert forall|k: int|
            0 <= k < 64 * initial.len() && #[trigger] scratch_bit(found@, k) && !scratch_bit(initial, k) implies k
            < n by {
            assert(scratch_bit(before, k) || k == j);
        }
    }
    (remaining - 1, Ghost(newly2))
}

/// Batch step of a wide scan: every fragment not yet found whose hash is among the
/// lane hashes is found now.
fn mark_batch(
    found: &mut [u64],
    hashes: &[u32],
    lane: &Vec<u32>,
    remaining: usize,
    Ghost(initial): Ghost<Seq<u64>>,
    Ghost(newly): Ghost<Set<int>>,
) -> (res: (usize, Ghost<Set<int>>))
    requires
        scan_state(initial, old(found)@, hashes@.len() as int, newly, remaining as int),
    ensures
        scan_state(initial, final(found)@, hashes@.len() as int, res.1@, res.0 as int),
        forall|k: int|
            0 <= k < 64 * initial.len() ==> #[trigger] scratch_bit(final(found)@, k) == (scratch_bit(
                old(found)@,
                k,
            ) || (k < hashes@.len() && lane@.contains(hashes@[k]))),
{
    let ghost start = found@;
    let ghost n = hashes@.len() as int;
    let mut remaining = remaining;
    let ghost mut newly = newly;
    let mut idx: usize = 0;
    while idx < hashes.len()
        invariant
            n == hashes@.len(),
            idx <= n,
            scan_state(initial, found@, n, newly, remaining as int),
            start.len() == initial.len(),
            forall|k: int|
                0 <= k < 64 * initial.len() ==> #[trigger] scratch_bit(found@, k) == (scratch_bit(start, k)
                    || (k < idx && lane@.contains(hashes@[k]))),
        decreases n - idx,
    {
        let word = idx / 64;
        let bit = 1u64 << ((idx % 64) as u64);
        proof {
            lemma_set_scratch_bit(found@, idx as int);
        }
        if found[word] & bit == 0 && lanes_contain(lane, hashes[idx]) {
            let ghost before = found@;
            let (r, g) = set_fragment_bit(found, idx, remaining, Ghost(initial), Ghost(newly), Ghost(n));
            remaining = r;
            proof {
                newly = g@;
                assert forall|k: int|
                    0 <= k < 64 * initial.len() implies #[trigger] scratch_bit(found@, k) == (scratch_bit(
                        start,
                        k,
                    ) || (k < idx + 1 && lane@.contains(hashes@[k]))) by {
                    assert(scratch_bit(found@, k) == (scratch_bit(before, k) || k == idx));
                }
            }
        } else {
            proof {
                assert forall|k: int|
                    0 <= k < 64 * initial.len() implies #[trigger] scratch_bit(found@, k) == (scratch_bit(
                        start,
                        k,
                    ) || (k < idx + 1 && lane@.contains(hashes@[k]))) by {
                    if k == idx {
                        assert(scratch_bit(found@, k) == (scratch_bit(start, k) || (k < idx
                            && lane@.contains(hashes@[k]))));
                    }
                }
            }
        }
        idx = idx + 1;
    }
    (remaining, Ghost(newly))
}

/// A tail window showing `hash` sets the next fragment holding it, in the order of the
/// fragments not set to begin with: if the first `c` of them are set, then after the
/// step the first `c + 1` are (all of them, when the hash was in a batch).
proof fn lemma_tail_step(
    init: Seq<u64>,
    bits: Seq<u64>,
    bits2: Seq<u64>,
    hashes: Seq<u32>,
    hash: u32,
    seen: bool,
    c: int,
)
    requires
        c >= 0,
        forall|j: int| 0 <= j < hashes.len() && scratch_bit(init, j) ==> #[trigger] scratch_bit(bits, j),
        forall|j: int|
            0 <= j < hashes.len() && !scratch_bit(init, j) && hashes[j] == hash ==> (#[trigger] scratch_bit(
                bits,
                j,
            ) <==> (seen || rank_before(hashes, init, hash, j) < c)),
        forall|j: int|
            0 <= j < hashes.len() ==> #[trigger] scratch_bit(bits2, j) == (scratch_bit(bits, j)
                || first_unset_with(bits, hashes, hash, j)),
    ensures
        forall|j: int|
            0 <= j < hashes.len() && !scratch_bit(init, j) && hashes[j] == hash ==> (#[trigger] scratch_bit(
                bits2,
                j,
            ) <==> (seen || rank_before(hashes, init, hash, j) < c + 1)),
        forall|j: int| 0 <= j < hashes.len() && hashes[j] != hash ==> #[trigger] scratch_bit(bits2, j) == scratch_bit(bits, j),
{
    assert forall|j: int|
        0 <= j < hashes.len() && !scratch_bit(init, j) && hashes[j] == hash implies (#[trigger] scratch_bit(
            bits2,
            j,
        ) <==> (seen || rank_before(hashes, init, hash, j) < c + 1)) by {
        assert(scratch_bit(bits2, j) == (scratch_bit(bits, j) || first_unset_with(bits, hashes, hash, j)));
        if !seen {
            let r = rank_before(hashes, init, hash, j);
            if first_unset_with(bits, hashes, hash, j) {
                assert(!scratch_bit(bits, j));
                if r > c {
                    lemma_rank_witness(hashes, init, hash, j, c);
                    let w = choose|w: int|
                        0 <= w < j && hashes[w] == hash && !scratch_bit(init, w) && #[trigger] rank_before(
                            hashes,
                            init,
                            hash,
                            w,
                        ) == c;
                    assert(scratch_bit(bits, w));
                    assert(!scratch_bit(bits, w));
                }
            }
            if r == c {
                assert forall|k2: int| 0 <= k2 < j && hashes[k2] == hash implies #[trigger] scratch_bit(
                    bits,
                    k2,
                ) by {
                    if !scratch_bit(init, k2) {
                        lemma_rank_step(hashes, init, hash, k2, j);
                    }
                }
                assert(first_unset_with(bits, hashes, hash, j));
            }
        } else {
            assert(scratch_bit(bits, j));
        }
    }
    assert forall|j: int| 0 <= j < hashes.len() && hashes[j] != hash implies #[trigger] scratch_bit(bits2, j)
        == scratch_bit(bits, j) by {
        assert(scratch_bit(bits2, j) == (scratch_bit(bits, j) || first_unset_with(bits, hashes, hash, j)));
    }
}

/// `k` is the first fragment holding `h` whose bit is clear.
pub open spec fn first_unset_with(bits: Seq<u64>, hashes: Seq<u32>, h: u32, k: int) -> bool {
    &&& 0 <= k < hashes.len()
    &&& hashes[k] == h
    &&& !scratch_bit(bits, k)
    &&& forall|k2: int| 0 <= k2 < k && hashes[k2] == h ==> #[trigger] scratch_bit(bits, k2)
}

/// Tail step of a wide scan: the first fragment not yet found whose hash is `hash`
/// is found now.
fn mark_tail_window(
    found: &mut [u64],
    hashes: &[u32],
    hash: u32,
    remaining: usize,
    Ghost(initial): Ghost<Seq<u64>>,
    Ghost(newly): Ghost<Set<int>>,
) -> (res: (usize, Ghost<Set<int>>))
    requires
        scan_state(initial, old(found)@, hashes@.len() as int, newly, remaining as int),
    ensures
        scan_state(initial, final(found)@, hashes@.len() as int, res.1@, res.0 as int),
        forall|k: int|
            0 <= k < 64 * initial.len() ==> (scratch_bit(old(found)@, k) ==> #[trigger] scratch_bit(
                final(found)@,
                k,
            )) && (scratch_bit(final(found)@, k) ==> scratch_bit(old(found)@, k) || (k
                < hashes@.len() && hashes@[k] == hash)),
        (exists|k: int| 0 <= k < hashes@.len() && hashes@[k] == hash) ==> hash_marked(
            final(found)@,
            hashes@,
            hash,
        ),
        forall|k: int|
            0 <= k < 64 * initial.len() ==> #[trigger] scratch_bit(final(found)@, k) == (scratch_bit(
                old(found)@,
                k,
            ) || first_unset_with(old(found)@, hashes@, hash, k)),
{
    let ghost start = found@;
    let ghost n = hashes@.len() as int;
    let mut idx: usize = 0;
    while idx < hashes.len()
        invariant
            n == hashes@.len(),
            idx <= n,
            found@ == start,
            start == old(found)@,
            scan_state(initial, start, n, newly, remaining as int),
            forall|k: int| 0 <= k < idx && hashes@[k] == hash ==> #[trigger] scratch_bit(start, k),
        decreases n - idx,
    {
        let word = idx / 64;
        let bit = 1u64 << ((idx % 64) as u64);
        proof {
            lemma_set_scratch_bit(found@, idx as int);
        }
        if found[word] & bit == 0 && hashes[idx] == hash {
            let (r, g) = set_fragment_bit(found, idx, remaining, Ghost(initial), Ghost(newly), Ghost(n));
            proof {
                assert(scratch_bit(found@, idx as int));
                assert forall|k: int| 0 <= k < 64 * initial.len() implies #[trigger] scratch_bit(found@, k) == (
                scratch_bit(start, k) || first_unset_with(start, hashes@, hash, k)) by {
                    assert(scratch_bit(found@, k) == (scratch_bit(start, k) || k == idx));
                    if first_unset_with(start, hashes@, hash, k) && k != idx {
                        if k < idx {
                            assert(scratch_bit(start, k));
                        } else {
                            assert(scratch_bit(start, idx as int));
                        }
                    }
                }
                assert forall|k: int| 0 <= k < 64 * initial.len() implies (scratch_bit(start, k)
                    ==> #[trigger] scratch_bit(found@, k)) && (scratch_bit(found@, k) ==> scratch_bit(
                    start,
                    k,
                ) || (k < hashes@.len() && hashes@[k] == hash)) by {
                    assert(scratch_bit(found@, k) == (scratch_bit(start, k) || k == idx));
                }
            }
            return (r, g);
        }
        idx = idx + 1;
    }
    proof {
        if exists|k: int| 0 <= k < hashes@.len() && hashes@[k] == hash {
            let k = choose|k: int| 0 <= k < hashes@.len() && hashes@[k] == hash;
            assert(scratch_bit(found@, k));
        }
        assert forall|k: int| 0 <= k < 64 * initial.len() implies #[trigger] scratch_bit(found@, k) == (
        scratch_bit(start, k) || first_unset_with(start, hashes@, hash, k)) by {
            if first_unset_with(start, hashes@, hash, k) {
                assert(scratch_bit(start, k));
            }
        }
    }
    (remaining, Ghost(newly))
}

/// Every window a wide scan covers is in a batch before the first block `t` whose
/// batch does not fit, or at or after `t`.
proof fn lemma_covered_split(len: int, lanes: int, t: int, p: int)
    requires
        1 <= lanes,
        t >= 0,
        t % wide_stride(len, lanes) == 0,
        t + lanes + 3 > len,
        t == 0 || t - wide_stride(len, lanes) + lanes + 3 <= len,
        wide_covered(len, lanes, p),
    ensures
        (p % wide_stride(len, lanes) < lanes && p - p % wide_stride(len, lanes) < t) || t <= p,
{
    let s = wide_stride(len, lanes);
    lemma_block_start(p, s);
    let o = p - p % s;
    if p % s < lanes && o + lanes + 3 <= len {
    } else {
        if o < t {
            lemma_multiples_apart(o, t, s);
        }
    }
}

/// A window at or after the first block whose batch does not fit is covered.
proof fn lemma_tail_covered(len: int, lanes: int, t: int, o: int)
    requires
        1 <= lanes,
        t >= 0,
        t % wide_stride(len, lanes) == 0,
        t + lanes + 3 > len,
        t <= o,
        o + 4 <= len,
    ensures
        wide_covered(len, lanes, o),
{
    let s = wide_stride(len, lanes);
    lemma_block_start(o, s);
    let b = o - o % s;
    if b < t {
        lemma_multiples_apart(b, t, s);
    }
}

/// The portable scan generalised to batches of `lanes` consecutive windows, as the
/// vector kernels do it: every stride-aligned block whose batch fits is checked on its
/// first `lanes` windows, then every remaining window one at a time. A batch finds
/// every fragment holding one of its hashes; a single window finds the first fragment
/// not found yet that holds its hash. The scan stops once every fragment is found.
fn scan_windows(
    buf: &[u8],
    hashes: &[u32],
    found: &mut [u64],
    mask: u32,
    lanes: usize,
    case_insensitive: bool,
)
    requires
        1 <= lanes <= 8,
        buf@.len() <= isize::MAX,
        hashes@.len() <= 64 * old(found)@.len(),
    ensures
        final(found)@.len() == old(found)@.len(),
        forall|j: int|
            0 <= j < 64 * old(found)@.len() ==> (scratch_bit(old(found)@, j) ==> #[trigger] scratch_bit(
                final(found)@,
                j,
            )) && (scratch_bit(final(found)@, j) ==> scratch_bit(old(found)@, j) || (j
                < hashes@.len() && wide_seen(buf@, mask, case_insensitive, lanes as int, hashes@[j]))),
        forall|j: int|
            0 <= j < hashes@.len() && wide_seen(
                buf@,
                mask,
                case_insensitive,
                lanes as int,
                #[trigger] hashes@[j],
            ) ==> hash_marked(final(found)@, hashes@, hashes@[j]),
        forall|j: int|
            0 <= j < hashes@.len() ==> #[trigger] scratch_bit(final(found)@, j) == wide_marks(
                old(found)@,
                buf@,
                hashes@,
                mask,
                case_insensitive,
                lanes as int,
                j,
            ),
{
    let ghost initial = found@;
    let ghost n = hashes@.len() as int;
    let ghost len = buf@.len() as int;
    let base = stride_heuristic(buf.len());
    let stride = if base < lanes {
        lanes
    } else {
        base
    };
    let read_extent = lanes + 3;
    let mut remaining = hashes.len();
    let ghost mut newly: Set<int> = Set::empty();
    let mut offset: usize = 0;
    let mut stop = false;
    let ghost mut bound: int = 0;
    proof {
        assert forall|j: int|
            0 <= j < n && !scratch_bit(initial, j) && batch_seen_upto(
                buf@,
                mask,
                case_insensitive,
                lanes as int,
                hashes@[j],
                0,
            ) implies #[trigger] scratch_bit(found@, j) by {
            let p = choose|p: int|
                batch_window(len, lanes as int, p) && p - p % (stride as int) < 0
                    && #[trigger] window_hash(buf@, p, mask, case_insensitive) == hashes@[j];
            lemma_block_start(p, stride as int);
        }
        lemma_int_range(0, n);
        assert forall|p: int, j: int|
            #![trigger window_hash(buf@, p, mask, case_insensitive), hashes@[j]]
            0 <= j < n && 0 <= p && p % (stride as int) < lanes && p - p % (stride as int) < 0
                && hashes@[j] == window_hash(buf@, p, mask, case_insensitive) implies hash_marked(
                found@,
                hashes@,
                hashes@[j],
            ) by {
            lemma_block_start(p, stride as int);
        }
    }
    while !stop && offset + read_extent <= buf.len()
        invariant
            1 <= lanes <= 8,
            read_extent == lanes + 3,
            len == buf@.len(),
            len <= isize::MAX,
            n == hashes@.len(),
            initial == old(found)@,
            stride == wide_stride(len, lanes as int),
            1 <= stride <= 64,
            offset % stride == 0,
            offset <= len + 64,
            offset == 0 || offset - stride + lanes + 3 <= len,
            scan_state(initial, found@, n, newly, remaining as int),
            forall|j: int|
                0 <= j < 64 * initial.len() && #[trigger] scratch_bit(found@, j) && !scratch_bit(
                    initial,
                    j,
                ) ==> wide_seen(buf@, mask, case_insensitive, lanes as int, hashes@[j]),
            stop ==> remaining == 0,
            !stop ==> forall|p: int, j: int|
                #![trigger window_hash(buf@, p, mask, case_insensitive), hashes@[j]]
                0 <= j < n && 0 <= p && p % (stride as int) < lanes && p - p % (stride as int)
                    < offset && hashes@[j] == window_hash(buf@, p, mask, case_insensitive)
                    ==> hash_marked(found@, hashes@, hashes@[j]),
            !stop ==> bound == offset,
            forall|j: int|
                0 <= j < n && !scratch_bit(initial, j) && #[trigger] scratch_bit(found@, j)
                    ==> batch_seen_upto(buf@, mask, case_insensitive, lanes as int, hashes@[j], bound),
            !stop ==> forall|j: int|
                0 <= j < n && !scratch_bit(initial, j) && batch_seen_upto(
                    buf@,
                    mask,
                    case_insensitive,
                    lanes as int,
                    hashes@[j],
                    bound,
                ) ==> #[trigger] scratch_bit(found@, j),
        decreases len + 65 - offset + (if stop {
            0int
        } else {
            1int
        }),
    {
        let lane = lane_hashes(buf, offset, lanes, mask, case_insensitive);
        let ghost before = found@;
        let ghost o = offset as int;
        let (r, g) = mark_batch(found, hashes, &lane, remaining, Ghost(initial), Ghost(newly));
        remaining = r;
        proof {
            newly = g@;
            assert forall|k: int| 0 <= k < lanes implies wide_covered(len, lanes as int, o + k)
                && #[trigger] lane@[k] == window_hash(buf@, o + k, mask, case_insensitive) by {
                lemma_offset_in_block(o, stride as int, k);
            }
            assert forall|j: int|
                0 <= j < 64 * initial.len() && #[trigger] scratch_bit(found@, j) && !scratch_bit(
                    initial,
                    j,
                ) implies wide_seen(buf@, mask, case_insensitive, lanes as int, hashes@[j]) by {
                if !scratch_bit(before, j) {
                    assert(j < n && lane@.contains(hashes@[j]));
                    let k = choose|k: int| 0 <= k < lane@.len() && lane@[k] == hashes@[j];
                    assert(wide_covered(len, lanes as int, o + k));
                    assert(window_hash(buf@, o + k, mask, case_insensitive) == hashes@[j]);
                }
            }
            let nb = o + stride as int;
            assert forall|j: int|
                0 <= j < n && !scratch_bit(initial, j) && #[trigger] scratch_bit(found@, j)
                    implies batch_seen_upto(buf@, mask, case_insensitive, lanes as int, hashes@[j], nb) by {
                if scratch_bit(before, j) {
                    let p = choose|p: int|
                        batch_window(len, lanes as int, p) && p - p % (stride as int) < bound
                            && #[trigger] window_hash(buf@, p, mask, case_insensitive) == hashes@[j];
                    assert(window_hash(buf@, p, mask, case_insensitive) == hashes@[j]);
                } else {
                    assert(lane@.contains(hashes@[j]));
                    let k = choose|k: int| 0 <= k < lane@.len() && lane@[k] == hashes@[j];
                    lemma_offset_in_block(o, stride as int, k);
                    assert(batch_window(len, lanes as int, o + k));
                    assert(window_hash(buf@, o + k, mask, case_insensitive) == hashes@[j]);
                }
            }
            assert forall|j: int|
                0 <= j < n && !scratch_bit(initial, j) && batch_seen_upto(
                    buf@,
                    mask,
                    case_insensitive,
                    lanes as int,
                    hashes@[j],
                    nb,
                ) implies #[trigger] scratch_bit(found@, j) by {
                let p = choose|p: int|
                    batch_window(len, lanes as int, p) && p - p % (stride as int) < nb
                        && #[trigger] window_hash(buf@, p, mask, case_insensitive) == hashes@[j];
                lemma_block_start(p, stride as int);
                let b = p - p % (stride as int);
                if b < o {
                    assert(window_hash(buf@, p, mask, case_insensitive) == hashes@[j]);
                    assert(batch_seen_upto(buf@, mask, case_insensitive, lanes as int, hashes@[j], bound));
                    assert(scratch_bit(before, j));
                } else {
                    if b > o {
                        lemma_multiples_apart(o, b, stride as int);
                    }
                    let k = p % (stride as int);
                    assert(lane@[k] == window_hash(buf@, o + k, mask, case_insensitive));
                    assert(lane@.contains(hashes@[j]));
                }
            }
            bound = nb;
        }
        if remaining == 0 {
            stop = true;
        } else {
            proof {
                assert forall|p: int, j: int|
                    #![trigger window_hash(buf@, p, mask, case_insensitive), hashes@[j]]
                    0 <= j < n && 0 <= p && p % (stride as int) < lanes && p - p % (stride as int)
                        < o + stride && hashes@[j] == window_hash(buf@, p, mask, case_insensitive)
                        implies hash_marked(found@, hashes@, hashes@[j]) by {
                    lemma_block_start(p, stride as int);
                    let b = p - p % (stride as int);
                    if b < o {
                        assert(hash_marked(before, hashes@, hashes@[j]));
                        let w = choose|w: int|
                            0 <= w < hashes@.len() && hashes@[w] == hashes@[j] && #[trigger] scratch_bit(
                                before,
                                w,
                            );
                        assert(scratch_bit(found@, w));
                    } else {
                        if b > o {
                            lemma_multiples_apart(o, b, stride as int);
                        }
                        let k = p % (stride as int);
                        assert(lane@[k] == window_hash(buf@, o + k, mask, case_insensitive));
                        assert(lane@.contains(hashes@[j]));
                        assert(scratch_bit(found@, j));
                    }
                }
            }
            proof {
                vstd::arithmetic::div_mod::lemma_mod_add_multiples_vanish(o, stride as int);
            }
            offset = offset + stride;
        }
    }
    let ghost t = offset as int;
    let ghost mut tb: int = t;
    proof {
        assert forall|j: int|
            0 <= j < n && !scratch_bit(initial, j) && #[trigger] scratch_bit(found@, j) implies (
            batch_seen(buf@, mask, case_insensitive, lanes as int, hashes@[j]) || rank_before(
                hashes@,
                initial,
                hashes@[j],
                j,
            ) < tail_hits(buf@, mask, case_insensitive, lanes as int, hashes@[j], tb)) by {
            let p = choose|p: int|
                batch_window(len, lanes as int, p) && p - p % (stride as int) < bound
                    && #[trigger] window_hash(buf@, p, mask, case_insensitive) == hashes@[j];
            assert(window_hash(buf@, p, mask, case_insensitive) == hashes@[j]);
        }
        if !stop {
            assert forall|j: int|
                0 <= j < n && !scratch_bit(initial, j) && (batch_seen(
                    buf@,
                    mask,
                    case_insensitive,
                    lanes as int,
                    hashes@[j],
                ) || rank_before(hashes@, initial, hashes@[j], j) < tail_hits(
                    buf@,
                    mask,
                    case_insensitive,
                    lanes as int,
                    hashes@[j],
                    tb,
                )) implies #[trigger] scratch_bit(found@, j) by {
                lemma_tail_hits_zero(buf@, mask, case_insensitive, lanes as int, hashes@[j], t, t);
                if batch_seen(buf@, mask, case_insensitive, lanes as int, hashes@[j]) {
                    let p = choose|p: int|
                        batch_window(len, lanes as int, p) && #[trigger] window_hash(
                            buf@,
                            p,
                            mask,
                            case_insensitive,
                        ) == hashes@[j];
                    assert(window_hash(buf@, p, mask, case_insensitive) == hashes@[j]);
                    assert(batch_seen_upto(buf@, mask, case_insensitive, lanes as int, hashes@[j], bound));
                }
            }
        }
    }
    if !stop {
        while !stop && offset + 4 <= buf.len()
            invariant
                1 <= lanes <= 8,
                len == buf@.len(),
                len <= isize::MAX,
                n == hashes@.len(),
                initial == old(found)@,
                stride == wide_stride(len, lanes as int),
                1 <= stride <= 64,
                t % (stride as int) == 0,
                t >= 0,
                t + lanes + 3 > len,
                t == 0 || t - stride + lanes + 3 <= len,
                t <= offset <= len + 64,
                scan_state(initial, found@, n, newly, remaining as int),
                forall|j: int|
                    0 <= j < 64 * initial.len() && #[trigger] scratch_bit(found@, j) && !scratch_bit(
                        initial,
                        j,
                    ) ==> wide_seen(buf@, mask, case_insensitive, lanes as int, hashes@[j]),
                stop ==> remaining == 0,
                !stop ==> forall|p: int, j: int|
                    #![trigger window_hash(buf@, p, mask, case_insensitive), hashes@[j]]
                    0 <= j < n && 0 <= p && ((p % (stride as int) < lanes && p - p % (stride as int)
                        < t) || (t <= p < offset)) && hashes@[j] == window_hash(
                        buf@,
                        p,
                        mask,
                        case_insensitive,
                    ) ==> hash_marked(found@, hashes@, hashes@[j]),
                !stop ==> tb == offset,
                t <= tb,
                forall|j: int|
                    0 <= j < n && !scratch_bit(initial, j) && #[trigger] scratch_bit(found@, j) ==> (
                    batch_seen(buf@, mask, case_insensitive, lanes as int, hashes@[j]) || rank_before(
                        hashes@,
                        initial,
                        hashes@[j],
                        j,
                    ) < tail_hits(buf@, mask, case_insensitive, lanes as int, hashes@[j], tb)),
                !stop ==> forall|j: int|
                    0 <= j < n && !scratch_bit(initial, j) && (batch_seen(
                        buf@,
                        mask,
                        case_insensitive,
                        lanes as int,
                        hashes@[j],
                    ) || rank_before(hashes@, initial, hashes@[j], j) < tail_hits(
                        buf@,
                        mask,
                        case_insensitive,
                        lanes as int,
                        hashes@[j],
                        tb,
                    )) ==> #[trigger] scratch_bit(found@, j),
            decreases len + 1 - offset + (if stop {
                0int
            } else {
                1int
            }),
        {
            let hash = tail_hash_at(buf, offset, mask, case_insensitive);
            let ghost before = found@;
            let ghost o = offset as int;
            let (r, g) = mark_tail_window(found, hashes, hash, remaining, Ghost(initial), Ghost(newly));
            remaining = r;
            proof {
                newly = g@;
                lemma_tail_covered(len, lanes as int, t, o);
                assert forall|j: int|
                    0 <= j < 64 * initial.len() && #[trigger] scratch_bit(found@, j) && !scratch_bit(
                        initial,
                        j,
                    ) implies wide_seen(buf@, mask, case_insensitive, lanes as int, hashes@[j]) by {
                    if !scratch_bit(before, j) {
                        assert(window_hash(buf@, o, mask, case_insensitive) == hashes@[j]);
                    }
                }
                let s = stride as int;
                lemma_block_start(o, s);
                let b = o - o % s;
                if b < t {
                    lemma_multiples_apart(b, t, s);
                }
                assert(tail_window(len, lanes as int, o));
                assert forall|j: int| 0 <= j < n && scratch_bit(initial, j) implies #[trigger] scratch_bit(
                    before,
                    j,
                ) by {}
                let seen = batch_seen(buf@, mask, case_insensitive, lanes as int, hash);
                let c = tail_hits(buf@, mask, case_insensitive, lanes as int, hash, o) as int;
                assert forall|j: int|
                    0 <= j < n && !scratch_bit(initial, j) && hashes@[j] == hash implies (#[trigger] scratch_bit(
                        before,
                        j,
                    ) <==> (seen || rank_before(hashes@, initial, hash, j) < c)) by {}
                assert forall|j: int| 0 <= j < n implies #[trigger] scratch_bit(found@, j) == (scratch_bit(
                    before,
                    j,
                ) || first_unset_with(before, hashes@, hash, j)) by {}
                lemma_tail_step(initial, before, found@, hashes@, hash, seen, c);
                assert forall|h: u32|
                    #[trigger] tail_hits(buf@, mask, case_insensitive, lanes as int, h, o + 1) == tail_hits(
                        buf@,
                        mask,
                        case_insensitive,
                        lanes as int,
                        h,
                        o,
                    ) + if h == hash {
                        1int
                    } else {
                        0int
                    } by {}
                assert forall|j: int|
                    0 <= j < n && !scratch_bit(initial, j) && #[trigger] scratch_bit(found@, j) implies (
                    batch_seen(buf@, mask, case_insensitive, lanes as int, hashes@[j]) || rank_before(
                        hashes@,
                        initial,
                        hashes@[j],
                        j,
                    ) < tail_hits(buf@, mask, case_insensitive, lanes as int, hashes@[j], o + 1)) by {
                    let hj = hashes@[j];
                    assert(tail_hits(buf@, mask, case_insensitive, lanes as int, hj, o + 1) == tail_hits(
                        buf@,
                        mask,
                        case_insensitive,
                        lanes as int,
                        hj,
                        o,
                    ) + if hj == hash {
                        1int
                    } else {
                        0int
                    });
                    if hj != hash {
                        assert(scratch_bit(before, j));
                    }
                }
                assert forall|j: int|
                    0 <= j < n && !scratch_bit(initial, j) && (batch_seen(
                        buf@,
                        mask,
                        case_insensitive,
                        lanes as int,
                        hashes@[j],
                    ) || rank_before(hashes@, initial, hashes@[j], j) < tail_hits(
                        buf@,
                        mask,
                        case_insensitive,
                        lanes as int,
                        hashes@[j],
                        o + 1,
                    )) implies #[trigger] scratch_bit(found@, j) by {
                    let hj = hashes@[j];
                    assert(tail_hits(buf@, mask, case_insensitive, lanes as int, hj, o + 1) == tail_hits(
                        buf@,
                        mask,
                        case_insensitive,
                        lanes as int,
                        hj,
                        o,
                    ) + if hj == hash {
                        1int
                    } else {
                        0int
                    });
                    if hj != hash {
                        assert(scratch_bit(before, j));
                    }
                }
                tb = o + 1;
            }
            if remaining == 0 {
                stop = true;
            } else {
                proof {
                    assert forall|p: int, j: int|
                        #![trigger window_hash(buf@, p, mask, case_insensitive), hashes@[j]]
                        0 <= j < n && 0 <= p && ((p % (stride as int) < lanes && p - p % (
                        stride as int) < t) || (t <= p < o + 1)) && hashes@[j] == window_hash(
                            buf@,
                            p,
                            mask,
                            case_insensitive,
                        ) implies hash_marked(found@, hashes@, hashes@[j]) by {
                        if p == o {
                            assert(exists|k: int| 0 <= k < hashes@.len() && hashes@[k] == hash);
                        } else {
                            assert(hash_marked(before, hashes@, hashes@[j]));
                            let w = choose|w: int|
                                0 <= w < hashes@.len() && hashes@[w] == hashes@[j]
                                    && #[trigger] scratch_bit(before, w);
                            assert(scratch_bit(found@, w));
                        }
                    }
                }
                offset = offset + 1;
            }
        }
    }
    proof {
        if stop {
            lemma_scan_done(initial, found@, n, newly);
        }
        assert forall|j: int|
            0 <= j < hashes@.len() && wide_seen(
                buf@,
                mask,
                case_insensitive,
                lanes as int,
                #[trigger] hashes@[j],
            ) implies hash_marked(found@, hashes@, hashes@[j]) by {
            if stop {
                assert(scratch_bit(found@, j));
            } else {
                let p = choose|p: int|
                    wide_covered(len, lanes as int, p) && #[trigger] window_hash(
                        buf@,
                        p,
                        mask,
                        case_insensitive,
                    ) == hashes@[j];
                lemma_covered_split(len, lanes as int, t, p);
                assert(window_hash(buf@, p, mask, case_insensitive) == hashes@[j]);
            }
        }
        assert forall|j: int|
            0 <= j < 64 * initial.len() implies (scratch_bit(initial, j) ==> #[trigger] scratch_bit(
                found@,
                j,
            )) && (scratch_bit(found@, j) ==> scratch_bit(initial, j) || (j < hashes@.len()
                && wide_seen(buf@, mask, case_insensitive, lanes as int, hashes@[j]))) by {
            if scratch_bit(found@, j) && !scratch_bit(initial, j) {
                assert(j < n);
            }
        }
        assert forall|j: int| 0 <= j < hashes@.len() implies #[trigger] scratch_bit(found@, j) == wide_marks(
            initial,
            buf@,
            hashes@,
            mask,
            case_insensitive,
            lanes as int,
            j,
        ) by {
            let hj = hashes@[j];
            if tb <= len {
                lemma_tail_hits_mono(buf@, mask, case_insensitive, lanes as int, hj, tb, len);
            } else {
                lemma_tail_hits_end(buf@, mask, case_insensitive, lanes as int, hj, tb);
            }
            if scratch_bit(initial, j) {
                assert(scratch_bit(found@, j));
            } else if stop {
                assert(scratch_bit(found@, j));
            } else {
                lemma_tail_hits_end(buf@, mask, case_insensitive, lanes as int, hj, tb);
                if wide_marks(initial, buf@, hashes@, mask, case_insensitive, lanes as int, j) {
                    assert(scratch_bit(found@, j));
                }
            }
        }
    }
}

/// What a wide presence scan leaves in the bitset. With at most 64 fragments the
/// first word is replaced by the fragments found (the other words are untouched);
/// with more, bits only get set, each for a fragment found. Either way every hash
/// that some covered window shows is marked on some fragment holding it, and exactly
/// the fragments of `wide_marks` are set, counted from a cleared word with at most 64
/// fragments and from the bits before with more.
pub open spec fn wide_presence(
    old: Seq<u64>,
    new: Seq<u64>,
    buf: Seq<u8>,
    hashes: Seq<u32>,
    mask: u32,
    case_insensitive: bool,
    lanes: int,
) -> bool {
    &&& new.len() == old.len()
    &&& hashes.len() <= 64 ==> {
        &&& forall|w: int| 1 <= w < old.len() ==> #[trigger] new[w] == old[w]
        &&& forall|j: int|
            0 <= j < 64 && #[trigger] scratch_bit(new, j) ==> j < hashes.len() && wide_seen(
                buf,
                mask,
                case_insensitive,
                lanes,
                hashes[j],
            )
    }
    &&& hashes.len() > 64 ==> forall|j: int|
        0 <= j < 64 * old.len() ==> (scratch_bit(old, j) ==> #[trigger] scratch_bit(new, j)) && (
        scratch_bit(new, j) ==> scratch_bit(old, j) || (j < hashes.len() && wide_seen(
            buf,
            mask,
            case_insensitive,
            lanes,
            hashes[j],
        )))
    &&& forall|j: int|
        0 <= j < hashes.len() && wide_seen(buf, mask, case_insensitive, lanes, #[trigger] hashes[j])
            ==> hash_marked(new, hashes, hashes[j])
    &&& forall|j: int|
        0 <= j < hashes.len() ==> #[trigger] scratch_bit(new, j) == wide_marks(
            if hashes.len() <= 64 {
                seq![0u64]
            } else {
                old
            },
            buf,
            hashes,
            mask,
            case_insensitive,
            lanes,
            j,
        )
}

/// With distinct fragment hashes a wide scan is exact: a fragment's bit is set
/// exactly when a covered window shows its hash (or, past 64 fragments, when it was
/// set before).
pub proof fn lemma_wide_presence_exact(
    old: Seq<u64>,
    new: Seq<u64>,
    buf: Seq<u8>,
    hashes: Seq<u32>,
    mask: u32,
    case_insensitive: bool,
    lanes: int,
)
    requires
        wide_presence(old, new, buf, hashes, mask, case_insensitive, lanes),
        hashes.no_duplicates(),
        hashes.len() <= 64 * old.len(),
    ensures
        forall|j: int|
            0 <= j < hashes.len() ==> #[trigger] scratch_bit(new, j) == ((hashes.len() > 64
                && scratch_bit(old, j)) || wide_seen(buf, mask, case_insensitive, lanes, hashes[j])),
{
    assert forall|j: int| 0 <= j < hashes.len() implies #[trigger] scratch_bit(new, j) == ((
    hashes.len() > 64 && scratch_bit(old, j)) || wide_seen(
        buf,
        mask,
        case_insensitive,
        lanes,
        hashes[j],
    )) by {
        if wide_seen(buf, mask, case_insensitive, lanes, hashes[j]) {
            let w = choose|w: int|
                0 <= w < hashes.len() && hashes[w] == hashes[j] && #[trigger] scratch_bit(new, w);
            assert(w == j);
        }
    }
}

proof fn lemma_zero_bits(j: int)
    requires
        0 <= j < 64,
    ensures
        !scratch_bit(seq![0u64], j),
{
    let b = j as u64;
    assert(!(((0u64 >> b) & 1) == 1)) by (bit_vector);
}

/// The batched kernel shared by the vector-width variants below.
fn check_fragment_presence_lanes(
    buf: &[u8],
    fragment_hashes: &[u32],
    fragment_presence_scratch: &mut [u64],
    mask: u32,
    lanes: usize,
    case_insensitive: bool,
)
    requires
        1 <= lanes <= 8,
        buf@.len() <= isize::MAX,
        fragment_hashes@.len() <= 64 * old(fragment_presence_scratch)@.len(),
        old(fragment_presence_scratch)@.len() >= 1,
    ensures
        wide_presence(
            old(fragment_presence_scratch)@,
            final(fragment_presence_scratch)@,
            buf@,
            fragment_hashes@,
            mask,
            case_insensitive,
            lanes as int,
        ),
{
    if fragment_hashes.len() <= 64 {
        let mut local: [u64; 1] = [0u64];
        proof {
            assert(local@ =~= seq![0u64]);
        }
        scan_windows(buf, fragment_hashes, &mut local, mask, lanes, case_insensitive);
        fragment_presence_scratch[0] = local[0];
        proof {
            assert forall|j: int| 0 <= j < 64 implies #[trigger] scratch_bit(
                fragment_presence_scratch@,
                j,
            ) == scratch_bit(local@, j) by {}
            assert forall|j: int| 0 <= j < fragment_hashes@.len() implies #[trigger] scratch_bit(
                fragment_presence_scratch@,
                j,
            ) == wide_marks(
                seq![0u64],
                buf@,
                fragment_hashes@,
                mask,
                case_insensitive,
                lanes as int,
                j,
            ) by {
                assert(scratch_bit(local@, j) == scratch_bit(fragment_presence_scratch@, j));
            }
            assert forall|j: int|
                0 <= j < 64 && #[trigger] scratch_bit(fragment_presence_scratch@, j) implies j
                < fragment_hashes@.len() && wide_seen(
                buf@,
                mask,
                case_insensitive,
                lanes as int,
                fragment_hashes@[j],
            ) by {
                lemma_zero_bits(j);
            }
            assert forall|j: int|
                0 <= j < fragment_hashes@.len() && wide_seen(
                    buf@,
                    mask,
                    case_insensitive,
                    lanes as int,
                    #[trigger] fragment_hashes@[j],
                ) implies hash_marked(
                fragment_presence_scratch@,
                fragment_hashes@,
                fragment_hashes@[j],
            ) by {
                let w = choose|w: int|
                    0 <= w < fragment_hashes@.len() && fragment_hashes@[w] == fragment_hashes@[j]
                        && #[trigger] scratch_bit(local@, w);
                assert(scratch_bit(fragment_presence_scratch@, w));
            }
        }
    } else {
        scan_windows(buf, fragment_hashes, fragment_presence_scratch, mask, lanes, case_insensitive);
    }
}

/// The kernels agree: on a buffer of at most 64 KiB (where the scalar scan looks at
/// every window), with distinct fragment hashes that are all in the index and a cleared
/// bitset, a wide kernel marks exactly the fragments the scalar scan marks.
pub proof fn lemma_kernels_agree(
    old: Seq<u64>,
    wide_new: Seq<u64>,
    scalar_new: Seq<u64>,
    buf: Seq<u8>,
    hashes: Seq<u32>,
    index: Set<u32>,
    mask: u32,
    case_insensitive: bool,
    lanes: int,
)
    requires
        buf.len() <= 65536,
        lanes >= 2,
        hashes.no_duplicates(),
        index == hashes.to_set(),
        hashes.len() <= 64 * old.len(),
        forall|j: int| 0 <= j < 64 * old.len() ==> !#[trigger] scratch_bit(old, j),
        wide_presence(old, wide_new, buf, hashes, mask, case_insensitive, lanes),
        scalar_presence(old, scalar_new, buf, hashes, index, mask, case_insensitive),
    ensures
        forall|j: int|
            0 <= j < 64 * old.len() ==> #[trigger] scratch_bit(wide_new, j) == scratch_bit(scalar_new, j),
        wide_new == scalar_new,
{
    lemma_wide_presence_exact(old, wide_new, buf, hashes, mask, case_insensitive, lanes);
    let len = buf.len() as int;
    assert forall|j: int| 0 <= j < 64 * old.len() implies #[trigger] scratch_bit(wide_new, j)
        == scratch_bit(scalar_new, j) by {
        assert(!scratch_bit(old, j));
        assert(scratch_bit(scalar_new, j) == (scratch_bit(old, j) || (j < hashes.len() && scalar_hit(
            buf,
            hashes,
            index,
            mask,
            case_insensitive,
            j,
        ))));
        if j < hashes.len() {
            let h = hashes[j];
            assert(index.contains(h));
            assert(first_index_of(hashes, j));
            if wide_seen(buf, mask, case_insensitive, lanes, h) {
                let p = choose|p: int|
                    wide_covered(len, lanes, p) && #[trigger] window_hash(buf, p, mask, case_insensitive) == h;
                assert(scalar_sampled(len, p));
                assert(scalar_seen_before(buf, mask, case_insensitive, h, len));
            }
            if scalar_seen_before(buf, mask, case_insensitive, h, len) {
                let p = choose|p: int|
                    scalar_sampled(len, p) && p < len && #[trigger] window_hash(buf, p, mask, case_insensitive) == h;
                assert(p % lanes < lanes);
                assert(wide_covered(len, lanes, p));
                assert(wide_seen(buf, mask, case_insensitive, lanes, h));
            }
        } else {
            if hashes.len() <= 64 && j >= 64 {
                assert(wide_new[j / 64] == old[j / 64]);
            }
        }
    }
    lemma_bits_determine_scratch(wide_new, scalar_new);
}

/// Whatever kernel the dispatch picks, it leaves the same words as the scalar scan, on a
/// buffer of at most 64 KiB with distinct fragment hashes that are all in the index and
/// a cleared bitset.
pub proof fn lemma_dispatch_matches_scalar(
    simd: SimdSupport,
    old: Seq<u64>,
    new: Seq<u64>,
    scalar_new: Seq<u64>,
    buf: Seq<u8>,
    hashes: Seq<u32>,
    index: Set<u32>,
    fragment_len: usize,
    case_insensitive: bool,
)
    requires
        buf.len() <= 65536,
        hashes.no_duplicates(),
        index == hashes.to_set(),
        hashes.len() <= 64 * old.len(),
        forall|j: int| 0 <= j < 64 * old.len() ==> !#[trigger] scratch_bit(old, j),
        presence_result(simd, old, new, buf, hashes, index, fragment_len, case_insensitive),
        scalar_presence(
            old,
            scalar_new,
            buf,
            hashes,
            index,
            spec_fragment_mask(fragment_len),
            case_insensitive,
        ),
    ensures
        new == scalar_new,
{
    let mask = spec_fragment_mask(fragment_len);
    if hashes.len() == 0 || buf.len() < 4 {
        assert forall|j: int| 0 <= j < 64 * old.len() implies #[trigger] scratch_bit(new, j)
            == scratch_bit(scalar_new, j) by {
            if j < hashes.len() && scalar_hit(buf, hashes, index, mask, case_insensitive, j) {
                let i = choose|i: int|
                    scalar_sampled(buf.len() as int, i) && i < buf.len() && #[trigger] window_hash(
                        buf,
                        i,
                        mask,
                        case_insensitive,
                    ) == hashes[j];
            }
        }
        lemma_bits_determine_scratch(new, scalar_new);
    } else if simd == SimdSupport::Avx2 && buf.len() >= 32 {
        lemma_kernels_agree(old, new, scalar_new, buf, hashes, index, mask, case_insensitive, 8);
    } else if simd == SimdSupport::Neon && buf.len() >= 16 {
        lemma_kernels_agree(old, new, scalar_new, buf, hashes, index, mask, case_insensitive, 4);
    } else {
        assert forall|j: int| 0 <= j < 64 * old.len() implies #[trigger] scratch_bit(new, j)
            == scratch_bit(scalar_new, j) by {}
        lemma_bits_determine_scratch(new, scalar_new);
    }
}

/// The 8-lane (AVX2-width) presence kernel, case-sensitive.
pub fn check_fragment_presence_avx2(
    buf: &[u8],
    fragment_hashes: &[u32],
    fragment_presence_scratch: &mut [u64],
    mask: u32,
)
    requires
        buf@.len() <= isize::MAX,
        fragment_hashes@.len() <= 64 * old(fragment_presence_scratch)@.len(),
        old(fragment_presence_scratch)@.len() >= 1,
    ensures
        wide_presence(
            old(fragment_presence_scratch)@,
            final(fragment_presence_scratch)@,
            buf@,
            fragment_hashes@,
            mask,
            false,
            8,
        ),
{
    check_fragment_presence_lanes(buf, fragment_hashes, fragment_presence_scratch, mask, 8, false)
}

/// The 8-lane (AVX2-width) presence kernel, folding ASCII case of the buffer.
pub fn check_fragment_presence_avx2_ci(
    buf: &[u8],
    fragment_hashes: &[u32],
    fragment_presence_scratch: &mut [u64],
    mask: u32,
)
    requires
        buf@.len() <= isize::MAX,
        fragment_hashes@.len() <= 64 * old(fragment_presence_scratch)@.len(),
        old(fragment_presence_scratch)@.len() >= 1,
    ensures
        wide_presence(
            old(fragment_presence_scratch)@,
            final(fragment_presence_scratch)@,
            buf@,
            fragment_hashes@,
            mask,
            true,
            8,
        ),
{
    check_fragment_presence_lanes(buf, fragment_hashes, fragment_presence_scratch, mask, 8, true)
}

/// The 4-lane (NEON-width) presence kernel, case-sensitive.
pub fn check_fragment_presence_neon(
    buf: &[u8],
    fragment_hashes: &[u32],
    fragment_presence_scratch: &mut [u64],
    mask: u32,
)
    requires
        buf@.len() <= isize::MAX,
        fragment_hashes@.len() <= 64 * old(fragment_presence_scratch)@.len(),
        old(fragment_presence_scratch)@.len() >= 1,
    ensures
        wide_presence(
            old(fragment_presence_scratch)@,
            final(fragment_presence_scratch)@,
            buf@,
            fragment_hashes@,
            mask,
            false,
            4,
        ),
{
    check_fragment_presence_lanes(buf, fragment_hashes, fragment_presence_scratch, mask, 4, false)
}

/// The 4-lane (NEON-width) presence kernel, folding ASCII case of the buffer.
pub fn check_fragment_presence_neon_ci(
    buf: &[u8],
    fragment_hashes: &[u32],
    fragment_presence_scratch: &mut [u64],
    mask: u32,
)
    requires
        buf@.len() <= isize::MAX,
        fragment_hashes@.len() <= 64 * old(fragment_presence_scratch)@.len(),
        old(fragment_presence_scratch)@.len() >= 1,
    ensures
        wide_presence(
            old(fragment_presence_scratch)@,
            final(fragment_presence_scratch)@,
            buf@,
            fragment_hashes@,
            mask,
            true,
            4,
        ),
{
    check_fragment_presence_lanes(buf, fragment_hashes, fragment_presence_scratch, mask, 4, true)
}

/// What the scalar scan leaves in the bitset: the bit of every fragment it hits is set,
/// and nothing else changes.
pub open spec fn scalar_presence(
    old: Seq<u64>,
    new: Seq<u64>,
    buf: Seq<u8>,
    hashes: Seq<u32>,
    index: Set<u32>,
    mask: u32,
    case_insensitive: bool,
) -> bool {
    &&& new.len() == old.len()
    &&& forall|j: int|
        0 <= j < 64 * old.len() ==> #[trigger] scratch_bit(new, j) == (scratch_bit(old, j) || (j
            < hashes.len() && scalar_hit(buf, hashes, index, mask, case_insensitive, j)))
}

/// The vector unit the presence scan may use.
#[derive(Clone, Copy, PartialEq, Eq, Structural, Debug)]
pub enum SimdSupport {
    Avx2,
    Neon,
    Portable,
}

/// What `check_fragment_presence_with` leaves in the bitset for a given vector unit.
pub open spec fn presence_result(
    simd: SimdSupport,
    old: Seq<u64>,
    new: Seq<u64>,
    buf: Seq<u8>,
    hashes: Seq<u32>,
    index: Set<u32>,
    fragment_len: usize,
    case_insensitive: bool,
) -> bool {
    let mask = spec_fragment_mask(fragment_len);
    if hashes.len() == 0 || buf.len() < 4 {
        new == old
    } else if simd == SimdSupport::Avx2 && buf.len() >= 32 {
        wide_presence(old, new, buf, hashes, mask, case_insensitive, 8)
    } else if simd == SimdSupport::Neon && buf.len() >= 16 {
        wide_presence(old, new, buf, hashes, mask, case_insensitive, 4)
    } else {
        scalar_presence(old, new, buf, hashes, index, mask, case_insensitive)
    }
}

/// Record, for each fragment hash, whether the buffer shows it; the vector kernels are
/// used for buffers long enough for one batch, the scalar scan otherwise.
pub fn check_fragment_presence_with(
    simd: SimdSupport,
    buf: &[u8],
    fragment_hashes: &[u32],
    fragment_presence_scratch: &mut [u64],
    fragment_index: &IntSet<u32>,
    fragment_len: usize,
    case_insensitive: bool,
)
    requires
        buf@.len() <= isize::MAX,
        fragment_hashes@.len() <= 64 * old(fragment_presence_scratch)@.len(),
    ensures
        presence_result(
            simd,
            old(fragment_presence_scratch)@,
            final(fragment_presence_scratch)@,
            buf@,
            fragment_hashes@,
            fragment_index@,
            fragment_len,
            case_insensitive,
        ),
{
    if fragment_hashes.len() == 0 {
        return ;
    }
    if buf.len() < 4 {
        return ;
    }
    let mask = fragment_mask_u32(fragment_len);
    if simd == SimdSupport::Avx2 && buf.len() >= 32 {
        if case_insensitive {
            check_fragment_presence_avx2_ci(buf, fragment_hashes, fragment_presence_scratch, mask);
        } else {
            check_fragment_presence_avx2(buf, fragment_hashes, fragment_presence_scratch, mask);
        }
        return ;
    }
    if simd == SimdSupport::Neon && buf.len() >= 16 {
        if case_insensitive {
            check_fragment_presence_neon_ci(buf, fragment_hashes, fragment_presence_scratch, mask);
        } else {
            check_fragment_presence_neon(buf, fragment_hashes, fragment_presence_scratch, mask);
        }
        return ;
    }
    check_fragment_presence_scalar(
        buf,
        fragment_hashes,
        fragment_presence_scratch,
        fragment_index,
        mask,
        case_insensitive,
    );
}

/// Record, for each fragment hash, whether the buffer shows it, with the portable scan
/// (the vector kernels are chosen by `check_fragment_presence_with`, given what the
/// machine supports).
pub fn check_fragment_presence(
    buf: &[u8],
    fragment_hashes: &[u32],
    fragment_presence_scratch: &mut [u64],
    fragment_index: &IntSet<u32>,
    fragment_len: usize,
    case_insensitive: bool,
)
    requires
        buf@.len() <= isize::MAX,
        fragment_hashes@.len() <= 64 * old(fragment_presence_scratch)@.len(),
    ensures
        presence_result(
            SimdSupport::Portable,
            old(fragment_presence_scratch)@,
            final(fragment_presence_scratch)@,
            buf@,
            fragment_hashes@,
            fragment_index@,
            fragment_len,
            case_insensitive,
        ),
{
    check_fragment_presence_with(
        SimdSupport::Portable,
        buf,
        fragment_hashes,
        fragment_presence_scratch,
        fragment_index,
        fragment_len,
        case_insensitive,
    )
}

/// `pattern` occurs in `buf` at `q`; when case-insensitive, the pattern is given
/// lowercased and occurs in the ASCII-lowercased buffer.
pub open spec fn occurs_at(buf: Seq<u8>, pattern: Seq<u8>, q: int, case_insensitive: bool) -> bool {
    &&& 0 <= q
    &&& q + pattern.len() <= buf.len()
    &&& if case_insensitive {
        lower_bytes(buf.subrange(q, q + pattern.len() as int)) == pattern
    } else {
        buf.subrange(q, q + pattern.len() as int) == pattern
    }
}

/// The window of an occurrence at the position of one of its fragments hashes to that
/// fragment's hash, whenever the window's four bytes lie in the buffer.
pub proof fn lemma_occurrence_window(
    buf: Seq<u8>,
    pattern: Seq<u8>,
    fragment_len: usize,
    q: int,
    case_insensitive: bool,
    i: int,
)
    requires
        1 <= fragment_len <= 4,
        occurs_at(buf, pattern, q, case_insensitive),
        0 <= i,
        i + fragment_len <= pattern.len(),
        q + i + 4 <= buf.len(),
    ensures
        window_hash(buf, q + i, spec_fragment_mask(fragment_len), case_insensitive)
            == pattern_fragment_hash(pattern, i, fragment_len as int),
{
    let p = q + i;
    let (b0, b1, b2, b3) = (buf[p], buf[p + 1], buf[p + 2], buf[p + 3]);
    let frag = pattern.subrange(i, i + fragment_len);
    if case_insensitive {
        lemma_lower_window(b0, b1, b2, b3);
        let (l0, l1, l2, l3) = (lower_byte(b0), lower_byte(b1), lower_byte(b2), lower_byte(b3));
        lemma_masked_window_matches_padded_fragment(l0, l1, l2, l3, fragment_len);
        assert forall|k: int| 0 <= k < fragment_len implies frag[k] == seq![l0, l1, l2, l3][k] by {
            assert(pattern[i + k] == lower_bytes(buf.subrange(q, q + pattern.len() as int))[i
                + k]);
        }
        assert(seq![l0, l1, l2, l3].subrange(0, fragment_len as int) =~= frag);
    } else {
        lemma_masked_window_matches_padded_fragment(b0, b1, b2, b3, fragment_len);
        assert forall|k: int| 0 <= k < fragment_len implies frag[k] == seq![b0, b1, b2, b3][k] by {
            assert(pattern[i + k] == buf.subrange(q, q + pattern.len() as int)[i + k]);
        }
        assert(seq![b0, b1, b2, b3].subrange(0, fragment_len as int) =~= frag);
    }
}

/// Every window of an occurrence whose four bytes lie in the buffer shows the hash of
/// the fragment at its position; so every fragment of the pattern is shown.
pub(crate) proof fn lemma_occurrence_shows_fragments(
    buf: Seq<u8>,
    pattern: Seq<u8>,
    fragment_len: usize,
    q: int,
    case_insensitive: bool,
    h: u32,
) -> (i: int)
    requires
        1 <= fragment_len <= 4,
        pattern.len() >= fragment_len,
        occurs_at(buf, pattern, q, case_insensitive),
        q + pattern.len() - fragment_len + 4 <= buf.len(),
        pattern_fragments(pattern, fragment_len as int).contains(h),
    ensures
        0 <= q + i,
        q + i + 4 <= buf.len(),
        window_hash(buf, q + i, spec_fragment_mask(fragment_len), case_insensitive) == h,
{
    lemma_dedup_in_order(pattern_window_hashes(pattern, fragment_len as int));
    let all = pattern_window_hashes(pattern, fragment_len as int);
    assert(dedup_in_order(all).contains(h));
    assert(all.contains(h));
    let i = choose|i: int| 0 <= i < all.len() && all[i] == h;
    lemma_occurrence_window(buf, pattern, fragment_len, q, case_insensitive, i);
    i
}

/// Completeness of the scalar scan on small buffers: if the pattern occurs in a buffer
/// of at most 64 KiB, with the four-byte window of its last fragment inside the buffer,
/// and the fragments of the pattern are scanned for with an index that knows them all,
/// every fragment's bit ends up set.
pub proof fn lemma_scalar_scan_finds_occurrence(
    old: Seq<u64>,
    new: Seq<u64>,
    buf: Seq<u8>,
    pattern: Seq<u8>,
    fragment_len: usize,
    q: int,
    case_insensitive: bool,
    index: Set<u32>,
)
    requires
        buf.len() <= 65536,
        1 <= fragment_len <= 4,
        pattern.len() >= fragment_len,
        occurs_at(buf, pattern, q, case_insensitive),
        q + pattern.len() - fragment_len + 4 <= buf.len(),
        pattern_fragments(pattern, fragment_len as int).to_set().subset_of(index),
        pattern_fragments(pattern, fragment_len as int).len() <= 64 * old.len(),
        scalar_presence(
            old,
            new,
            buf,
            pattern_fragments(pattern, fragment_len as int),
            index,
            spec_fragment_mask(fragment_len),
            case_insensitive,
        ),
    ensures
        forall|j: int|
            0 <= j < pattern_fragments(pattern, fragment_len as int).len() ==> #[trigger] scratch_bit(
                new,
                j,
            ),
{
    let hashes = pattern_fragments(pattern, fragment_len as int);
    let mask = spec_fragment_mask(fragment_len);
    lemma_dedup_in_order(pattern_window_hashes(pattern, fragment_len as int));
    assert forall|j: int| 0 <= j < hashes.len() implies #[trigger] scratch_bit(new, j) by {
        let i = lemma_occurrence_shows_fragments(buf, pattern, fragment_len, q, case_insensitive, hashes[j]);
        assert(scalar_sampled(buf.len() as int, q + i));
        assert(scalar_seen_before(buf, mask, case_insensitive, hashes[j], buf.len() as int));
        assert(hashes.to_set().contains(hashes[j]));
        assert(first_index_of(hashes, j));
        assert(scalar_hit(buf, hashes, index, mask, case_insensitive, j));
    }
}

/// Completeness of the wide kernels on small buffers: on a buffer of at most 64 KiB
/// every window is covered, so an occurrence (with the window of its last fragment
/// inside the buffer) sets the bit of every fragment of the pattern.
pub proof fn lemma_wide_scan_finds_occurrence(
    old: Seq<u64>,
    new: Seq<u64>,
    buf: Seq<u8>,
    pattern: Seq<u8>,
    fragment_len: usize,
    q: int,
    case_insensitive: bool,
    lanes: int,
)
    requires
        buf.len() <= 65536,
        1 <= lanes,
        1 <= fragment_len <= 4,
        pattern.len() >= fragment_len,
        occurs_at(buf, pattern, q, case_insensitive),
        q + pattern.len() - fragment_len + 4 <= buf.len(),
        pattern_fragments(pattern, fragment_len as int).len() <= 64 * old.len(),
        wide_presence(
            old,
            new,
            buf,
            pattern_fragments(pattern, fragment_len as int),
            spec_fragment_mask(fragment_len),
            case_insensitive,
            lanes,
        ),
    ensures
        forall|j: int|
            0 <= j < pattern_fragments(pattern, fragment_len as int).len() ==> #[trigger] scratch_bit(
                new,
                j,
            ),
{
    let hashes = pattern_fragments(pattern, fragment_len as int);
    let mask = spec_fragment_mask(fragment_len);
    lemma_dedup_in_order(pattern_window_hashes(pattern, fragment_len as int));
    lemma_wide_presence_exact(old, new, buf, hashes, mask, case_insensitive, lanes);
    assert forall|j: int| 0 <= j < hashes.len() implies #[trigger] scratch_bit(new, j) by {
        let i = lemma_occurrence_shows_fragments(buf, pattern, fragment_len, q, case_insensitive, hashes[j]);
        lemma_block_start(q + i, lanes);
        assert(wide_covered(buf.len() as int, lanes, q + i));
        assert(wide_seen(buf, mask, case_insensitive, lanes, hashes[j]));
    }
}

/// A window sampled before `cur + stride` is sampled before `cur`, or is `cur` itself.
proof fn lemma_seen_step(buf: Seq<u8>, mask: u32, case_insensitive: bool, cur: int, stride: int)
    requires
        stride == spec_stride(buf.len() as int),
        cur >= 0,
        cur % stride == 0,
        cur + 4 <= buf.len(),
    ensures
        forall|h: u32|
            scalar_seen_before(buf, mask, case_insensitive, h, cur + stride) <==> (
            scalar_seen_before(buf, mask, case_insensitive, h, cur) || window_hash(
                buf,
                cur,
                mask,
                case_insensitive,
            ) == h),
{
    assert forall|h: u32|
        scalar_seen_before(buf, mask, case_insensitive, h, cur + stride) <==> (scalar_seen_before(
            buf,
            mask,
            case_insensitive,
            h,
            cur,
        ) || window_hash(buf, cur, mask, case_insensitive) == h) by {
        if scalar_seen_before(buf, mask, case_insensitive, h, cur + stride) {
            let w = choose|w: int|
                scalar_sampled(buf.len() as int, w) && w < cur + stride && #[trigger] window_hash(
                    buf,
                    w,
                    mask,
                    case_insensitive,
                ) == h;
            if w > cur {
                lemma_multiples_apart(cur, w, stride);
            }
        }
        if window_hash(buf, cur, mask, case_insensitive) == h {
            assert(scalar_sampled(buf.len() as int, cur));
        }
    }
}

/// One scanned window marks at most the first fragment holding its hash.
proof fn lemma_hit_step(
    buf: Seq<u8>,
    hashes: Seq<u32>,
    index: Set<u32>,
    mask: u32,
    case_insensitive: bool,
    cur: int,
    next: int,
    hash: u32,
    done: bool,
    idx: int,
)
    requires
        hash == window_hash(buf, cur, mask, case_insensitive),
        forall|h: u32|
            scalar_seen_before(buf, mask, case_insensitive, h, next) <==> (scalar_seen_before(
                buf,
                mask,
                case_insensitive,
                h,
                cur,
            ) || window_hash(buf, cur, mask, case_insensitive) == h),
        done ==> index.contains(hash) && 0 <= idx < hashes.len() && hashes[idx] == hash && forall|
            k: int,
        | 0 <= k < idx ==> hashes[k] != hash,
        !done ==> !index.contains(hash) || forall|k: int| 0 <= k < hashes.len() ==> hashes[k] != hash,
    ensures
        forall|j: int|
            0 <= j < hashes.len() ==> #[trigger] scalar_hit_before(
                buf,
                hashes,
                index,
                mask,
                case_insensitive,
                j,
                next,
            ) == (scalar_hit_before(buf, hashes, index, mask, case_insensitive, j, cur) || (done
                && j == idx)),
{
    assert forall|j: int| 0 <= j < hashes.len() implies #[trigger] scalar_hit_before(
        buf,
        hashes,
        index,
        mask,
        case_insensitive,
        j,
        next,
    ) == (scalar_hit_before(buf, hashes, index, mask, case_insensitive, j, cur) || (done && j
        == idx)) by {
        if done && first_index_of(hashes, j) && hashes[j] == hash && j != idx {
            if j < idx {
                assert(hashes[j] != hash);
            } else {
                assert(hashes[idx] != hashes[j]);
            }
        }
        if done && j == idx {
            assert(first_index_of(hashes, j));
        }
    }
}

/// Within a stride-aligned block, the remainder is the offset into the block.
proof fn lemma_offset_in_block(o: int, s: int, k: int)
    requires
        s > 0,
        o >= 0,
        o % s == 0,
        0 <= k < s,
    ensures
        (o + k) % s == k,
        (o + k) - (o + k) % s == o,
{
    vstd::arithmetic::div_mod::lemma_fundamental_div_mod(o, s);
    let q = o / s;
    vstd::arithmetic::div_mod::lemma_mod_multiples_vanish(q, k, s);
    vstd::arithmetic::div_mod::lemma_small_mod(k as nat, s as nat);
    assert(o == s * q);
    assert((s * q + k) % s == k % s);
}

/// The start of the stride-aligned block holding `p` is a multiple of the stride.
proof fn lemma_block_start(p: int, s: int)
    requires
        s > 0,
        p >= 0,
    ensures
        (p - p % s) % s == 0,
        0 <= p % s < s,
        p - p % s >= 0,
{
    vstd::arithmetic::div_mod::lemma_fundamental_div_mod(p, s);
    let q = p / s;
    assert(p - p % s == s * q);
    vstd::arithmetic::div_mod::lemma_mod_multiples_basic(q, s);
    assert((q * s) % s == 0);
    vstd::arithmetic::mul::lemma_mul_is_commutative(q, s);
    vstd::arithmetic::div_mod::lemma_mod_bound(p, s);
    vstd::arithmetic::div_mod::lemma_mod_pos_bound(p, s);
}

proof fn lemma_multiples_apart(a: int, b: int, s: int)
    requires
        s > 0,
        a >= 0,
        b > a,
        a % s == 0,
        b % s == 0,
    ensures
        b >= a + s,
{
    assert(b >= a + s) by (nonlinear_arith)
        requires
            s > 0,
            a >= 0,
            b > a,
            a % s == 0,
            b % s == 0,
    {
        let qa = a / s;
        let qb = b / s;
        assert(a == s * qa);
        assert(b == s * qb);
        assert(qb > qa);
    }
}

proof fn lemma_hit_before_implies_hit(
    buf: Seq<u8>,
    hashes: Seq<u32>,
    index: Set<u32>,
    mask: u32,
    case_insensitive: bool,
    j: int,
    limit: int,
)
    ensures
        scalar_hit_before(buf, hashes, index, mask, case_insensitive, j, limit) ==> scalar_hit(
            buf,
            hashes,
            index,
            mask,
            case_insensitive,
            j,
        ),
{
    if scalar_hit_before(buf, hashes, index, mask, case_insensitive, j, limit) {
        let w = choose|w: int|
            scalar_sampled(buf.len() as int, w) && w < limit && #[trigger] window_hash(
                buf,
                w,
                mask,
                case_insensitive,
            ) == hashes[j];
        assert(scalar_sampled(buf.len() as int, w) && w < buf.len());
    }
}

} // verus!
