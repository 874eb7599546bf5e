//! Sorted lookup tables of short names: names of up to 8 bytes are packed into a `u64`
//! key, names of 9 to 16 bytes into a `u128` key, both tables sorted and binary
//! searched; longer names are compared byte for byte.
use vstd::prelude::*;
use vstd::string::StringSliceAdditionalSpecFns;

verus! {

/// The little-endian integer whose bytes are `s`, first byte least significant.
pub open spec fn le_key(s: Seq<u8>) -> int
    decreases s.len(),
{
    if s.len() == 0 {
        0
    } else {
        s[0] + 256 * le_key(s.drop_first())
    }
}

/// `256` to the power `n`: the first value a key of `n` bytes cannot reach.
pub open spec fn key_bound(n: nat) -> int
    decreases n,
{
    if n == 0 {
        1
    } else {
        256 * key_bound((n - 1) as nat)
    }
}

proof fn lemma_le_key_bound(s: Seq<u8>)
    ensures
        0 <= le_key(s) < key_bound(s.len()),
    decreases s.len(),
{
    if s.len() > 0 {
        lemma_le_key_bound(s.drop_first());
    }
}

proof fn lemma_key_bound_mono(a: nat, b: nat)
    requires
        a <= b,
    ensures
        1 <= key_bound(a) <= key_bound(b),
    decreases b,
{
    if a < b {
        lemma_key_bound_mono(a, (b - 1) as nat);
    } else if a > 0 {
        lemma_key_bound_mono((a - 1) as nat, (a - 1) as nat);
    }
}

proof fn lemma_key_bounds()
    ensures
        key_bound(8) == 0x1_0000_0000_0000_0000,
        key_bound(16) == 0x1_0000_0000_0000_0000_0000_0000_0000_0000,
{
    reveal_with_fuel(key_bound, 17);
}

/// The key of `s` is its first byte plus 256 times the key of the rest.
proof fn lemma_le_key_front(s: Seq<u8>, i: int)
    requires
        0 <= i < s.len(),
    ensures
        le_key(s.subrange(i, s.len() as int)) == s[i] + 256 * le_key(s.subrange(i + 1, s.len() as int)),
{
    assert(s.subrange(i, s.len() as int).drop_first() =~= s.subrange(i + 1, s.len() as int));
}

/// Pack up to 8 bytes into a zero-extended `u64`, first byte least significant.
pub fn const_pack64(bytes: &[u8]) -> (r: u64)
    requires
        bytes@.len() <= 8,
    ensures
        r == le_key(bytes@),
{
    let n = bytes.len();
    let mut key: u64 = 0;
    let mut i: usize = n;
    assert(bytes@.subrange(n as int, n as int) =~= Seq::<u8>::empty());
    while i > 0
        invariant
            n == bytes@.len() <= 8,
            i <= n,
            key == le_key(bytes@.subrange(i as int, n as int)),
        decreases i,
    {
        proof {
            lemma_le_key_front(bytes@, i - 1);
            lemma_le_key_bound(bytes@.subrange(i as int, n as int));
            lemma_key_bound_mono((n - i) as nat, 7);
            lemma_key_bounds();
            assert(key_bound(8) == 256 * key_bound(7));
        }
        key = key * 256 + bytes[i - 1] as u64;
        i = i - 1;
    }
    assert(bytes@.subrange(0, n as int) =~= bytes@);
    key
}

/// Pack up to 16 bytes into a zero-extended `u128`, first byte least significant.
pub fn const_pack128(bytes: &[u8]) -> (r: u128)
    requires
        bytes@.len() <= 16,
    ensures
        r == le_key(bytes@),
{
    let n = bytes.len();
    let mut key: u128 = 0;
    let mut i: usize = n;
    assert(bytes@.subrange(n as int, n as int) =~= Seq::<u8>::empty());
    while i > 0
        invariant
            n == bytes@.len() <= 16,
            i <= n,
            key == le_key(bytes@.subrange(i as int, n as int)),
        decreases i,
    {
        proof {
            lemma_le_key_front(bytes@, i - 1);
            lemma_le_key_bound(bytes@.subrange(i as int, n as int));
            lemma_key_bound_mono((n - i) as nat, 15);
            lemma_key_bounds();
            assert(key_bound(16) == 256 * key_bound(15));
        }
        key = key * 256 + bytes[i - 1] as u128;
        i = i - 1;
    }
    assert(bytes@.subrange(0, n as int) =~= bytes@);
    key
}

/// The little-endian 2-byte word at `at`.
fn load_u16_le(b: &[u8], at: usize) -> (r: u64)
    requires
        at + 2 <= b@.len(),
    ensures
        r == b@[at as int] + 256 * (b@[at + 1]),
{
    let x0 = b[at] as u64;
    let x1 = b[at + 1] as u64;
    let r = x0 | (x1 << 8);
    assert(r == x0 + 256 * (x1)) by (bit_vector)
        requires
            x0 < 256,
            x1 < 256,
            r == x0 | (x1 << 8),
    ;
    r
}

/// The little-endian 4-byte word at `at`.
fn load_u32_le(b: &[u8], at: usize) -> (r: u64)
    requires
        at + 4 <= b@.len(),
    ensures
        r == b@[at as int] + 256 * (b@[at + 1] + 256 * (b@[at + 2] + 256 * (b@[at + 3]))),
{
    let x0 = b[at] as u64;
    let x1 = b[at + 1] as u64;
    let x2 = b[at + 2] as u64;
    let x3 = b[at + 3] as u64;
    let r = x0 | (x1 << 8) | (x2 << 16) | (x3 << 24);
    assert(r == x0 + 256 * (x1 + 256 * (x2 + 256 * (x3)))) by (bit_vector)
        requires
            x0 < 256,
            x1 < 256,
            x2 < 256,
            x3 < 256,
            r == x0 | (x1 << 8) | (x2 << 16) | (x3 << 24),
    ;
    r
}

/// The little-endian 8-byte word at `at`.
fn load_u64_le(b: &[u8], at: usize) -> (r: u64)
    requires
        at + 8 <= b@.len(),
    ensures
        r == b@[at as int] + 256 * (b@[at + 1] + 256 * (b@[at + 2] + 256 * (b@[at + 3] + 256 * (b@[at + 4] + 256 * (b@[at + 5] + 256 * (b@[at + 6] + 256 * (b@[at + 7]))))))),
{
    let x0 = b[at] as u64;
    let x1 = b[at + 1] as u64;
    let x2 = b[at + 2] as u64;
    let x3 = b[at + 3] as u64;
    let x4 = b[at + 4] as u64;
    let x5 = b[at + 5] as u64;
    let x6 = b[at + 6] as u64;
    let x7 = b[at + 7] as u64;
    let r = x0 | (x1 << 8) | (x2 << 16) | (x3 << 24) | (x4 << 32) | (x5 << 40) | (x6 << 48) | (x7 << 56);
    assert(r == x0 + 256 * (x1 + 256 * (x2 + 256 * (x3 + 256 * (x4 + 256 * (x5 + 256 * (x6 + 256 * (x7)))))))) by (bit_vector)
        requires
            x0 < 256,
            x1 < 256,
            x2 < 256,
            x3 < 256,
            x4 < 256,
            x5 < 256,
            x6 < 256,
            x7 < 256,
            r == x0 | (x1 << 8) | (x2 << 16) | (x3 << 24) | (x4 << 32) | (x5 << 40) | (x6 << 48) | (x7 << 56),
    ;
    r
}


/// Pack 1 to 8 bytes into a zero-extended `u64`, first byte least significant, with
/// at most two (overlapping) little-endian word loads; agrees with `const_pack64`.
pub fn pack8(input: &[u8]) -> (r: u64)
    requires
        1 <= input@.len() <= 8,
    ensures
        r == le_key(input@),
{
    let len = input.len();
    if len == 8 {
        let r = load_u64_le(input, 0);
        proof {
            lemma_le_key_front(input@, 0);
            lemma_le_key_front(input@, 1);
            lemma_le_key_front(input@, 2);
            lemma_le_key_front(input@, 3);
            lemma_le_key_front(input@, 4);
            lemma_le_key_front(input@, 5);
            lemma_le_key_front(input@, 6);
            lemma_le_key_front(input@, 7);
            assert(input@.subrange(8, 8) =~= Seq::<u8>::empty());
            assert(input@.subrange(0, 8) =~= input@);
        }
        r
    } else if len >= 4 {
        let lo = load_u32_le(input, 0);
        if len == 4 {
            proof {
                lemma_le_key_front(input@, 0);
                lemma_le_key_front(input@, 1);
                lemma_le_key_front(input@, 2);
                lemma_le_key_front(input@, 3);
                assert(input@.subrange(4, 4) =~= Seq::<u8>::empty());
                assert(input@.subrange(0, 4) =~= input@);
            }
            lo
        } else {
            let hi = load_u32_le(input, len - 4);
            let r = lo | (hi << ((len - 4) * 8));
            proof {
                if len == 5 {
                    lemma_le_key_front(input@, 0);
                    lemma_le_key_front(input@, 1);
                    lemma_le_key_front(input@, 2);
                    lemma_le_key_front(input@, 3);
                    lemma_le_key_front(input@, 4);
                    assert(input@.subrange(5, 5) =~= Seq::<u8>::empty());
                    assert(input@.subrange(0, 5) =~= input@);
                    let x0: u64 = input@[0] as u64;
                    let x1: u64 = input@[1] as u64;
                    let x2: u64 = input@[2] as u64;
                    let x3: u64 = input@[3] as u64;
                    let x4: u64 = input@[4] as u64;
                    assert(r == x0 + 256 * (x1 + 256 * (x2 + 256 * (x3 + 256 * (x4))))) by (bit_vector)
                        requires
                            x0 < 256,
                            x1 < 256,
                            x2 < 256,
                            x3 < 256,
                            x4 < 256,
                            lo == x0 + 256 * (x1 + 256 * (x2 + 256 * (x3))),
                            hi == x1 + 256 * (x2 + 256 * (x3 + 256 * (x4))),
                            r == lo | (hi << 8u64),
                    ;
                } else if len == 6 {
                    lemma_le_key_front(input@, 0);
                    lemma_le_key_front(input@, 1);
                    lemma_le_key_front(input@, 2);
                    lemma_le_key_front(input@, 3);
                    lemma_le_key_front(input@, 4);
                    lemma_le_key_front(input@, 5);
                    assert(input@.subrange(6, 6) =~= Seq::<u8>::empty());
                    assert(input@.subrange(0, 6) =~= input@);
                    let x0: u64 = input@[0] as u64;
                    let x1: u64 = input@[1] as u64;
                    let x2: u64 = input@[2] as u64;
                    let x3: u64 = input@[3] as u64;
                    let x4: u64 = input@[4] as u64;
                    let x5: u64 = input@[5] as u64;
                    assert(r == x0 + 256 * (x1 + 256 * (x2 + 256 * (x3 + 256 * (x4 + 256 * (x5)))))) by (bit_vector)
                        requires
                            x0 < 256,
                            x1 < 256,
                            x2 < 256,
                            x3 < 256,
                            x4 < 256,
                            x5 < 256,
                            lo == x0 + 256 * (x1 + 256 * (x2 + 256 * (x3))),
                            hi == x2 + 256 * (x3 + 256 * (x4 + 256 * (x5))),
                            r == lo | (hi << 16u64),
                    ;
                } else if len == 7 {
                    lemma_le_key_front(input@, 0);
                    lemma_le_key_front(input@, 1);
                    lemma_le_key_front(input@, 2);
                    lemma_le_key_front(input@, 3);
                    lemma_le_key_front(input@, 4);
                    lemma_le_key_front(input@, 5);
                    lemma_le_key_front(input@, 6);
                    assert(input@.subrange(7, 7) =~= Seq::<u8>::empty());
                    assert(input@.subrange(0, 7) =~= input@);
                    let x0: u64 = input@[0] as u64;
                    let x1: u64 = input@[1] as u64;
                    let x2: u64 = input@[2] as u64;
                    let x3: u64 = input@[3] as u64;
                    let x4: u64 = input@[4] as u64;
                    let x5: u64 = input@[5] as u64;
                    let x6: u64 = input@[6] as u64;
                    assert(r == x0 + 256 * (x1 + 256 * (x2 + 256 * (x3 + 256 * (x4 + 256 * (x5 + 256 * (x6))))))) by (bit_vector)
                        requires
                            x0 < 256,
                            x1 < 256,
                            x2 < 256,
                            x3 < 256,
                            x4 < 256,
                            x5 < 256,
                            x6 < 256,
                            lo == x0 + 256 * (x1 + 256 * (x2 + 256 * (x3))),
                            hi == x3 + 256 * (x4 + 256 * (x5 + 256 * (x6))),
                            r == lo | (hi << 24u64),
                    ;
                }
            }
            r
        }
    } else if len == 3 {
        let lo = load_u16_le(input, 0);
        let hi = input[2] as u64;
        let r = lo | (hi << 16);
        proof {
            lemma_le_key_front(input@, 0);
            lemma_le_key_front(input@, 1);
            lemma_le_key_front(input@, 2);
            assert(input@.subrange(3, 3) =~= Seq::<u8>::empty());
            assert(input@.subrange(0, 3) =~= input@);
            let x0: u64 = input@[0] as u64;
            let x1: u64 = input@[1] as u64;
            let x2: u64 = input@[2] as u64;
            assert(r == x0 + 256 * (x1 + 256 * (x2))) by (bit_vector)
                requires
                    x0 < 256,
                    x1 < 256,
                    x2 < 256,
                    lo == x0 + 256 * (x1),
                    hi == x2,
                    r == lo | (hi << 16u64),
            ;
        }
        r
    } else if len == 2 {
        let r = load_u16_le(input, 0);
        proof {
            lemma_le_key_front(input@, 0);
            lemma_le_key_front(input@, 1);
            assert(input@.subrange(2, 2) =~= Seq::<u8>::empty());
            assert(input@.subrange(0, 2) =~= input@);
        }
        r
    } else {
        proof {
            lemma_le_key_front(input@, 0);
            assert(input@.subrange(1, 1) =~= Seq::<u8>::empty());
            assert(input@.subrange(0, 1) =~= input@);
        }
        input[0] as u64
    }
}

proof fn lemma_pack16_len9(s: Seq<u8>, lo: u128, hi: u128, r: u128)
    requires
        s.len() == 9,
        lo == s[0] + 256 * (s[1] + 256 * (s[2] + 256 * (s[3] + 256 * (s[4] + 256 * (s[5] + 256 * (s[6] + 256 * (s[7]))))))),
        hi == s[1] + 256 * (s[2] + 256 * (s[3] + 256 * (s[4] + 256 * (s[5] + 256 * (s[6] + 256 * (s[7] + 256 * (s[8]))))))),
        r == lo | (hi << 8u128),
    ensures
        r == le_key(s),
{
    lemma_le_key_front(s, 0);
    lemma_le_key_front(s, 1);
    lemma_le_key_front(s, 2);
    lemma_le_key_front(s, 3);
    lemma_le_key_front(s, 4);
    lemma_le_key_front(s, 5);
    lemma_le_key_front(s, 6);
    lemma_le_key_front(s, 7);
    lemma_le_key_front(s, 8);
    assert(s.subrange(9, 9) =~= Seq::<u8>::empty());
    assert(s.subrange(0, 9) =~= s);
    let x0: u128 = s[0] as u128;
    let x1: u128 = s[1] as u128;
    let x2: u128 = s[2] as u128;
    let x3: u128 = s[3] as u128;
    let x4: u128 = s[4] as u128;
    let x5: u128 = s[5] as u128;
    let x6: u128 = s[6] as u128;
    let x7: u128 = s[7] as u128;
    let x8: u128 = s[8] as u128;
    assert(r == x0 + 256 * (x1 + 256 * (x2 + 256 * (x3 + 256 * (x4 + 256 * (x5 + 256 * (x6 + 256 * (x7 + 256 * (x8))))))))) by (bit_vector)
        requires
            x0 < 256,
            x1 < 256,
            x2 < 256,
            x3 < 256,
            x4 < 256,
            x5 < 256,
            x6 < 256,
            x7 < 256,
            x8 < 256,
            lo == x0 + 256 * (x1 + 256 * (x2 + 256 * (x3 + 256 * (x4 + 256 * (x5 + 256 * (x6 + 256 * (x7))))))),
            hi == x1 + 256 * (x2 + 256 * (x3 + 256 * (x4 + 256 * (x5 + 256 * (x6 + 256 * (x7 + 256 * (x8))))))),
            r == lo | (hi << 8u128),
    ;
}

proof fn lemma_pack16_len10(s: Seq<u8>, lo: u128, hi: u128, r: u128)
    requires
        s.len() == 10,
        lo == s[0] + 256 * (s[1] + 256 * (s[2] + 256 * (s[3] + 256 * (s[4] + 256 * (s[5] + 256 * (s[6] + 256 * (s[7]))))))),
        hi == s[2] + 256 * (s[3] + 256 * (s[4] + 256 * (s[5] + 256 * (s[6] + 256 * (s[7] + 256 * (s[8] + 256 * (s[9]))))))),
        r == lo | (hi << 16u128),
    ensures
        r == le_key(s),
{
    lemma_le_key_front(s, 0);
    lemma_le_key_front(s, 1);
    lemma_le_key_front(s, 2);
    lemma_le_key_front(s, 3);
    lemma_le_key_front(s, 4);
    lemma_le_key_front(s, 5);
    lemma_le_key_front(s, 6);
    lemma_le_key_front(s, 7);
    lemma_le_key_front(s, 8);
    lemma_le_key_front(s, 9);
    assert(s.subrange(10, 10) =~= Seq::<u8>::empty());
    assert(s.subrange(0, 10) =~= s);
    let x0: u128 = s[0] as u128;
    let x1: u128 = s[1] as u128;
    let x2: u128 = s[2] as u128;
    let x3: u128 = s[3] as u128;
    let x4: u128 = s[4] as u128;
    let x5: u128 = s[5] as u128;
    let x6: u128 = s[6] as u128;
    let x7: u128 = s[7] as u128;
    let x8: u128 = s[8] as u128;
    let x9: u128 = s[9] as u128;
    assert(r == x0 + 256 * (x1 + 256 * (x2 + 256 * (x3 + 256 * (x4 + 256 * (x5 + 256 * (x6 + 256 * (x7 + 256 * (x8 + 256 * (x9)))))))))) by (bit_vector)
        requires
            x0 < 256,
            x1 < 256,
            x2 < 256,
            x3 < 256,
            x4 < 256,
            x5 < 256,
            x6 < 256,
            x7 < 256,
            x8 < 256,
            x9 < 256,
            lo == x0 + 256 * (x1 + 256 * (x2 + 256 * (x3 + 256 * (x4 + 256 * (x5 + 256 * (x6 + 256 * (x7))))))),
            hi == x2 + 256 * (x3 + 256 * (x4 + 256 * (x5 + 256 * (x6 + 256 * (x7 + 256 * (x8 + 256 * (x9))))))),
            r == lo | (hi << 16u128),
    ;
}

proof fn lemma_pack16_len11(s: Seq<u8>, lo: u128, hi: u128, r: u128)
    requires
        s.len() == 11,
        lo == s[0] + 256 * (s[1] + 256 * (s[2] + 256 * (s[3] + 256 * (s[4] + 256 * (s[5] + 256 * (s[6] + 256 * (s[7]))))))),
        hi == s[3] + 256 * (s[4] + 256 * (s[5] + 256 * (s[6] + 256 * (s[7] + 256 * (s[8] + 256 * (s[9] + 256 * (s[10]))))))),
        r == lo | (hi << 24u128),
    ensures
        r == le_key(s),
{
    lemma_le_key_front(s, 0);
    lemma_le_key_front(s, 1);
    lemma_le_key_front(s, 2);
    lemma_le_key_front(s, 3);
    lemma_le_key_front(s, 4);
    lemma_le_key_front(s, 5);
    lemma_le_key_front(s, 6);
    lemma_le_key_front(s, 7);
    lemma_le_key_front(s, 8);
    lemma_le_key_front(s, 9);
    lemma_le_key_front(s, 10);
    assert(s.subrange(11, 11) =~= Seq::<u8>::empty());
    assert(s.subrange(0, 11) =~= s);
    let x0: u128 = s[0] as u128;
    let x1: u128 = s[1] as u128;
    let x2: u128 = s[2] as u128;
    let x3: u128 = s[3] as u128;
    let x4: u128 = s[4] as u128;
    let x5: u128 = s[5] as u128;
    let x6: u128 = s[6] as u128;
    let x7: u128 = s[7] as u128;
    let x8: u128 = s[8] as u128;
    let x9: u128 = s[9] as u128;
    let x10: u128 = s[10] as u128;
    assert(r == x0 + 256 * (x1 + 256 * (x2 + 256 * (x3 + 256 * (x4 + 256 * (x5 + 256 * (x6 + 256 * (x7 + 256 * (x8 + 256 * (x9 + 256 * (x10))))))))))) by (bit_vector)
        requires
            x0 < 256,
            x1 < 256,
            x2 < 256,
            x3 < 256,
            x4 < 256,
            x5 < 256,
            x6 < 256,
            x7 < 256,
            x8 < 256,
            x9 < 256,
            x10 < 256,
            lo == x0 + 256 * (x1 + 256 * (x2 + 256 * (x3 + 256 * (x4 + 256 * (x5 + 256 * (x6 + 256 * (x7))))))),
            hi == x3 + 256 * (x4 + 256 * (x5 + 256 * (x6 + 256 * (x7 + 256 * (x8 + 256 * (x9 + 256 * (x10))))))),
            r == lo | (hi << 24u128),
    ;
}

proof fn lemma_pack16_len12(s: Seq<u8>, lo: u128, hi: u128, r: u128)
    requires
        s.len() == 12,
        lo == s[0] + 256 * (s[1] + 256 * (s[2] + 256 * (s[3] + 256 * (s[4] + 256 * (s[5] + 256 * (s[6] + 256 * (s[7]))))))),
        hi == s[4] + 256 * (s[5] + 256 * (s[6] + 256 * (s[7] + 256 * (s[8] + 256 * (s[9] + 256 * (s[10] + 256 * (s[11]))))))),
        r == lo | (hi << 32u128),
    ensures
        r == le_key(s),
{
    lemma_le_key_front(s, 0);
    lemma_le_key_front(s, 1);
    lemma_le_key_front(s, 2);
    lemma_le_key_front(s, 3);
    lemma_le_key_front(s, 4);
    lemma_le_key_front(s, 5);
    lemma_le_key_front(s, 6);
    lemma_le_key_front(s, 7);
    lemma_le_key_front(s, 8);
    lemma_le_key_front(s, 9);
    lemma_le_key_front(s, 10);
    lemma_le_key_front(s, 11);
    assert(s.subrange(12, 12) =~= Seq::<u8>::empty());
    assert(s.subrange(0, 12) =~= s);
    let x0: u128 = s[0] as u128;
    let x1: u128 = s[1] as u128;
    let x2: u128 = s[2] as u128;
    let x3: u128 = s[3] as u128;
    let x4: u128 = s[4] as u128;
    let x5: u128 = s[5] as u128;
    let x6: u128 = s[6] as u128;
    let x7: u128 = s[7] as u128;
    let x8: u128 = s[8] as u128;
    let x9: u128 = s[9] as u128;
    let x10: u128 = s[10] as u128;
    let x11: u128 = s[11] as u128;
    assert(r == x0 + 256 * (x1 + 256 * (x2 + 256 * (x3 + 256 * (x4 + 256 * (x5 + 256 * (x6 + 256 * (x7 + 256 * (x8 + 256 * (x9 + 256 * (x10 + 256 * (x11)))))))))))) by (bit_vector)
        requires
            x0 < 256,
            x1 < 256,
            x2 < 256,
            x3 < 256,
            x4 < 256,
            x5 < 256,
            x6 < 256,
            x7 < 256,
            x8 < 256,
            x9 < 256,
            x10 < 256,
            x11 < 256,
            lo == x0 + 256 * (x1 + 256 * (x2 + 256 * (x3 + 256 * (x4 + 256 * (x5 + 256 * (x6 + 256 * (x7))))))),
            hi == x4 + 256 * (x5 + 256 * (x6 + 256 * (x7 + 256 * (x8 + 256 * (x9 + 256 * (x10 + 256 * (x11))))))),
            r == lo | (hi << 32u128),
    ;
}

proof fn lemma_pack16_len13(s: Seq<u8>, lo: u128, hi: u128, r: u128)
    requires
        s.len() == 13,
        lo == s[0] + 256 * (s[1] + 256 * (s[2] + 256 * (s[3] + 256 * (s[4] + 256 * (s[5] + 256 * (s[6] + 256 * (s[7]))))))),
        hi == s[5] + 256 * (s[6] + 256 * (s[7] + 256 * (s[8] + 256 * (s[9] + 256 * (s[10] + 256 * (s[11] + 256 * (s[12]))))))),
        r == lo | (hi << 40u128),
    ensures
        r == le_key(s),
{
    lemma_le_key_front(s, 0);
    lemma_le_key_front(s, 1);
    lemma_le_key_front(s, 2);
    lemma_le_key_front(s, 3);
    lemma_le_key_front(s, 4);
    lemma_le_key_front(s, 5);
    lemma_le_key_front(s, 6);
    lemma_le_key_front(s, 7);
    lemma_le_key_front(s, 8);
    lemma_le_key_front(s, 9);
    lemma_le_key_front(s, 10);
    lemma_le_key_front(s, 11);
    lemma_le_key_front(s, 12);
    assert(s.subrange(13, 13) =~= Seq::<u8>::empty());
    assert(s.subrange(0, 13) =~= s);
    let x0: u128 = s[0] as u128;
    let x1: u128 = s[1] as u128;
    let x2: u128 = s[2] as u128;
    let x3: u128 = s[3] as u128;
    let x4: u128 = s[4] as u128;
    let x5: u128 = s[5] as u128;
    let x6: u128 = s[6] as u128;
    let x7: u128 = s[7] as u128;
    let x8: u128 = s[8] as u128;
    let x9: u128 = s[9] as u128;
    let x10: u128 = s[10] as u128;
    let x11: u128 = s[11] as u128;
    let x12: u128 = s[12] as u128;
    assert(r == x0 + 256 * (x1 + 256 * (x2 + 256 * (x3 + 256 * (x4 + 256 * (x5 + 256 * (x6 + 256 * (x7 + 256 * (x8 + 256 * (x9 + 256 * (x10 + 256 * (x11 + 256 * (x12))))))))))))) by (bit_vector)
        requires
            x0 < 256,
            x1 < 256,
            x2 < 256,
            x3 < 256,
            x4 < 256,
            x5 < 256,
            x6 < 256,
            x7 < 256,
            x8 < 256,
            x9 < 256,
            x10 < 256,
            x11 < 256,
            x12 < 256,
            lo == x0 + 256 * (x1 + 256 * (x2 + 256 * (x3 + 256 * (x4 + 256 * (x5 + 256 * (x6 + 256 * (x7))))))),
            hi == x5 + 256 * (x6 + 256 * (x7 + 256 * (x8 + 256 * (x9 + 256 * (x10 + 256 * (x11 + 256 * (x12))))))),
            r == lo | (hi << 40u128),
    ;
}

proof fn lemma_pack16_len14(s: Seq<u8>, lo: u128, hi: u128, r: u128)
    requires
        s.len() == 14,
        lo == s[0] + 256 * (s[1] + 256 * (s[2] + 256 * (s[3] + 256 * (s[4] + 256 * (s[5] + 256 * (s[6] + 256 * (s[7]))))))),
        hi == s[6] + 256 * (s[7] + 256 * (s[8] + 256 * (s[9] + 256 * (s[10] + 256 * (s[11] + 256 * (s[12] + 256 * (s[13]))))))),
        r == lo | (hi << 48u128),
    ensures
        r == le_key(s),
{
    lemma_le_key_front(s, 0);
    lemma_le_key_front(s, 1);
    lemma_le_key_front(s, 2);
    lemma_le_key_front(s, 3);
    lemma_le_key_front(s, 4);
    lemma_le_key_front(s, 5);
    lemma_le_key_front(s, 6);
    lemma_le_key_front(s, 7);
    lemma_le_key_front(s, 8);
    lemma_le_key_front(s, 9);
    lemma_le_key_front(s, 10);
    lemma_le_key_front(s, 11);
    lemma_le_key_front(s, 12);
    lemma_le_key_front(s, 13);
    assert(s.subrange(14, 14) =~= Seq::<u8>::empty());
    assert(s.subrange(0, 14) =~= s);
    let x0: u128 = s[0] as u128;
    let x1: u128 = s[1] as u128;
    let x2: u128 = s[2] as u128;
    let x3: u128 = s[3] as u128;
    let x4: u128 = s[4] as u128;
    let x5: u128 = s[5] as u128;
    let x6: u128 = s[6] as u128;
    let x7: u128 = s[7] as u128;
    let x8: u128 = s[8] as u128;
    let x9: u128 = s[9] as u128;
    let x10: u128 = s[10] as u128;
    let x11: u128 = s[11] as u128;
    let x12: u128 = s[12] as u128;
    let x13: u128 = s[13] as u128;
    assert(r == x0 + 256 * (x1 + 256 * (x2 + 256 * (x3 + 256 * (x4 + 256 * (x5 + 256 * (x6 + 256 * (x7 + 256 * (x8 + 256 * (x9 + 256 * (x10 + 256 * (x11 + 256 * (x12 + 256 * (x13)))))))))))))) by (bit_vector)
        requires
            x0 < 256,
            x1 < 256,
            x2 < 256,
            x3 < 256,
            x4 < 256,
            x5 < 256,
            x6 < 256,
            x7 < 256,
            x8 < 256,
            x9 < 256,
            x10 < 256,
            x11 < 256,
            x12 < 256,
            x13 < 256,
            lo == x0 + 256 * (x1 + 256 * (x2 + 256 * (x3 + 256 * (x4 + 256 * (x5 + 256 * (x6 + 256 * (x7))))))),
            hi == x6 + 256 * (x7 + 256 * (x8 + 256 * (x9 + 256 * (x10 + 256 * (x11 + 256 * (x12 + 256 * (x13))))))),
            r == lo | (hi << 48u128),
    ;
}

proof fn lemma_pack16_len15(s: Seq<u8>, lo: u128, hi: u128, r: u128)
    requires
        s.len() == 15,
        lo == s[0] + 256 * (s[1] + 256 * (s[2] + 256 * (s[3] + 256 * (s[4] + 256 * (s[5] + 256 * (s[6] + 256 * (s[7]))))))),
        hi == s[7] + 256 * (s[8] + 256 * (s[9] + 256 * (s[10] + 256 * (s[11] + 256 * (s[12] + 256 * (s[13] + 256 * (s[14]))))))),
        r == lo | (hi << 56u128),
    ensures
        r == le_key(s),
{
    lemma_le_key_front(s, 0);
    lemma_le_key_front(s, 1);
    lemma_le_key_front(s, 2);
    lemma_le_key_front(s, 3);
    lemma_le_key_front(s, 4);
    lemma_le_key_front(s, 5);
    lemma_le_key_front(s, 6);
    lemma_le_key_front(s, 7);
    lemma_le_key_front(s, 8);
    lemma_le_key_front(s, 9);
    lemma_le_key_front(s, 10);
    lemma_le_key_front(s, 11);
    lemma_le_key_front(s, 12);
    lemma_le_key_front(s, 13);
    lemma_le_key_front(s, 14);
    assert(s.subrange(15, 15) =~= Seq::<u8>::empty());
    assert(s.subrange(0, 15) =~= s);
    let x0: u128 = s[0] as u128;
    let x1: u128 = s[1] as u128;
    let x2: u128 = s[2] as u128;
    let x3: u128 = s[3] as u128;
    let x4: u128 = s[4] as u128;
    let x5: u128 = s[5] as u128;
    let x6: u128 = s[6] as u128;
    let x7: u128 = s[7] as u128;
    let x8: u128 = s[8] as u128;
    let x9: u128 = s[9] as u128;
    let x10: u128 = s[10] as u128;
    let x11: u128 = s[11] as u128;
    let x12: u128 = s[12] as u128;
    let x13: u128 = s[13] as u128;
    let x14: u128 = s[14] as u128;
    assert(r == x0 + 256 * (x1 + 256 * (x2 + 256 * (x3 + 256 * (x4 + 256 * (x5 + 256 * (x6 + 256 * (x7 + 256 * (x8 + 256 * (x9 + 256 * (x10 + 256 * (x11 + 256 * (x12 + 256 * (x13 + 256 * (x14))))))))))))))) by (bit_vector)
        requires
            x0 < 256,
            x1 < 256,
            x2 < 256,
            x3 < 256,
            x4 < 256,
            x5 < 256,
            x6 < 256,
            x7 < 256,
            x8 < 256,
            x9 < 256,
            x10 < 256,
            x11 < 256,
            x12 < 256,
            x13 < 256,
            x14 < 256,
            lo == x0 + 256 * (x1 + 256 * (x2 + 256 * (x3 + 256 * (x4 + 256 * (x5 + 256 * (x6 + 256 * (x7))))))),
            hi == x7 + 256 * (x8 + 256 * (x9 + 256 * (x10 + 256 * (x11 + 256 * (x12 + 256 * (x13 + 256 * (x14))))))),
            r == lo | (hi << 56u128),
    ;
}

proof fn lemma_pack16_len16(s: Seq<u8>, lo: u128, hi: u128, r: u128)
    requires
        s.len() == 16,
        lo == s[0] + 256 * (s[1] + 256 * (s[2] + 256 * (s[3] + 256 * (s[4] + 256 * (s[5] + 256 * (s[6] + 256 * (s[7]))))))),
        hi == s[8] + 256 * (s[9] + 256 * (s[10] + 256 * (s[11] + 256 * (s[12] + 256 * (s[13] + 256 * (s[14] + 256 * (s[15]))))))),
        r == lo | (hi << 64u128),
    ensures
        r == le_key(s),
{
    lemma_le_key_front(s, 0);
    lemma_le_key_front(s, 1);
    lemma_le_key_front(s, 2);
    lemma_le_key_front(s, 3);
    lemma_le_key_front(s, 4);
    lemma_le_key_front(s, 5);
    lemma_le_key_front(s, 6);
    lemma_le_key_front(s, 7);
    lemma_le_key_front(s, 8);
    lemma_le_key_front(s, 9);
    lemma_le_key_front(s, 10);
    lemma_le_key_front(s, 11);
    lemma_le_key_front(s, 12);
    lemma_le_key_front(s, 13);
    lemma_le_key_front(s, 14);
    lemma_le_key_front(s, 15);
    assert(s.subrange(16, 16) =~= Seq::<u8>::empty());
    assert(s.subrange(0, 16) =~= s);
    let x0: u128 = s[0] as u128;
    let x1: u128 = s[1] as u128;
    let x2: u128 = s[2] as u128;
    let x3: u128 = s[3] as u128;
    let x4: u128 = s[4] as u128;
    let x5: u128 = s[5] as u128;
    let x6: u128 = s[6] as u128;
    let x7: u128 = s[7] as u128;
    let x8: u128 = s[8] as u128;
    let x9: u128 = s[9] as u128;
    let x10: u128 = s[10] as u128;
    let x11: u128 = s[11] as u128;
    let x12: u128 = s[12] as u128;
    let x13: u128 = s[13] as u128;
    let x14: u128 = s[14] as u128;
    let x15: u128 = s[15] as u128;
    assert(r == x0 + 256 * (x1 + 256 * (x2 + 256 * (x3 + 256 * (x4 + 256 * (x5 + 256 * (x6 + 256 * (x7 + 256 * (x8 + 256 * (x9 + 256 * (x10 + 256 * (x11 + 256 * (x12 + 256 * (x13 + 256 * (x14 + 256 * (x15)))))))))))))))) by (bit_vector)
        requires
            x0 < 256,
            x1 < 256,
            x2 < 256,
            x3 < 256,
            x4 < 256,
            x5 < 256,
            x6 < 256,
            x7 < 256,
            x8 < 256,
            x9 < 256,
            x10 < 256,
            x11 < 256,
            x12 < 256,
            x13 < 256,
            x14 < 256,
            x15 < 256,
            lo == x0 + 256 * (x1 + 256 * (x2 + 256 * (x3 + 256 * (x4 + 256 * (x5 + 256 * (x6 + 256 * (x7))))))),
            hi == x8 + 256 * (x9 + 256 * (x10 + 256 * (x11 + 256 * (x12 + 256 * (x13 + 256 * (x14 + 256 * (x15))))))),
            r == lo | (hi << 64u128),
    ;
}

/// Pack 9 to 16 bytes into a zero-extended `u128`, first byte least significant, with
/// two overlapping 8-byte little-endian loads; agrees with `const_pack128`.
pub fn pack16(input: &[u8]) -> (r: u128)
    requires
        9 <= input@.len() <= 16,
    ensures
        r == le_key(input@),
{
    let len = input.len();
    let lo = load_u64_le(input, 0) as u128;
    let hi = load_u64_le(input, len - 8) as u128;
    let r = lo | (hi << ((len - 8) * 8));
    proof {
        if len == 9 {
            lemma_pack16_len9(input@, lo, hi, r);
        } else if len == 10 {
            lemma_pack16_len10(input@, lo, hi, r);
        } else if len == 11 {
            lemma_pack16_len11(input@, lo, hi, r);
        } else if len == 12 {
            lemma_pack16_len12(input@, lo, hi, r);
        } else if len == 13 {
            lemma_pack16_len13(input@, lo, hi, r);
        } else if len == 14 {
            lemma_pack16_len14(input@, lo, hi, r);
        } else if len == 15 {
            lemma_pack16_len15(input@, lo, hi, r);
        } else if len == 16 {
            lemma_pack16_len16(input@, lo, hi, r);
        }
    }
    r
}


/// A key that is zero is only that of zero bytes; a non-empty string whose last byte is
/// not zero has a positive key.
proof fn lemma_le_key_positive(s: Seq<u8>)
    requires
        s.len() > 0,
        s.last() != 0,
    ensures
        le_key(s) > 0,
    decreases s.len(),
{
    lemma_le_key_bound(s.drop_first());
    if s.len() > 1 {
        assert(s.drop_first().last() == s.last());
        lemma_le_key_positive(s.drop_first());
    }
}

/// Packing is injective up to trailing NUL bytes: two non-empty byte strings that end
/// in a non-zero byte and pack to the same key are equal.
pub proof fn lemma_le_key_injective(a: Seq<u8>, b: Seq<u8>)
    requires
        a.len() > 0,
        b.len() > 0,
        a.last() != 0,
        b.last() != 0,
        le_key(a) == le_key(b),
    ensures
        a == b,
    decreases a.len(),
{
    lemma_le_key_bound(a.drop_first());
    lemma_le_key_bound(b.drop_first());
    assert(a[0] == b[0] && le_key(a.drop_first()) == le_key(b.drop_first()));
    if a.len() == 1 && b.len() > 1 {
        assert(b.drop_first().last() == b.last());
        lemma_le_key_positive(b.drop_first());
    } else if a.len() > 1 && b.len() == 1 {
        assert(a.drop_first().last() == a.last());
        lemma_le_key_positive(a.drop_first());
    } else if a.len() > 1 && b.len() > 1 {
        assert(a.drop_first().last() == a.last());
        assert(b.drop_first().last() == b.last());
        lemma_le_key_injective(a.drop_first(), b.drop_first());
        assert(a =~= seq![a[0]] + a.drop_first());
        assert(b =~= seq![b[0]] + b.drop_first());
    } else {
        assert(a =~= b);
    }
}

/// Which table a name of this length goes in: none (empty), the `u64` keys (1 to 8
/// bytes), the `u128` keys (9 to 16 bytes), or the long names.
pub open spec fn len_class(n: int) -> int {
    if n == 0 {
        0
    } else if n <= 8 {
        1
    } else if n <= 16 {
        2
    } else {
        3
    }
}

/// The bytes of each name.
pub open spec fn name_bytes(strs: Seq<&str>) -> Seq<Seq<u8>> {
    strs.map_values(|s: &str| s.spec_bytes())
}

/// How many of the names fall in a class.
pub open spec fn class_count(names: Seq<Seq<u8>>, class: int) -> nat
    decreases names.len(),
{
    if names.len() == 0 {
        0
    } else {
        class_count(names.drop_last(), class) + if len_class(names.last().len() as int) == class {
            1nat
        } else {
            0nat
        }
    }
}

/// The keys of the names of a class.
pub open spec fn class_keys(names: Seq<Seq<u8>>, class: int) -> Set<int> {
    Set::new(
        |x: int|
            exists|k: int|
                0 <= k < names.len() && len_class(names[k].len() as int) == class && le_key(
                    #[trigger] names[k],
                ) == x,
    )
}

/// The names longer than 16 bytes, in order.
pub open spec fn long_names(strs: Seq<&str>) -> Seq<&str>
    decreases strs.len(),
{
    if strs.len() == 0 {
        Seq::empty()
    } else {
        let prev = long_names(strs.drop_last());
        if strs.last().spec_bytes().len() > 16 {
            prev.push(strs.last())
        } else {
            prev
        }
    }
}

/// Whether a lookup of `input` in a table of `names` succeeds: by key among the names of
/// its own length class, and, past 16 bytes, byte for byte.
pub open spec fn lookup_spec(names: Seq<Seq<u8>>, input: Seq<u8>) -> bool {
    let class = len_class(input.len() as int);
    if class == 0 {
        false
    } else if class == 3 {
        exists|k: int| 0 <= k < names.len() && #[trigger] names[k] == input
    } else {
        class_keys(names, class).contains(le_key(input))
    }
}

/// Every listed (non-empty) name is found.
pub proof fn lemma_listed_names_found(names: Seq<Seq<u8>>, k: int)
    requires
        0 <= k < names.len(),
        names[k].len() > 0,
    ensures
        lookup_spec(names, names[k]),
{
    if len_class(names[k].len() as int) != 3 {
        assert(class_keys(names, len_class(names[k].len() as int)).contains(le_key(names[k])));
    }
}

/// For names and an input that do not end in a NUL byte, a lookup succeeds exactly
/// when the input is one of the names.
pub proof fn lemma_lookup_exact(names: Seq<Seq<u8>>, input: Seq<u8>)
    requires
        forall|k: int| 0 <= k < names.len() && (#[trigger] names[k]).len() > 0 ==> names[k].last() != 0,
        input.len() > 0 ==> input.last() != 0,
    ensures
        lookup_spec(names, input) <==> (input.len() > 0 && names.contains(input)),
{
    let class = len_class(input.len() as int);
    if lookup_spec(names, input) && class != 3 {
        let k = choose|k: int|
            0 <= k < names.len() && len_class(names[k].len() as int) == class && le_key(
                #[trigger] names[k],
            ) == le_key(input);
        lemma_le_key_injective(names[k], input);
    }
    if input.len() > 0 && names.contains(input) {
        let k = choose|k: int| 0 <= k < names.len() && names[k] == input;
        lemma_listed_names_found(names, k);
    }
}


/// The keys of the names of a class, in list order.
pub open spec fn class_key_seq(names: Seq<Seq<u8>>, class: int) -> Seq<int>
    decreases names.len(),
{
    if names.len() == 0 {
        Seq::empty()
    } else {
        let prev = class_key_seq(names.drop_last(), class);
        if len_class(names.last().len() as int) == class {
            prev.push(le_key(names.last()))
        } else {
            prev
        }
    }
}

/// Swapping two elements keeps the multiset of a sequence.
proof fn lemma_swap_to_multiset(s: Seq<int>, i: int, j: int)
    requires
        0 <= i < s.len(),
        0 <= j < s.len(),
    ensures
        s.update(i, s[j]).update(j, s[i]).to_multiset() == s.to_multiset(),
{
    broadcast use vstd::seq_lib::group_to_multiset_ensures;
    broadcast use vstd::multiset::group_multiset_axioms;

    let t = s.update(i, s[j]);
    assert(t.to_multiset() == s.to_multiset().insert(s[j]).remove(s[i]));
    assert(t.update(j, s[i]).to_multiset() == t.to_multiset().insert(s[i]).remove(t[j]));
    if i == j {
        assert(t =~= s);
        assert(t.update(j, s[i]) =~= s);
    } else {
        assert(t[j] == s[j]);
        assert(t.update(j, s[i]).to_multiset() =~= s.to_multiset());
    }
}

/// A sorted sequence with the elements of a sequence without repeats is strictly
/// increasing.
proof fn lemma_sorted_unique_keys(s: Seq<int>, keys: Seq<int>)
    requires
        forall|i: int, j: int| 0 <= i < j < s.len() ==> s[i] <= s[j],
        s.to_multiset() == keys.to_multiset(),
        keys.no_duplicates(),
    ensures
        forall|i: int, j: int| 0 <= i < j < s.len() ==> s[i] < s[j],
{
    keys.lemma_multiset_has_no_duplicates();
    s.lemma_multiset_has_no_duplicates_conv();
    assert forall|i: int, j: int| 0 <= i < j < s.len() implies s[i] < s[j] by {
        assert(s[i] <= s[j]);
        assert(s[i] != s[j]);
    }
}

/// How many names have 1 to 8 bytes.
pub fn count_short(strs: &[&str]) -> (r: usize)
    ensures
        r == class_count(name_bytes(strs@), 1),
{
    count_class(strs, 1)
}

/// How many names have 9 to 16 bytes.
pub fn count_mid(strs: &[&str]) -> (r: usize)
    ensures
        r == class_count(name_bytes(strs@), 2),
{
    count_class(strs, 2)
}

/// How many names have more than 16 bytes.
pub fn count_long(strs: &[&str]) -> (r: usize)
    ensures
        r == class_count(name_bytes(strs@), 3),
{
    count_class(strs, 3)
}

/// The class of a length, as `len_class`.
fn class_of(n: usize) -> (r: u8)
    ensures
        r == len_class(n as int),
{
    if n == 0 {
        0
    } else if n <= 8 {
        1
    } else if n <= 16 {
        2
    } else {
        3
    }
}

fn count_class(strs: &[&str], class: u8) -> (r: usize)
    ensures
        r == class_count(name_bytes(strs@), class as int),
{
    let ghost names = name_bytes(strs@);
    let mut n: usize = 0;
    let mut i: usize = 0;
    while i < strs.len()
        invariant
            names == name_bytes(strs@),
            i <= strs@.len(),
            n == class_count(names.take(i as int), class as int),
            n <= i,
        decreases strs@.len() - i,
    {
        assert(names[i as int] == strs@[i as int].spec_bytes());
        assert(names.take(i + 1).drop_last() =~= names.take(i as int));
        assert(names.take(i + 1).last() == names[i as int]);
        if class_of(strs[i].as_bytes().len()) == class {
            n = n + 1;
        }
        i = i + 1;
    }
    assert(names.take(strs@.len() as int) =~= names);
    n
}

/// The keys of the names of 1 to 8 bytes, packed into `u64`s, sorted (insertion sort).
/// The names of the class must have distinct keys (names that differ only by trailing
/// NUL bytes have the same key); the keys then come out strictly increasing.
pub fn build_keys8(strs: &[&str]) -> (r: Vec<u64>)
    requires
        class_key_seq(name_bytes(strs@), 1).no_duplicates(),
    ensures
        r@.len() == class_count(name_bytes(strs@), 1),
        forall|i: int, j: int| 0 <= i < j < r@.len() ==> r@[i] < r@[j],
        forall|x: u64| r@.contains(x) <==> class_keys(name_bytes(strs@), 1).contains(x as int),
        r@.map_values(|x: u64| x as int).to_multiset() == class_key_seq(name_bytes(strs@), 1).to_multiset(),
{
    let ghost names = name_bytes(strs@);
    let mut out: Vec<u64> = Vec::with_capacity(count_short(strs));
    let mut i: usize = 0;
    while i < strs.len()
        invariant
            names == name_bytes(strs@),
            i <= strs@.len(),
            out@.len() == class_count(names.take(i as int), 1),
            out@.map_values(|x: u64| x as int) == class_key_seq(names.take(i as int), 1),
            forall|x: u64| out@.contains(x) <==> class_keys(names.take(i as int), 1).contains(x as int),
        decreases strs@.len() - i,
    {
        let s = strs[i].as_bytes();
        assert(names[i as int] == s@);
        assert(names.take(i + 1).drop_last() =~= names.take(i as int));
        let ghost before = out@;
        if class_of(s.len()) == 1 {
            let key = const_pack64(s);
            out.push(key);
            proof {
                assert(out@.map_values(|x: u64| x as int) =~= before.map_values(|x: u64| x as int).push(
                    key as int,
                ));
                assert(names.take(i + 1).last() == names[i as int]);
                assert forall|x: u64| out@.contains(x) <==> class_keys(names.take(i + 1), 1).contains(
                    x as int,
                ) by {
                    if out@.contains(x) && x != key {
                        let k = choose|k: int| 0 <= k < out@.len() && out@[k] == x;
                        assert(before[k] == x);
                    }
                    if x == key {
                        assert(out@[before.len() as int] == x);
                        assert(names.take(i + 1)[i as int] == s@);
                    }
                    if before.contains(x) {
                        let k = choose|k: int| 0 <= k < before.len() && before[k] == x;
                        assert(out@[k] == x);
                    }
                    if class_keys(names.take(i + 1), 1).contains(x as int) {
                        let k = choose|k: int|
                            0 <= k < names.take(i + 1).len() && len_class(names.take(i + 1)[k].len() as int)
                                == 1 && le_key(#[trigger] names.take(i + 1)[k]) == x as int;
                        if k < i {
                            assert(names.take(i as int)[k] == names.take(i + 1)[k]);
                        }
                    }
                    if class_keys(names.take(i as int), 1).contains(x as int) {
                        let k = choose|k: int|
                            0 <= k < names.take(i as int).len() && len_class(names.take(i as int)[k].len() as int)
                                == 1 && le_key(#[trigger] names.take(i as int)[k]) == x as int;
                        assert(names.take(i as int)[k] == names.take(i + 1)[k]);
                    }
                }
            }
        } else {
            proof {
                assert(names.take(i + 1).last() == names[i as int]);
                assert forall|x: u64| class_keys(names.take(i + 1), 1).contains(x as int)
                    <==> class_keys(names.take(i as int), 1).contains(x as int) by {
                    if class_keys(names.take(i + 1), 1).contains(x as int) {
                        let k = choose|k: int|
                            0 <= k < names.take(i + 1).len() && len_class(names.take(i + 1)[k].len() as int)
                                == 1 && le_key(#[trigger] names.take(i + 1)[k]) == x as int;
                        assert(k != i);
                        assert(names.take(i as int)[k] == names.take(i + 1)[k]);
                    }
                    if class_keys(names.take(i as int), 1).contains(x as int) {
                        let k = choose|k: int|
                            0 <= k < names.take(i as int).len() && len_class(names.take(i as int)[k].len() as int)
                                == 1 && le_key(#[trigger] names.take(i as int)[k]) == x as int;
                        assert(names.take(i as int)[k] == names.take(i + 1)[k]);
                    }
                }
            }
        }
        i = i + 1;
    }
    assert(names.take(strs@.len() as int) =~= names);
    let ghost built = out@.map_values(|x: u64| x as int);
    let n = out.len();
    let mut a: usize = 1;
    while a < n
        invariant
            n == out@.len(),
            1 <= a || n == 0,
            a <= n || n == 0,
            forall|i: int, j: int| 0 <= i < j < a && j < n ==> out@[i] <= out@[j],
            forall|x: u64| out@.contains(x) <==> class_keys(names, 1).contains(x as int),
            out@.map_values(|x: u64| x as int).to_multiset() == built.to_multiset(),
        decreases n - a,
    {
        let mut b: usize = a;
        while b > 0 && out[b - 1] > out[b]
            invariant
                n == out@.len(),
                a < n,
                b <= a,
                forall|i: int, j: int| 0 <= i < j <= a && j != b ==> out@[i] <= out@[j],
                forall|x: u64| out@.contains(x) <==> class_keys(names, 1).contains(x as int),
                out@.map_values(|x: u64| x as int).to_multiset() == built.to_multiset(),
            decreases b,
        {
            let ghost prev = out@;
            let hi = out[b - 1];
            let lo = out[b];
            out.set(b - 1, lo);
            out.set(b, hi);
            proof {
                let ints = prev.map_values(|x: u64| x as int);
                lemma_swap_to_multiset(ints, b - 1, b as int);
                assert(out@.map_values(|x: u64| x as int) =~= ints.update(b - 1, ints[b as int]).update(
                    b as int,
                    ints[b - 1],
                ));
                assert forall|x: u64| out@.contains(x) <==> class_keys(names, 1).contains(x as int) by {
                    assert(prev.contains(x) <==> class_keys(names, 1).contains(x as int));
                    if out@.contains(x) {
                        let k = choose|k: int| 0 <= k < out@.len() && out@[k] == x;
                        if k == b - 1 {
                            assert(prev[b as int] == x);
                        } else if k == b {
                            assert(prev[b - 1] == x);
                        } else {
                            assert(prev[k] == x);
                        }
                    }
                    if prev.contains(x) {
                        let k = choose|k: int| 0 <= k < prev.len() && prev[k] == x;
                        if k == b - 1 {
                            assert(out@[b as int] == x);
                        } else if k == b {
                            assert(out@[b - 1] == x);
                        } else {
                            assert(out@[k] == x);
                        }
                    }
                }
            }
            b = b - 1;
        }
        a = a + 1;
    }
    proof {
        let ints = out@.map_values(|x: u64| x as int);
        assert forall|i: int, j: int| 0 <= i < j < ints.len() implies ints[i] <= ints[j] by {
            assert(out@[i] <= out@[j]);
        }
        lemma_sorted_unique_keys(ints, class_key_seq(names, 1));
        assert forall|i: int, j: int| 0 <= i < j < out@.len() implies out@[i] < out@[j] by {
            assert(ints[i] < ints[j]);
        }
    }
    out
}

/// The keys of the names of 9 to 16 bytes, packed into `u128`s, sorted (insertion sort).
/// The names of the class must have distinct keys; the keys then come out strictly
/// increasing.
pub fn build_keys16(strs: &[&str]) -> (r: Vec<u128>)
    requires
        class_key_seq(name_bytes(strs@), 2).no_duplicates(),
    ensures
        r@.len() == class_count(name_bytes(strs@), 2),
        forall|i: int, j: int| 0 <= i < j < r@.len() ==> r@[i] < r@[j],
        forall|x: u128| r@.contains(x) <==> class_keys(name_bytes(strs@), 2).contains(x as int),
        r@.map_values(|x: u128| x as int).to_multiset() == class_key_seq(name_bytes(strs@), 2).to_multiset(),
{
    let ghost names = name_bytes(strs@);
    let mut out: Vec<u128> = Vec::with_capacity(count_mid(strs));
    let mut i: usize = 0;
    while i < strs.len()
        invariant
            names == name_bytes(strs@),
            i <= strs@.len(),
            out@.len() == class_count(names.take(i as int), 2),
            out@.map_values(|x: u128| x as int) == class_key_seq(names.take(i as int), 2),
            forall|x: u128| out@.contains(x) <==> class_keys(names.take(i as int), 2).contains(x as int),
        decreases strs@.len() - i,
    {
        let s = strs[i].as_bytes();
        assert(names[i as int] == s@);
        assert(names.take(i + 1).drop_last() =~= names.take(i as int));
        let ghost before = out@;
        if class_of(s.len()) == 2 {
            let key = const_pack128(s);
            out.push(key);
            proof {
                assert(out@.map_values(|x: u128| x as int) =~= before.map_values(|x: u128| x as int).push(
                    key as int,
                ));
                assert(names.take(i + 1).last() == names[i as int]);
                assert forall|x: u128| out@.contains(x) <==> class_keys(names.take(i + 1), 2).contains(
                    x as int,
                ) by {
                    if out@.contains(x) && x != key {
                        let k = choose|k: int| 0 <= k < out@.len() && out@[k] == x;
                        assert(before[k] == x);
                    }
                    if x == key {
                        assert(out@[before.len() as int] == x);
                        assert(names.take(i + 1)[i as int] == s@);
                    }
                    if before.contains(x) {
                        let k = choose|k: int| 0 <= k < before.len() && before[k] == x;
                        assert(out@[k] == x);
                    }
                    if class_keys(names.take(i + 1), 2).contains(x as int) {
                        let k = choose|k: int|
                            0 <= k < names.take(i + 1).len() && len_class(names.take(i + 1)[k].len() as int)
                                == 2 && le_key(#[trigger] names.take(i + 1)[k]) == x as int;
                        if k < i {
                            assert(names.take(i as int)[k] == names.take(i + 1)[k]);
                        }
                    }
                    if class_keys(names.take(i as int), 2).contains(x as int) {
                        let k = choose|k: int|
                            0 <= k < names.take(i as int).len() && len_class(names.take(i as int)[k].len() as int)
                                == 2 && le_key(#[trigger] names.take(i as int)[k]) == x as int;
                        assert(names.take(i as int)[k] == names.take(i + 1)[k]);
                    }
                }
            }
        } else {
            proof {
                assert(names.take(i + 1).last() == names[i as int]);
                assert forall|x: u128| class_keys(names.take(i + 1), 2).contains(x as int)
                    <==> class_keys(names.take(i as int), 2).contains(x as int) by {
                    if class_keys(names.take(i + 1), 2).contains(x as int) {
                        let k = choose|k: int|
                            0 <= k < names.take(i + 1).len() && len_class(names.take(i + 1)[k].len() as int)
                                == 2 && le_key(#[trigger] names.take(i + 1)[k]) == x as int;
                        assert(k != i);
                        assert(names.take(i as int)[k] == names.take(i + 1)[k]);
                    }
                    if class_keys(names.take(i as int), 2).contains(x as int) {
                        let k = choose|k: int|
                            0 <= k < names.take(i as int).len() && len_class(names.take(i as int)[k].len() as int)
                                == 2 && le_key(#[trigger] names.take(i as int)[k]) == x as int;
                        assert(names.take(i as int)[k] == names.take(i + 1)[k]);
                    }
                }
            }
        }
        i = i + 1;
    }
    assert(names.take(strs@.len() as int) =~= names);
    let ghost built = out@.map_values(|x: u128| x as int);
    let n = out.len();
    let mut a: usize = 1;
    while a < n
        invariant
            n == out@.len(),
            1 <= a || n == 0,
            a <= n || n == 0,
            forall|i: int, j: int| 0 <= i < j < a && j < n ==> out@[i] <= out@[j],
            forall|x: u128| out@.contains(x) <==> class_keys(names, 2).contains(x as int),
            out@.map_values(|x: u128| x as int).to_multiset() == built.to_multiset(),
        decreases n - a,
    {
        let mut b: usize = a;
        while b > 0 && out[b - 1] > out[b]
            invariant
                n == out@.len(),
                a < n,
                b <= a,
                forall|i: int, j: int| 0 <= i < j <= a && j != b ==> out@[i] <= out@[j],
                forall|x: u128| out@.contains(x) <==> class_keys(names, 2).contains(x as int),
                out@.map_values(|x: u128| x as int).to_multiset() == built.to_multiset(),
            decreases b,
        {
            let ghost prev = out@;
            let hi = out[b - 1];
            let lo = out[b];
            out.set(b - 1, lo);
            out.set(b, hi);
            proof {
                let ints = prev.map_values(|x: u128| x as int);
                lemma_swap_to_multiset(ints, b - 1, b as int);
                assert(out@.map_values(|x: u128| x as int) =~= ints.update(b - 1, ints[b as int]).update(
                    b as int,
                    ints[b - 1],
                ));
                assert forall|x: u128| out@.contains(x) <==> class_keys(names, 2).contains(x as int) by {
                    assert(prev.contains(x) <==> class_keys(names, 2).contains(x as int));
                    if out@.contains(x) {
                        let k = choose|k: int| 0 <= k < out@.len() && out@[k] == x;
                        if k == b - 1 {
                            assert(prev[b as int] == x);
                        } else if k == b {
                            assert(prev[b - 1] == x);
                        } else {
                            assert(prev[k] == x);
                        }
                    }
                    if prev.contains(x) {
                        let k = choose|k: int| 0 <= k < prev.len() && prev[k] == x;
                        if k == b - 1 {
                            assert(out@[b as int] == x);
                        } else if k == b {
                            assert(out@[b - 1] == x);
                        } else {
                            assert(out@[k] == x);
                        }
                    }
                }
            }
            b = b - 1;
        }
        a = a + 1;
    }
    proof {
        let ints = out@.map_values(|x: u128| x as int);
        assert forall|i: int, j: int| 0 <= i < j < ints.len() implies ints[i] <= ints[j] by {
            assert(out@[i] <= out@[j]);
        }
        lemma_sorted_unique_keys(ints, class_key_seq(names, 2));
        assert forall|i: int, j: int| 0 <= i < j < out@.len() implies out@[i] < out@[j] by {
            assert(ints[i] < ints[j]);
        }
    }
    out
}

/// Is `target` among the sorted `keys`? Halves the range each step, keeping the last
/// position whose key is at most `target`.
fn binary_search8(keys: &[u64], target: u64) -> (r: bool)
    requires
        forall|i: int, j: int| 0 <= i < j < keys@.len() ==> keys@[i] <= keys@[j],
    ensures
        r == keys@.contains(target),
{
    if keys.len() == 0 {
        return false;
    }
    let n = keys.len();
    let mut base: usize = 0;
    let mut len: usize = n;
    while len > 1
        invariant
            n == keys@.len(),
            1 <= len,
            base + len <= n,
            forall|i: int, j: int| 0 <= i < j < keys@.len() ==> keys@[i] <= keys@[j],
            keys@.contains(target) ==> exists|k: int| base <= k < base + len && keys@[k] == target,
        decreases len,
    {
        let half = len / 2;
        assert(half < len);
        let mid = keys[base + half];
        if mid <= target {
            base = base + half;
        }
        len = len - half;
    }
    keys[base] == target
}

/// Is `target` among the sorted `keys`? Halves the range each step, keeping the last
/// position whose key is at most `target`.
fn binary_search16(keys: &[u128], target: u128) -> (r: bool)
    requires
        forall|i: int, j: int| 0 <= i < j < keys@.len() ==> keys@[i] <= keys@[j],
    ensures
        r == keys@.contains(target),
{
    if keys.len() == 0 {
        return false;
    }
    let n = keys.len();
    let mut base: usize = 0;
    let mut len: usize = n;
    while len > 1
        invariant
            n == keys@.len(),
            1 <= len,
            base + len <= n,
            forall|i: int, j: int| 0 <= i < j < keys@.len() ==> keys@[i] <= keys@[j],
            keys@.contains(target) ==> exists|k: int| base <= k < base + len && keys@[k] == target,
        decreases len,
    {
        let half = len / 2;
        assert(half < len);
        let mid = keys[base + half];
        if mid <= target {
            base = base + half;
        }
        len = len - half;
    }
    keys[base] == target
}

/// The names longer than 16 bytes, in order.
pub fn build_long<'a>(strs: &[&'a str]) -> (r: Vec<&'a str>)
    ensures
        r@ == long_names(strs@),
{
    let mut out: Vec<&'a str> = Vec::with_capacity(count_long(strs));
    let mut i: usize = 0;
    while i < strs.len()
        invariant
            i <= strs@.len(),
            out@ == long_names(strs@.take(i as int)),
        decreases strs@.len() - i,
    {
        assert(strs@.take(i + 1).drop_last() =~= strs@.take(i as int));
        assert(strs@.take(i + 1).last() == strs@[i as int]);
        if strs[i].as_bytes().len() > 16 {
            out.push(strs[i]);
        }
        i = i + 1;
    }
    assert(strs@.take(strs@.len() as int) =~= strs@);
    out
}


/// A long name is among the long names exactly when it is among all the names.
proof fn lemma_long_names(strs: Seq<&str>, t: Seq<u8>)
    requires
        t.len() > 16,
    ensures
        (exists|i: int| 0 <= i < long_names(strs).len() && #[trigger] long_names(strs)[i].spec_bytes() == t)
            <==> (exists|k: int| 0 <= k < strs.len() && #[trigger] strs[k].spec_bytes() == t),
    decreases strs.len(),
{
    if strs.len() > 0 {
        let p = strs.drop_last();
        lemma_long_names(p, t);
        let l = long_names(strs);
        let lp = long_names(p);
        if exists|i: int| 0 <= i < l.len() && #[trigger] l[i].spec_bytes() == t {
            let i = choose|i: int| 0 <= i < l.len() && #[trigger] l[i].spec_bytes() == t;
            if i < lp.len() {
                assert(lp[i] == l[i]);
                let k = choose|k: int| 0 <= k < p.len() && #[trigger] p[k].spec_bytes() == t;
                assert(strs[k] == p[k]);
            } else {
                assert(strs[strs.len() - 1].spec_bytes() == t);
            }
        }
        if exists|k: int| 0 <= k < strs.len() && #[trigger] strs[k].spec_bytes() == t {
            let k = choose|k: int| 0 <= k < strs.len() && #[trigger] strs[k].spec_bytes() == t;
            if k < p.len() {
                assert(p[k] == strs[k]);
                let i = choose|i: int| 0 <= i < lp.len() && #[trigger] lp[i].spec_bytes() == t;
                assert(l[i] == lp[i]);
            } else {
                assert(l[lp.len() as int] == strs.last());
            }
        }
    }
}

/// Do two byte strings have the same bytes?
fn bytes_equal(a: &[u8], b: &[u8]) -> (r: bool)
    ensures
        r == (a@ == b@),
{
    if a.len() != b.len() {
        return false;
    }
    let mut i: usize = 0;
    while i < a.len()
        invariant
            a@.len() == b@.len(),
            i <= a@.len(),
            forall|k: int| 0 <= k < i ==> a@[k] == b@[k],
        decreases a@.len() - i,
    {
        if a[i] != b[i] {
            return false;
        }
        i = i + 1;
    }
    assert(a@ =~= b@);
    true
}

/// A key is among the keys of a class in list order exactly when it is among the keys
/// of the class.
proof fn lemma_class_key_seq_contains(names: Seq<Seq<u8>>, class: int, x: int)
    ensures
        class_key_seq(names, class).contains(x) <==> class_keys(names, class).contains(x),
    decreases names.len(),
{
    if names.len() > 0 {
        let prev = names.drop_last();
        lemma_class_key_seq_contains(prev, class, x);
        let ks = class_key_seq(names, class);
        let kp = class_key_seq(prev, class);
        if class_keys(names, class).contains(x) {
            let k = choose|k: int|
                0 <= k < names.len() && len_class(names[k].len() as int) == class && le_key(
                    #[trigger] names[k],
                ) == x;
            if k < names.len() - 1 {
                assert(prev[k] == names[k]);
                assert(class_keys(prev, class).contains(x));
                let m = choose|m: int| 0 <= m < kp.len() && kp[m] == x;
                assert(ks[m] == x);
            } else {
                assert(ks[kp.len() as int] == x);
            }
        }
        if ks.contains(x) {
            let m = choose|m: int| 0 <= m < ks.len() && ks[m] == x;
            if m < kp.len() {
                assert(kp[m] == x);
                let k = choose|k: int|
                    0 <= k < prev.len() && len_class(prev[k].len() as int) == class && le_key(
                        #[trigger] prev[k],
                    ) == x;
                assert(names[k] == prev[k]);
            } else {
                assert(le_key(names[names.len() - 1]) == x);
            }
        }
    }
}

/// Adding one name to a list adds its key to the keys of its class, in list order.
proof fn lemma_name_bytes_push(strs: Seq<&str>, t: &str)
    ensures
        name_bytes(strs.push(t)) == name_bytes(strs).push(t.spec_bytes()),
        name_bytes(strs.push(t)).drop_last() == name_bytes(strs),
        long_names(strs.push(t)) == if t.spec_bytes().len() > 16 {
            long_names(strs).push(t)
        } else {
            long_names(strs)
        },
{
    assert(name_bytes(strs.push(t)) =~= name_bytes(strs).push(t.spec_bytes()));
    assert(name_bytes(strs.push(t)).drop_last() =~= name_bytes(strs));
    assert(strs.push(t).drop_last() =~= strs);
}

fn contains_u64(v: &Vec<u64>, x: u64) -> (r: bool)
    ensures
        r == v@.contains(x),
{
    let mut k: usize = 0;
    while k < v.len()
        invariant
            k <= v@.len(),
            forall|i: int| 0 <= i < k ==> v@[i] != x,
        decreases v@.len() - k,
    {
        if v[k] == x {
            return true;
        }
        k = k + 1;
    }
    false
}

fn contains_u128(v: &Vec<u128>, x: u128) -> (r: bool)
    ensures
        r == v@.contains(x),
{
    let mut k: usize = 0;
    while k < v.len()
        invariant
            k <= v@.len(),
            forall|i: int| 0 <= i < k ==> v@[i] != x,
        decreases v@.len() - k,
    {
        if v[k] == x {
            return true;
        }
        k = k + 1;
    }
    false
}

/// The names, in order, without those whose key repeats the key of an earlier name of
/// the same length class: the keys of each class are then all distinct, and every
/// class holds the same keys as before.
fn distinct_keyed<'a>(strs: &[&'a str]) -> (r: Vec<&'a str>)
    ensures
        class_key_seq(name_bytes(r@), 1).no_duplicates(),
        class_key_seq(name_bytes(r@), 2).no_duplicates(),
        forall|x: int| class_keys(name_bytes(r@), 1).contains(x) <==> class_keys(name_bytes(strs@), 1).contains(x),
        forall|x: int| class_keys(name_bytes(r@), 2).contains(x) <==> class_keys(name_bytes(strs@), 2).contains(x),
        long_names(r@) == long_names(strs@),
{
    let mut kept: Vec<&'a str> = Vec::new();
    let mut k8: Vec<u64> = Vec::new();
    let mut k16: Vec<u128> = Vec::new();
    let mut i: usize = 0;
    assert(strs@.take(0) =~= Seq::<&str>::empty());
    assert(kept@ =~= Seq::<&str>::empty());
    assert(k8@.map_values(|x: u64| x as int) =~= Seq::<int>::empty());
    assert(k16@.map_values(|x: u128| x as int) =~= Seq::<int>::empty());
    while i < strs.len()
        invariant
            i <= strs@.len(),
            k8@.map_values(|x: u64| x as int) == class_key_seq(name_bytes(kept@), 1),
            k16@.map_values(|x: u128| x as int) == class_key_seq(name_bytes(kept@), 2),
            class_key_seq(name_bytes(kept@), 1).no_duplicates(),
            class_key_seq(name_bytes(kept@), 2).no_duplicates(),
            forall|x: int|
                class_key_seq(name_bytes(kept@), 1).contains(x) <==> class_key_seq(
                    name_bytes(strs@.take(i as int)),
                    1,
                ).contains(x),
            forall|x: int|
                class_key_seq(name_bytes(kept@), 2).contains(x) <==> class_key_seq(
                    name_bytes(strs@.take(i as int)),
                    2,
                ).contains(x),
            long_names(kept@) == long_names(strs@.take(i as int)),
        decreases strs@.len() - i,
    {
        let t = strs[i];
        let b = t.as_bytes();
        let ghost prev_kept = kept@;
        let ghost nk = name_bytes(kept@);
        let ghost taken = strs@.take(i as int);
        proof {
            assert(forall|x: int| #[trigger] class_key_seq(nk, 1).contains(x) <==> class_key_seq(
                name_bytes(taken),
                1,
            ).contains(x));
            assert(forall|x: int| #[trigger] class_key_seq(nk, 2).contains(x) <==> class_key_seq(
                name_bytes(taken),
                2,
            ).contains(x));
            assert(strs@.take(i + 1) =~= taken.push(t));
            lemma_name_bytes_push(taken, t);
            lemma_name_bytes_push(prev_kept, t);
        }
        let ghost ns = name_bytes(strs@.take(i + 1));
        let class = class_of(b.len());
        let mut keep = true;
        if class == 1 {
            let key = const_pack64(b);
            let ghost ints = k8@.map_values(|x: u64| x as int);
            if contains_u64(&k8, key) {
                keep = false;
                proof {
                    let m = choose|m: int| 0 <= m < k8@.len() && k8@[m] == key;
                    assert(ints[m] == key as int);
                }
            } else {
                k8.push(key);
                proof {
                    assert(k8@.map_values(|x: u64| x as int) =~= ints.push(key as int));
                    if ints.contains(key as int) {
                        let m = choose|m: int| 0 <= m < ints.len() && ints[m] == key as int;
                        assert(k8@[m] == key);
                    }
                }
            }
        } else if class == 2 {
            let key = const_pack128(b);
            let ghost ints = k16@.map_values(|x: u128| x as int);
            if contains_u128(&k16, key) {
                keep = false;
                proof {
                    let m = choose|m: int| 0 <= m < k16@.len() && k16@[m] == key;
                    assert(ints[m] == key as int);
                }
            } else {
                k16.push(key);
                proof {
                    assert(k16@.map_values(|x: u128| x as int) =~= ints.push(key as int));
                    if ints.contains(key as int) {
                        let m = choose|m: int| 0 <= m < ints.len() && ints[m] == key as int;
                        assert(k16@[m] == key);
                    }
                }
            }
        }
        if keep {
            kept.push(t);
        }
        proof {
            let c1 = class_key_seq(name_bytes(kept@), 1);
            let c2 = class_key_seq(name_bytes(kept@), 2);
            let nt = name_bytes(taken);
            assert(b@ == t.spec_bytes());
            assert(nk.push(b@).drop_last() =~= nk);
            assert(nt.push(b@).drop_last() =~= nt);
            assert(ns == nt.push(b@));
            if keep {
                assert(name_bytes(kept@) == nk.push(b@));
            } else {
                assert(kept@ == prev_kept);
            }
            assert(class_key_seq(ns, 1) == if class == 1 {
                class_key_seq(nt, 1).push(le_key(b@))
            } else {
                class_key_seq(nt, 1)
            });
            assert(class_key_seq(ns, 2) == if class == 2 {
                class_key_seq(nt, 2).push(le_key(b@))
            } else {
                class_key_seq(nt, 2)
            });
            assert(c1 == if keep && class == 1 {
                class_key_seq(nk, 1).push(le_key(b@))
            } else {
                class_key_seq(nk, 1)
            });
            assert(c2 == if keep && class == 2 {
                class_key_seq(nk, 2).push(le_key(b@))
            } else {
                class_key_seq(nk, 2)
            });
            assert forall|x: int| c1.contains(x) <==> class_key_seq(ns, 1).contains(x) by {
                let a = class_key_seq(nk, 1);
                let a2 = class_key_seq(name_bytes(taken), 1);
                if c1.contains(x) && class != 1 {
                    let m = choose|m: int| 0 <= m < c1.len() && c1[m] == x;
                    assert(a[m] == x);
                    assert(a.contains(x));
                    assert(a2.contains(x));
                    let m2 = choose|m2: int| 0 <= m2 < a2.len() && a2[m2] == x;
                    assert(class_key_seq(ns, 1)[m2] == x);
                }
                if class_key_seq(ns, 1).contains(x) && class != 1 {
                    let m = choose|m: int| 0 <= m < class_key_seq(ns, 1).len() && class_key_seq(ns, 1)[m] == x;
                    assert(a2[m] == x);
                    assert(a2.contains(x));
                    assert(a.contains(x));
                    let m2 = choose|m2: int| 0 <= m2 < a.len() && a[m2] == x;
                    assert(c1[m2] == x);
                }
                if class == 1 {
                    let cs = class_key_seq(ns, 1);
                    if c1.contains(x) {
                        let m = choose|m: int| 0 <= m < c1.len() && c1[m] == x;
                        if m < a.len() {
                            assert(a[m] == x);
                            assert(a.contains(x));
                            assert(a2.contains(x));
                            let m2 = choose|m2: int| 0 <= m2 < a2.len() && a2[m2] == x;
                            assert(cs[m2] == x);
                        } else {
                            assert(cs[a2.len() as int] == x);
                        }
                    }
                    if cs.contains(x) {
                        let m = choose|m: int| 0 <= m < cs.len() && cs[m] == x;
                        if m < a2.len() {
                            assert(a2[m] == x);
                            assert(a2.contains(x));
                            assert(a.contains(x));
                            let m2 = choose|m2: int| 0 <= m2 < a.len() && a[m2] == x;
                            assert(c1[m2] == x);
                        } else if keep {
                            assert(c1[a.len() as int] == x);
                        } else {
                            assert(a.contains(x));
                        }
                    }
                }
            }
            assert forall|x: int| c2.contains(x) <==> class_key_seq(ns, 2).contains(x) by {
                let a = class_key_seq(nk, 2);
                let a2 = class_key_seq(name_bytes(taken), 2);
                if c2.contains(x) && class != 2 {
                    let m = choose|m: int| 0 <= m < c2.len() && c2[m] == x;
                    assert(a[m] == x);
                    assert(a.contains(x));
                    assert(a2.contains(x));
                    let m2 = choose|m2: int| 0 <= m2 < a2.len() && a2[m2] == x;
                    assert(class_key_seq(ns, 2)[m2] == x);
                }
                if class_key_seq(ns, 2).contains(x) && class != 2 {
                    let m = choose|m: int| 0 <= m < class_key_seq(ns, 2).len() && class_key_seq(ns, 2)[m] == x;
                    assert(a2[m] == x);
                    assert(a2.contains(x));
                    assert(a.contains(x));
                    let m2 = choose|m2: int| 0 <= m2 < a.len() && a[m2] == x;
                    assert(c2[m2] == x);
                }
                if class == 2 {
                    let cs = class_key_seq(ns, 2);
                    if c2.contains(x) {
                        let m = choose|m: int| 0 <= m < c2.len() && c2[m] == x;
                        if m < a.len() {
                            assert(a[m] == x);
                            assert(a.contains(x));
                            assert(a2.contains(x));
                            let m2 = choose|m2: int| 0 <= m2 < a2.len() && a2[m2] == x;
                            assert(cs[m2] == x);
                        } else {
                            assert(cs[a2.len() as int] == x);
                        }
                    }
                    if cs.contains(x) {
                        let m = choose|m: int| 0 <= m < cs.len() && cs[m] == x;
                        if m < a2.len() {
                            assert(a2[m] == x);
                            assert(a2.contains(x));
                            assert(a.contains(x));
                            let m2 = choose|m2: int| 0 <= m2 < a.len() && a[m2] == x;
                            assert(c2[m2] == x);
                        } else if keep {
                            assert(c2[a.len() as int] == x);
                        } else {
                            assert(a.contains(x));
                        }
                    }
                }
            }
        }
        i = i + 1;
    }
    proof {
        assert(strs@.take(strs@.len() as int) =~= strs@);
        assert forall|x: int| class_keys(name_bytes(kept@), 1).contains(x) <==> class_keys(name_bytes(strs@), 1).contains(x) by {
            lemma_class_key_seq_contains(name_bytes(kept@), 1, x);
            lemma_class_key_seq_contains(name_bytes(strs@), 1, x);
        }
        assert forall|x: int| class_keys(name_bytes(kept@), 2).contains(x) <==> class_keys(name_bytes(strs@), 2).contains(x) by {
            lemma_class_key_seq_contains(name_bytes(kept@), 2, x);
            lemma_class_key_seq_contains(name_bytes(strs@), 2, x);
        }
    }
    kept
}

/// A table of names, built once and then searched: sorted `u64` keys of the names of
/// 1 to 8 bytes, sorted `u128` keys of those of 9 to 16 bytes, and the longer names.
pub struct LookupTable<'a> {
    keys8: Vec<u64>,
    keys16: Vec<u128>,
    long: Vec<&'a str>,
    strs: Ghost<Seq<&'a str>>,
}

impl<'a> LookupTable<'a> {
    /// The names the table was built from, as bytes.
    pub closed spec fn names(&self) -> Seq<Seq<u8>> {
        name_bytes(self.strs@)
    }

    #[verifier::type_invariant]
    spec fn wf(&self) -> bool {
        &&& forall|i: int, j: int| 0 <= i < j < self.keys8@.len() ==> self.keys8@[i] <= self.keys8@[j]
        &&& forall|x: u64| self.keys8@.contains(x) <==> class_keys(self.names(), 1).contains(x as int)
        &&& forall|i: int, j: int| 0 <= i < j < self.keys16@.len() ==> self.keys16@[i] <= self.keys16@[j]
        &&& forall|x: u128| self.keys16@.contains(x) <==> class_keys(self.names(), 2).contains(x as int)
        &&& self.long@ == long_names(self.strs@)
    }

    /// Build the table of `strs`. A name whose key repeats that of an earlier name of
    /// its length class adds nothing to the lookup, and is left out of the key tables,
    /// which the key builders require to hold no key twice.
    pub fn new(strs: &[&'a str]) -> (r: Self)
        ensures
            r.names() == name_bytes(strs@),
    {
        let named = distinct_keyed(strs);
        let keys8 = build_keys8(named.as_slice());
        let keys16 = build_keys16(named.as_slice());
        let long = build_long(named.as_slice());
        LookupTable { keys8, keys16, long, strs: Ghost(strs@) }
    }

    /// Is `input` in the table? See `lookup_spec`: names of up to 16 bytes are compared
    /// by key, so an input that is a name followed by NUL bytes (in the same length
    /// class) is found too.
    pub fn contains(&self, input: &[u8]) -> (r: bool)
        ensures
            r == lookup_spec(self.names(), input@),
    {
        proof {
            use_type_invariant(self);
        }
        let n = input.len();
        if n == 0 {
            false
        } else if n <= 8 {
            let key = pack8(input);
            binary_search8(self.keys8.as_slice(), key)
        } else if n <= 16 {
            let key = pack16(input);
            binary_search16(self.keys16.as_slice(), key)
        } else {
            proof {
                lemma_long_names(self.strs@, input@);
            }
            let mut i: usize = 0;
            while i < self.long.len()
                invariant
                    self.long@ == long_names(self.strs@),
                    input@.len() > 16,
                    i <= self.long@.len(),
                    forall|k: int| 0 <= k < i ==> (#[trigger] self.long@[k]).spec_bytes() != input@,
                decreases self.long@.len() - i,
            {
                if bytes_equal(self.long[i].as_bytes(), input) {
                    proof {
                        assert(self.long@[i as int].spec_bytes() == input@);
                        lemma_long_names(self.strs@, input@);
                        let k = choose|k: int| 0 <= k < self.strs@.len() && #[trigger] self.strs@[k].spec_bytes() == input@;
                        assert(self.names()[k] == self.strs@[k].spec_bytes());
                    }
                    return true;
                }
                i = i + 1;
            }
            proof {
                lemma_long_names(self.strs@, input@);
                if exists|k: int| 0 <= k < self.names().len() && #[trigger] self.names()[k] == input@ {
                    let k = choose|k: int| 0 <= k < self.names().len() && #[trigger] self.names()[k] == input@;
                    assert(self.strs@[k].spec_bytes() == input@);
                }
            }
            false
        }
    }
}


/// The file extensions (without the dot) of binary formats: images, audio, video, archives, compiled objects, binary documents, fonts, databases and disk images.
pub open spec fn binary_ext_names() -> Seq<&'static str> {
    seq![
        "png", "jpg", "jpeg", "gif", "bmp", "ico", "webp", "tiff", "tif", "heic", "heif",
        "avif", "psd", "xcf", "raw", "cr2", "nef", "orf", "sr2", "dng", "mp3", "wav", "flac",
        "ogg", "oga", "m4a", "aac", "wma", "opus", "aiff", "mid", "midi", "amr", "mp4", "mkv",
        "avi", "mov", "webm", "flv", "wmv", "m4v", "mpg", "mpeg", "3gp", "mts", "zip", "tar",
        "gz", "tgz", "bz2", "tbz2", "7z", "rar", "xz", "zst", "lz4", "lzma", "z", "cab", "br",
        "exe", "dll", "so", "a", "o", "obj", "lib", "class", "pyc", "pyo", "pyd", "wasm",
        "bin", "dylib", "msi", "deb", "rpm", "apk", "elf", "com", "pdf", "doc", "docx", "xls",
        "xlsx", "ppt", "pptx", "odt", "ods", "odp", "rtf", "ttf", "otf", "woff", "woff2",
        "eot", "db", "sqlite", "sqlite3", "mdb", "accdb", "dat", "parquet", "avro", "orc",
        "iso", "dmg", "img", "jar", "war", "ear", "pak", "vhd", "vmdk", "qcow2", "appimage",
        "flatpak",
    ]
}

fn binary_ext_list() -> (r: Vec<&'static str>)
    ensures
        r@ == binary_ext_names(),
{
    let r = vec![
        "png", "jpg", "jpeg", "gif", "bmp", "ico", "webp", "tiff", "tif", "heic", "heif",
        "avif", "psd", "xcf", "raw", "cr2", "nef", "orf", "sr2", "dng", "mp3", "wav", "flac",
        "ogg", "oga", "m4a", "aac", "wma", "opus", "aiff", "mid", "midi", "amr", "mp4", "mkv",
        "avi", "mov", "webm", "flv", "wmv", "m4v", "mpg", "mpeg", "3gp", "mts", "zip", "tar",
        "gz", "tgz", "bz2", "tbz2", "7z", "rar", "xz", "zst", "lz4", "lzma", "z", "cab", "br",
        "exe", "dll", "so", "a", "o", "obj", "lib", "class", "pyc", "pyo", "pyd", "wasm",
        "bin", "dylib", "msi", "deb", "rpm", "apk", "elf", "com", "pdf", "doc", "docx", "xls",
        "xlsx", "ppt", "pptx", "odt", "ods", "odp", "rtf", "ttf", "otf", "woff", "woff2",
        "eot", "db", "sqlite", "sqlite3", "mdb", "accdb", "dat", "parquet", "avro", "orc",
        "iso", "dmg", "img", "jar", "war", "ear", "pak", "vhd", "vmdk", "qcow2", "appimage",
        "flatpak",
    ];
    assert(r@ =~= binary_ext_names());
    r
}

/// The lookup table of `binary_ext_names`.
pub fn binary_ext_table() -> (r: LookupTable<'static>)
    ensures
        r.names() == name_bytes(binary_ext_names()),
{
    let list = binary_ext_list();
    LookupTable::new(list.as_slice())
}

/// Is `input` one of `binary_ext_names` (see `lookup_spec`)?
pub fn is_binary_ext(input: &[u8]) -> (r: bool)
    ensures
        r == lookup_spec(name_bytes(binary_ext_names()), input@),
{
    binary_ext_table().contains(input)
}

/// The directory names that tools reserve: version control, dependency and package caches, build output, editor settings, infrastructure state, coverage artifacts and operating-system junk.
pub open spec fn reserved_tool_dir_names() -> Seq<&'static str> {
    seq![
        ".git", ".hg", ".svn", ".jj", ".bzr", "_darcs", "CVS", "RCS", "SCCS", "node_modules",
        "__pycache__", ".mypy_cache", ".pytest_cache", ".tox", ".nox", ".venv", "venv", "env",
        ".env", ".eggs", ".ipynb_checkpoints", "vendor", "Pods", ".dart_tool", ".pub-cache",
        ".cargo", ".rustup", "target", ".gradle", ".m2", ".ivy2", ".bundle", ".stack-work",
        "_build", "deps", ".yarn", ".pnpm-store", ".npm", ".cabal-sandbox", "dist-newstyle",
        "build", "dist", "out", "bin", "obj", ".next", ".nuxt", ".output", ".svelte-kit",
        ".angular", ".parcel-cache", ".turbo", ".cache", ".webpack", ".idea", ".vscode", ".vs",
        ".fleet", ".settings", ".terraform", ".serverless", ".aws-sam", ".nyc_output",
        "coverage", ".sass-cache", "$RECYCLE.BIN", "System Volume Information",
    ]
}

fn reserved_tool_dir_list() -> (r: Vec<&'static str>)
    ensures
        r@ == reserved_tool_dir_names(),
{
    let r = vec![
        ".git", ".hg", ".svn", ".jj", ".bzr", "_darcs", "CVS", "RCS", "SCCS", "node_modules",
        "__pycache__", ".mypy_cache", ".pytest_cache", ".tox", ".nox", ".venv", "venv", "env",
        ".env", ".eggs", ".ipynb_checkpoints", "vendor", "Pods", ".dart_tool", ".pub-cache",
        ".cargo", ".rustup", "target", ".gradle", ".m2", ".ivy2", ".bundle", ".stack-work",
        "_build", "deps", ".yarn", ".pnpm-store", ".npm", ".cabal-sandbox", "dist-newstyle",
        "build", "dist", "out", "bin", "obj", ".next", ".nuxt", ".output", ".svelte-kit",
        ".angular", ".parcel-cache", ".turbo", ".cache", ".webpack", ".idea", ".vscode", ".vs",
        ".fleet", ".settings", ".terraform", ".serverless", ".aws-sam", ".nyc_output",
        "coverage", ".sass-cache", "$RECYCLE.BIN", "System Volume Information",
    ];
    assert(r@ =~= reserved_tool_dir_names());
    r
}

/// The lookup table of `reserved_tool_dir_names`.
pub fn reserved_tool_dir_table() -> (r: LookupTable<'static>)
    ensures
        r.names() == name_bytes(reserved_tool_dir_names()),
{
    let list = reserved_tool_dir_list();
    LookupTable::new(list.as_slice())
}

/// Is `input` one of `reserved_tool_dir_names` (see `lookup_spec`)?
pub fn is_reserved_tool_dir(input: &[u8]) -> (r: bool)
    ensures
        r == lookup_spec(name_bytes(reserved_tool_dir_names()), input@),
{
    reserved_tool_dir_table().contains(input)
}

/// `s` without its trailing NUL bytes.
pub open spec fn trim_nuls(s: Seq<u8>) -> Seq<u8>
    decreases s.len(),
{
    if s.len() > 0 && s.last() == 0 {
        trim_nuls(s.drop_last())
    } else {
        s
    }
}

proof fn lemma_le_key_push_zero(s: Seq<u8>)
    ensures
        le_key(s.push(0)) == le_key(s),
    decreases s.len(),
{
    let t = s.push(0u8);
    if s.len() == 0 {
        assert(t.drop_first() =~= Seq::<u8>::empty());
        assert(t[0] == 0);
        assert(le_key(t) == t[0] + 256 * le_key(t.drop_first()));
    } else {
        assert(t.drop_first() =~= s.drop_first().push(0u8));
        lemma_le_key_push_zero(s.drop_first());
        assert(t[0] == s[0]);
        assert(le_key(t) == t[0] + 256 * le_key(t.drop_first()));
    }
}

proof fn lemma_le_key_trim(s: Seq<u8>)
    ensures
        le_key(trim_nuls(s)) == le_key(s),
        trim_nuls(s).len() == 0 || trim_nuls(s).last() != 0,
    decreases s.len(),
{
    if s.len() > 0 && s.last() == 0 {
        lemma_le_key_trim(s.drop_last());
        lemma_le_key_push_zero(s.drop_last());
        assert(s.drop_last().push(0) =~= s);
    }
}

/// Two byte strings pack to the same key exactly when they are equal once their
/// trailing NUL bytes are dropped.
pub proof fn lemma_le_key_equal_iff_trimmed(a: Seq<u8>, b: Seq<u8>)
    ensures
        (le_key(a) == le_key(b)) <==> (trim_nuls(a) == trim_nuls(b)),
{
    lemma_le_key_trim(a);
    lemma_le_key_trim(b);
    let ta = trim_nuls(a);
    let tb = trim_nuls(b);
    if le_key(a) == le_key(b) {
        if ta.len() > 0 && tb.len() > 0 {
            lemma_le_key_injective(ta, tb);
        } else if ta.len() > 0 {
            lemma_le_key_positive(ta);
            assert(tb =~= Seq::<u8>::empty());
        } else if tb.len() > 0 {
            lemma_le_key_positive(tb);
            assert(ta =~= Seq::<u8>::empty());
        } else {
            assert(ta =~= tb);
        }
    }
}

/// `input` matches the listed name `name`: in the same length class, and equal to it
/// byte for byte past 16 bytes, up to trailing NUL bytes otherwise.
pub open spec fn name_matches(name: Seq<u8>, input: Seq<u8>) -> bool {
    &&& len_class(name.len() as int) == len_class(input.len() as int)
    &&& if input.len() > 16 {
        name == input
    } else {
        trim_nuls(name) == trim_nuls(input)
    }
}

/// `input` is not empty and matches one of the listed names.
pub open spec fn matches_listed(strs: Seq<&str>, input: Seq<u8>) -> bool {
    input.len() > 0 && exists|k: int| 0 <= k < strs.len() && #[trigger] name_matches(strs[k].spec_bytes(), input)
}

/// A lookup succeeds exactly when the input matches one of the names the table was
/// built from.
pub proof fn lemma_lookup_matches_listed(strs: Seq<&str>, input: Seq<u8>)
    ensures
        lookup_spec(name_bytes(strs), input) <==> matches_listed(strs, input),
{
    let names = name_bytes(strs);
    let class = len_class(input.len() as int);
    if lookup_spec(names, input) {
        if class == 3 {
            let k = choose|k: int| 0 <= k < names.len() && #[trigger] names[k] == input;
            assert(names[k] == strs[k].spec_bytes());
            assert(name_matches(strs[k].spec_bytes(), input));
        } else {
            let k = choose|k: int|
                0 <= k < names.len() && len_class(names[k].len() as int) == class && le_key(
                    #[trigger] names[k],
                ) == le_key(input);
            assert(names[k] == strs[k].spec_bytes());
            lemma_le_key_equal_iff_trimmed(names[k], input);
            assert(name_matches(strs[k].spec_bytes(), input));
        }
    }
    if matches_listed(strs, input) {
        let k = choose|k: int| 0 <= k < strs.len() && #[trigger] name_matches(strs[k].spec_bytes(), input);
        assert(names[k] == strs[k].spec_bytes());
        if class == 3 {
            assert(names[k] == input);
        } else {
            lemma_le_key_equal_iff_trimmed(names[k], input);
            assert(class_keys(names, class).contains(le_key(input)));
        }
    }
}

/// The binary-format extensions are exactly png, jpg, jpeg, ..., qcow2, appimage and
/// flatpak: `is_binary_ext` accepts an input exactly when it matches one of them (up to
/// trailing NUL bytes within a length class), so any other name, such as a plain-text
/// extension, is rejected.
pub proof fn lemma_binary_ext_accepts_exactly(input: Seq<u8>)
    ensures
        lookup_spec(name_bytes(binary_ext_names()), input) <==> matches_listed(
            seq![
                "png", "jpg", "jpeg", "gif", "bmp", "ico", "webp", "tiff", "tif", "heic", "heif",
                "avif", "psd", "xcf", "raw", "cr2", "nef", "orf", "sr2", "dng", "mp3", "wav", "flac",
                "ogg", "oga", "m4a", "aac", "wma", "opus", "aiff", "mid", "midi", "amr", "mp4", "mkv",
                "avi", "mov", "webm", "flv", "wmv", "m4v", "mpg", "mpeg", "3gp", "mts", "zip", "tar",
                "gz", "tgz", "bz2", "tbz2", "7z", "rar", "xz", "zst", "lz4", "lzma", "z", "cab", "br",
                "exe", "dll", "so", "a", "o", "obj", "lib", "class", "pyc", "pyo", "pyd", "wasm",
                "bin", "dylib", "msi", "deb", "rpm", "apk", "elf", "com", "pdf", "doc", "docx", "xls",
                "xlsx", "ppt", "pptx", "odt", "ods", "odp", "rtf", "ttf", "otf", "woff", "woff2",
                "eot", "db", "sqlite", "sqlite3", "mdb", "accdb", "dat", "parquet", "avro", "orc",
                "iso", "dmg", "img", "jar", "war", "ear", "pak", "vhd", "vmdk", "qcow2", "appimage",
                "flatpak",
            ],
            input,
        ),
{
    assert(binary_ext_names() =~= seq![
        "png", "jpg", "jpeg", "gif", "bmp", "ico", "webp", "tiff", "tif", "heic", "heif",
        "avif", "psd", "xcf", "raw", "cr2", "nef", "orf", "sr2", "dng", "mp3", "wav", "flac",
        "ogg", "oga", "m4a", "aac", "wma", "opus", "aiff", "mid", "midi", "amr", "mp4", "mkv",
        "avi", "mov", "webm", "flv", "wmv", "m4v", "mpg", "mpeg", "3gp", "mts", "zip", "tar",
        "gz", "tgz", "bz2", "tbz2", "7z", "rar", "xz", "zst", "lz4", "lzma", "z", "cab", "br",
        "exe", "dll", "so", "a", "o", "obj", "lib", "class", "pyc", "pyo", "pyd", "wasm",
        "bin", "dylib", "msi", "deb", "rpm", "apk", "elf", "com", "pdf", "doc", "docx", "xls",
        "xlsx", "ppt", "pptx", "odt", "ods", "odp", "rtf", "ttf", "otf", "woff", "woff2",
        "eot", "db", "sqlite", "sqlite3", "mdb", "accdb", "dat", "parquet", "avro", "orc",
        "iso", "dmg", "img", "jar", "war", "ear", "pak", "vhd", "vmdk", "qcow2", "appimage",
        "flatpak",
    ]);
    lemma_lookup_matches_listed(binary_ext_names(), input);
}

/// The reserved tool directories are exactly .git, .hg, ..., $RECYCLE.BIN and System
/// Volume Information: `is_reserved_tool_dir` accepts an input exactly when it matches
/// one of them (up to trailing NUL bytes within a length class), so any other name, such
/// as an ordinary source directory, is rejected.
pub proof fn lemma_reserved_tool_dirs_exactly(input: Seq<u8>)
    ensures
        lookup_spec(name_bytes(reserved_tool_dir_names()), input) <==> matches_listed(
            seq![
                ".git", ".hg", ".svn", ".jj", ".bzr", "_darcs", "CVS", "RCS", "SCCS", "node_modules",
                "__pycache__", ".mypy_cache", ".pytest_cache", ".tox", ".nox", ".venv", "venv", "env",
                ".env", ".eggs", ".ipynb_checkpoints", "vendor", "Pods", ".dart_tool", ".pub-cache",
                ".cargo", ".rustup", "target", ".gradle", ".m2", ".ivy2", ".bundle", ".stack-work",
                "_build", "deps", ".yarn", ".pnpm-store", ".npm", ".cabal-sandbox", "dist-newstyle",
                "build", "dist", "out", "bin", "obj", ".next", ".nuxt", ".output", ".svelte-kit",
                ".angular", ".parcel-cache", ".turbo", ".cache", ".webpack", ".idea", ".vscode", ".vs",
                ".fleet", ".settings", ".terraform", ".serverless", ".aws-sam", ".nyc_output",
                "coverage", ".sass-cache", "$RECYCLE.BIN", "System Volume Information",
            ],
            input,
        ),
{
    assert(reserved_tool_dir_names() =~= seq![
        ".git", ".hg", ".svn", ".jj", ".bzr", "_darcs", "CVS", "RCS", "SCCS", "node_modules",
        "__pycache__", ".mypy_cache", ".pytest_cache", ".tox", ".nox", ".venv", "venv", "env",
        ".env", ".eggs", ".ipynb_checkpoints", "vendor", "Pods", ".dart_tool", ".pub-cache",
        ".cargo", ".rustup", "target", ".gradle", ".m2", ".ivy2", ".bundle", ".stack-work",
        "_build", "deps", ".yarn", ".pnpm-store", ".npm", ".cabal-sandbox", "dist-newstyle",
        "build", "dist", "out", "bin", "obj", ".next", ".nuxt", ".output", ".svelte-kit",
        ".angular", ".parcel-cache", ".turbo", ".cache", ".webpack", ".idea", ".vscode", ".vs",
        ".fleet", ".settings", ".terraform", ".serverless", ".aws-sam", ".nyc_output",
        "coverage", ".sass-cache", "$RECYCLE.BIN", "System Volume Information",
    ]);
    lemma_lookup_matches_listed(reserved_tool_dir_names(), input);
}

} // verus!
