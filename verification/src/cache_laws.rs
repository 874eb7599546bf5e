//! The fragment cache never hides a match: every fragment hash extracted from an
//! expression is marked by the presence scan of any (small) buffer that holds a match.
use vstd::prelude::*;
use crate::extractor::{
    Expr, req_spec, hir_literals_result, kept_literals, capped_shortest, fragments_of,
    any_case_insensitive, lemma_kept_long, lemma_capped_shortest,
};
use crate::fragments::{
    pattern_fragments, lower_bytes, occurs_at, scalar_presence, scratch_bit, spec_fragment_mask,
    scalar_hit, scalar_seen_before, scalar_sampled, first_index_of, lemma_occurrence_shows_fragments,
    window_hash, presence_result, wide_presence, wide_covered, wide_seen, lemma_wide_presence_exact,
    SimdSupport,
};
use crate::literal_laws::{
    expr_matches, part_in, is_substring, lemma_req_sound, lemma_substring_lower, lemma_lower_subrange,
};

verus! {

/// Each kept literal is the bytes of one of the parts (lowercased when folding).
proof fn lemma_kept_from_part(parts: Seq<(Seq<u8>, bool)>, fold: bool, k: int)
    requires
        0 <= k < kept_literals(parts, fold).len(),
    ensures
        exists|m: int|
            0 <= m < parts.len() && kept_literals(parts, fold)[k] == if fold {
                lower_bytes(#[trigger] parts[m].0)
            } else {
                parts[m].0
            },
    decreases parts.len(),
{
    let p = parts.drop_last();
    let prev = kept_literals(p, fold);
    if k < prev.len() {
        lemma_kept_from_part(p, fold, k);
        let m = choose|m: int|
            0 <= m < p.len() && prev[k] == if fold {
                lower_bytes(#[trigger] p[m].0)
            } else {
                p[m].0
            };
        assert(parts[m] == p[m]);
        assert(kept_literals(parts, fold)[k] == prev[k]);
    } else {
        let m = parts.len() - 1;
        assert(parts[m] == parts.last());
    }
}

/// A fragment hash of all the literals is a fragment hash of one of them.
proof fn lemma_fragment_of_some(lits: Seq<Seq<u8>>, fragment_len: int, x: u32)
    requires
        fragments_of(lits, fragment_len).contains(x),
    ensures
        exists|k: int| 0 <= k < lits.len() && pattern_fragments(#[trigger] lits[k], fragment_len).contains(x),
    decreases lits.len(),
{
    let p = lits.drop_last();
    if fragments_of(p, fragment_len).contains(x) {
        lemma_fragment_of_some(p, fragment_len, x);
        let k = choose|k: int| 0 <= k < p.len() && pattern_fragments(#[trigger] p[k], fragment_len).contains(x);
        assert(lits[k] == p[k]);
    } else {
        assert(pattern_fragments(lits.last(), fragment_len).to_set().contains(x));
        assert(lits[lits.len() - 1] == lits.last());
    }
}

/// Some four-byte window of `buf` hashes to `x`, as the scan hashes windows.
pub open spec fn shows_hash(buf: Seq<u8>, mask: u32, case_insensitive: bool, x: u32) -> bool {
    exists|p: int| 0 <= p && p + 4 <= buf.len() && #[trigger] window_hash(buf, p, mask, case_insensitive) == x
}

/// A buffer holding a match of the expression at `q` shows every extracted fragment hash
/// in a four-byte window, hashed as the scan hashes it.
proof fn lemma_match_shows_every_fragment(
    h: Expr,
    r: (Vec<u32>, usize, bool, bool),
    s: Seq<u8>,
    buf: Seq<u8>,
    q: int,
)
    requires
        hir_literals_result(h, Some(r)),
        expr_matches(h, s),
        0 <= q,
        q + s.len() - r.1 + 4 <= buf.len(),
        buf.subrange(q, q + s.len()) == s,
    ensures
        3 <= r.1 <= 4,
        forall|j: int| 0 <= j < r.0@.len() ==> shows_hash(buf, spec_fragment_mask(r.1), r.2, #[trigger] r.0@[j]),
{
    let parts = req_spec(h, true);
    let fold = any_case_insensitive(parts);
    let lits = kept_literals(parts, fold);
    let fragment_len = r.1;
    let hashes = r.0@;
    let mask = spec_fragment_mask(fragment_len);
    lemma_req_sound(h, true, s);
    lemma_kept_long(parts, fold);
    lemma_capped_shortest(lits);
    assert(3 <= fragment_len <= 4) by {
        if fragment_len != 4 {
            let k = choose|k: int| 0 <= k < lits.len() && #[trigger] lits[k].len() == capped_shortest(lits);
        }
    }
    assert(r.2 == fold);
    assert forall|j: int| 0 <= j < r.0@.len() implies shows_hash(
        buf,
        spec_fragment_mask(r.1),
        r.2,
        #[trigger] r.0@[j],
    ) by {
        let x = hashes[j];
        assert(hashes.to_set().contains(x));
        lemma_fragment_of_some(lits, fragment_len as int, x);
        let kk = choose|kk: int|
            0 <= kk < lits.len() && pattern_fragments(#[trigger] lits[kk], fragment_len as int).contains(x);
        let lit = lits[kk];
        let len = lit.len() as int;
        lemma_kept_from_part(parts, fold, kk);
        let m = choose|m: int|
            0 <= m < parts.len() && lit == if fold {
                lower_bytes(#[trigger] parts[m].0)
            } else {
                parts[m].0
            };
        let p = parts[m];
        assert(part_in(s, p));
        if fold {
            if !p.1 {
                lemma_substring_lower(p.0, s);
            }
            assert(is_substring(lit, lower_bytes(s)));
        } else {
            assert(!p.1);
            assert(is_substring(lit, s));
        }
        let d = if fold {
            choose|d: int|
                0 <= d && d + len <= lower_bytes(s).len() && #[trigger] lower_bytes(s).subrange(d, d + len) == lit
        } else {
            choose|d: int| 0 <= d && d + len <= s.len() && #[trigger] s.subrange(d, d + len) == lit
        };
        assert(buf.subrange(q + d, q + d + len) =~= s.subrange(d, d + len));
        if fold {
            lemma_lower_subrange(s, d, d + len);
        }
        assert(occurs_at(buf, lit, q + d, fold));
        let i = lemma_occurrence_shows_fragments(buf, lit, fragment_len, q + d, fold, x);
        assert(0 <= q + d + i && q + d + i + 4 <= buf.len());
        assert(window_hash(buf, q + d + i, spec_fragment_mask(r.1), r.2) == r.0@[j]);
    }
}

/// No false negatives: when a buffer of at most 64 KiB holds a match `s` of the
/// expression at `q` (with the four-byte window of its last fragment inside the
/// buffer), the scalar scan with the extracted fragment hashes, their fragment length
/// and their folding marks every one of them, as long as the index holds them.
pub proof fn lemma_match_marks_every_fragment(
    h: Expr,
    r: (Vec<u32>, usize, bool, bool),
    s: Seq<u8>,
    buf: Seq<u8>,
    q: int,
    old: Seq<u64>,
    new: Seq<u64>,
    index: Set<u32>,
)
    requires
        hir_literals_result(h, Some(r)),
        expr_matches(h, s),
        buf.len() <= 65536,
        0 <= q,
        q + s.len() - r.1 + 4 <= buf.len(),
        buf.subrange(q, q + s.len()) == s,
        r.0@.to_set().subset_of(index),
        r.0@.len() <= 64 * old.len(),
        scalar_presence(old, new, buf, r.0@, index, spec_fragment_mask(r.1), r.2),
    ensures
        forall|j: int| 0 <= j < r.0@.len() ==> #[trigger] scratch_bit(new, j),
{
    lemma_match_shows_every_fragment(h, r, s, buf, q);
    let hashes = r.0@;
    let mask = spec_fragment_mask(r.1);
    assert forall|j: int| 0 <= j < hashes.len() implies #[trigger] scratch_bit(new, j) by {
        let x = hashes[j];
        assert(shows_hash(buf, mask, r.2, x));
        let p = choose|p: int| 0 <= p && p + 4 <= buf.len() && #[trigger] window_hash(buf, p, mask, r.2) == x;
        assert(scalar_sampled(buf.len() as int, p));
        assert(scalar_seen_before(buf, mask, r.2, x, buf.len() as int));
        assert(first_index_of(hashes, j));
        assert(hashes.to_set().contains(x));
        assert(scalar_hit(buf, hashes, index, mask, r.2, j));
    }
}

/// No false negatives, whichever kernel runs: on a buffer of at most 64 KiB that holds a
/// match of the expression (as above), `check_fragment_presence_with` on a cleared
/// bitset and an index of exactly the extracted hashes marks every one of them.
pub proof fn lemma_match_marks_every_fragment_with(
    simd: SimdSupport,
    h: Expr,
    r: (Vec<u32>, usize, bool, bool),
    s: Seq<u8>,
    buf: Seq<u8>,
    q: int,
    old: Seq<u64>,
    new: Seq<u64>,
    index: Set<u32>,
)
    requires
        hir_literals_result(h, Some(r)),
        expr_matches(h, s),
        buf.len() <= 65536,
        0 <= q,
        q + s.len() - r.1 + 4 <= buf.len(),
        buf.subrange(q, q + s.len()) == s,
        index == r.0@.to_set(),
        r.0@.len() <= 64 * old.len(),
        forall|j: int| 0 <= j < 64 * old.len() ==> !#[trigger] scratch_bit(old, j),
        presence_result(simd, old, new, buf, r.0@, index, r.1, r.2),
    ensures
        forall|j: int| 0 <= j < r.0@.len() ==> #[trigger] scratch_bit(new, j),
{
    lemma_match_shows_every_fragment(h, r, s, buf, q);
    let hashes = r.0@;
    let mask = spec_fragment_mask(r.1);
    let len = buf.len() as int;
    if hashes.len() > 0 {
        assert(shows_hash(buf, mask, r.2, hashes[0]));
        assert(buf.len() >= 4);
    }
    if hashes.len() == 0 {
    } else if simd == SimdSupport::Avx2 && buf.len() >= 32 || simd == SimdSupport::Neon && buf.len() >= 16 {
        let lanes: int = if simd == SimdSupport::Avx2 {
            8
        } else {
            4
        };
        assert(wide_presence(old, new, buf, hashes, mask, r.2, lanes));
        lemma_wide_presence_exact(old, new, buf, hashes, mask, r.2, lanes);
        assert forall|j: int| 0 <= j < hashes.len() implies #[trigger] scratch_bit(new, j) by {
            let x = hashes[j];
            assert(shows_hash(buf, mask, r.2, x));
            let p = choose|p: int| 0 <= p && p + 4 <= buf.len() && #[trigger] window_hash(buf, p, mask, r.2) == x;
            assert(p % lanes < lanes);
            assert(wide_covered(len, lanes, p));
            assert(wide_seen(buf, mask, r.2, lanes, x));
        }
    } else {
        lemma_match_marks_every_fragment(h, r, s, buf, q, old, new, index);
    }
}

} // verus!
