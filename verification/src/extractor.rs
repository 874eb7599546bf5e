//! Required-literal extraction over a parsed regular expression.
//!
//! Every byte string extracted here is a substring of every string the expression can
//! match (for a case-insensitive part: up to ASCII case); see
//! `lemma_required_literals_sound` and `lemma_required_literal_parts_sound`.
use vstd::prelude::*;
use crate::fragments::{
    lower_byte, lower_bytes, ascii_lower, pattern_fragments, MIN_FRAGMENT_LEN, select_fragment_len,
    extract_pattern_fragments_with_len, fragment_set_insert, fragment_set_into_vec,
};
use nohash_hasher::IntSet;
use regex_syntax::hir::{Class, HirKind};

verus! {

/// A character class: inclusive ranges of Unicode scalar values, or of bytes.
pub enum ExprClass {
    Unicode(Vec<(char, char)>),
    Bytes(Vec<(u8, u8)>),
}

/// The parts of a parsed regular expression that literal extraction reads.
pub enum Expr {
    /// Matches the empty string.
    Empty,
    /// Matches exactly these bytes.
    Literal(Vec<u8>),
    /// Matches one character (or byte) of the class.
    Class(ExprClass),
    /// A zero-width assertion.
    Look,
    /// `sub` repeated between `min` and `max` (unbounded when `None`) times.
    Repetition { min: u32, max: Option<u32>, sub: Box<Expr> },
    /// A capturing group.
    Capture(Box<Expr>),
    /// The sub-expressions one after the other.
    Concat(Vec<Expr>),
    /// Any one of the sub-expressions.
    Alternation(Vec<Expr>),
}

/// A literal segment required in every match. When `case_insensitive`, `bytes` are the
/// ASCII-lowercased form and the match holds *some* ASCII casing of them; otherwise the
/// match holds `bytes` verbatim.
#[derive(Debug, Clone, PartialEq, Eq, PartialOrd, Ord)]
pub struct LiteralPart {
    pub bytes: Vec<u8>,
    pub case_insensitive: bool,
}

impl View for LiteralPart {
    type V = (Seq<u8>, bool);

    open spec fn view(&self) -> (Seq<u8>, bool) {
        (self.bytes@, self.case_insensitive)
    }
}

pub open spec fn parts_view(v: Seq<LiteralPart>) -> Seq<(Seq<u8>, bool)> {
    v.map_values(|p: LiteralPart| p@)
}

pub open spec fn bytes_view(v: Seq<Vec<u8>>) -> Seq<Seq<u8>> {
    v.map_values(|b: Vec<u8>| b@)
}

pub open spec fn is_ascii_letter(c: int) -> bool {
    (0x41 <= c <= 0x5a) || (0x61 <= c <= 0x7a)
}

/// Two single-code-point ranges that are the upper and lower case of one ASCII
/// letter give that letter, lowercased.
pub open spec fn fold_pair_spec(a_lo: int, a_hi: int, b_lo: int, b_hi: int) -> Option<u8> {
    if a_lo != a_hi || b_lo != b_hi || a_lo > 0x7f || b_lo > 0x7f {
        None
    } else if !is_ascii_letter(a_lo) || !is_ascii_letter(b_lo) || a_lo == b_lo {
        None
    } else if lower_byte(a_lo as u8) != lower_byte(b_lo as u8) {
        None
    } else {
        Some(lower_byte(a_lo as u8))
    }
}

/// The letter a class stands for when it is exactly one ASCII case-fold pair.
pub open spec fn case_fold_byte_spec(c: ExprClass) -> Option<u8> {
    match c {
        ExprClass::Unicode(r) => if r@.len() != 2 {
            None
        } else {
            fold_pair_spec(
                r@[0].0 as u32 as int,
                r@[0].1 as u32 as int,
                r@[1].0 as u32 as int,
                r@[1].1 as u32 as int,
            )
        },
        ExprClass::Bytes(r) => if r@.len() != 2 {
            None
        } else {
            fold_pair_spec(r@[0].0 as int, r@[0].1 as int, r@[1].0 as int, r@[1].1 as int)
        },
    }
}

/// The literal run of a sequence of sub-expressions: the concatenation of their runs,
/// case-insensitive when any is.
pub open spec fn run_seq_spec(subs: Seq<Expr>, fold: bool) -> Option<(Seq<u8>, bool)>
    decreases subs,
{
    if subs.len() == 0 {
        Some((Seq::empty(), false))
    } else {
        match (run_seq_spec(subs.drop_last(), fold), run_spec(subs.last(), fold)) {
            (Some(a), Some(b)) => Some((a.0 + b.0, a.1 || b.1)),
            _ => None,
        }
    }
}

/// The single literal run an expression reduces to, if it reduces to one: literals,
/// through capture groups and concatenations of such; with `fold`, also a class that
/// is one ASCII case-fold pair (which makes the run case-insensitive).
pub open spec fn run_spec(h: Expr, fold: bool) -> Option<(Seq<u8>, bool)>
    decreases h,
{
    match h {
        Expr::Literal(b) => Some((b@, false)),
        Expr::Class(c) => if fold {
            match case_fold_byte_spec(c) {
                Some(b) => Some((seq![b], true)),
                None => None,
            }
        } else {
            None
        },
        Expr::Capture(sub) => run_spec(*sub, fold),
        Expr::Concat(subs) => run_seq_spec(subs@, fold),
        _ => None,
    }
}

/// The byte string an expression is exactly, when it is exactly one.
pub open spec fn literal_bytes_spec(h: Expr) -> Option<Seq<u8>> {
    match run_spec(h, false) {
        Some(r) => Some(r.0),
        None => None,
    }
}

pub const MAX_REPEATED_LITERAL_BYTES: usize = 4096;

/// `unit` repeated `n` times.
pub open spec fn repeat_n(unit: Seq<u8>, n: nat) -> Seq<u8>
    decreases n,
{
    if n == 0 {
        Seq::empty()
    } else {
        repeat_n(unit, (n - 1) as nat) + unit
    }
}

/// How many copies of `unit` a repetition with minimum `min` is claimed to hold: `min`,
/// but no more than fit in `MAX_REPEATED_LITERAL_BYTES` (and at least one).
pub open spec fn repeat_copies(unit_len: int, min: u32) -> nat {
    let fit = MAX_REPEATED_LITERAL_BYTES as int / unit_len;
    let max_copies = if fit < 1 {
        1
    } else {
        fit
    };
    if (min as int) < max_copies {
        min as nat
    } else {
        max_copies as nat
    }
}

pub open spec fn repeat_spec(unit: Seq<u8>, min: u32) -> Seq<u8> {
    if unit.len() == 0 {
        Seq::empty()
    } else {
        repeat_n(unit, repeat_copies(unit.len() as int, min))
    }
}

fn append_bytes(dst: &mut Vec<u8>, src: &[u8])
    ensures
        final(dst)@ == old(dst)@ + src@,
{
    let mut k: usize = 0;
    while k < src.len()
        invariant
            k <= src@.len(),
            dst@ == old(dst)@ + src@.take(k as int),
        decreases src@.len() - k,
    {
        dst.push(src[k]);
        k = k + 1;
        assert(dst@ =~= old(dst)@ + src@.take(k as int));
    }
    assert(src@.take(k as int) =~= src@);
}

fn fold_pair(a_lo: u32, a_hi: u32, b_lo: u32, b_hi: u32) -> (r: Option<u8>)
    ensures
        r == fold_pair_spec(a_lo as int, a_hi as int, b_lo as int, b_hi as int),
{
    if a_lo != a_hi || b_lo != b_hi || a_lo > 0x7f || b_lo > 0x7f {
        return None;
    }
    let a = a_lo as u8;
    let b = b_lo as u8;
    let a_letter = (0x41 <= a && a <= 0x5a) || (0x61 <= a && a <= 0x7a);
    let b_letter = (0x41 <= b && b <= 0x5a) || (0x61 <= b && b <= 0x7a);
    if !a_letter || !b_letter || a == b {
        return None;
    }
    let la = crate::fragments::ascii_lower(a);
    let lb = crate::fragments::ascii_lower(b);
    if la != lb {
        return None;
    }
    Some(la)
}

/// If `class` is exactly the ASCII case-fold pair of one letter (two single-point
/// ranges, its upper and lower case), that letter's lowercase byte.
pub fn ascii_case_fold_byte(class: &ExprClass) -> (r: Option<u8>)
    ensures
        r == case_fold_byte_spec(*class),
{
    match class {
        ExprClass::Unicode(ranges) => {
            if ranges.len() != 2 {
                return None;
            }
            fold_pair(
                ranges[0].0 as u32,
                ranges[0].1 as u32,
                ranges[1].0 as u32,
                ranges[1].1 as u32,
            )
        },
        ExprClass::Bytes(ranges) => {
            if ranges.len() != 2 {
                return None;
            }
            fold_pair(
                ranges[0].0 as u32,
                ranges[0].1 as u32,
                ranges[1].0 as u32,
                ranges[1].1 as u32,
            )
        },
    }
}

proof fn lemma_run_seq_none_stays(subs: Seq<Expr>, fold: bool, k: int, k2: int)
    requires
        0 <= k <= k2 <= subs.len(),
        run_seq_spec(subs.take(k), fold) is None,
    ensures
        run_seq_spec(subs.take(k2), fold) is None,
    decreases k2 - k,
{
    if k2 > k {
        lemma_run_seq_none_stays(subs, fold, k, k2 - 1);
        assert(subs.take(k2).drop_last() =~= subs.take(k2 - 1));
    }
}

/// The literal run of `h` (see `run_spec`), as a part.
fn literal_part_bytes(h: &Expr, fold: bool) -> (r: Option<LiteralPart>)
    ensures
        match r {
            Some(p) => run_spec(*h, fold) == Some(p@),
            None => run_spec(*h, fold) is None,
        },
    decreases h,
{
    match h {
        Expr::Literal(b) => {
            let mut bytes: Vec<u8> = Vec::new();
            append_bytes(&mut bytes, b.as_slice());
            Some(LiteralPart { bytes, case_insensitive: false })
        },
        Expr::Class(c) => {
            if fold {
                match ascii_case_fold_byte(c) {
                    Some(b) => {
                        let mut bytes: Vec<u8> = Vec::new();
                        bytes.push(b);
                        assert(bytes@ =~= seq![b]);
                        Some(LiteralPart { bytes, case_insensitive: true })
                    },
                    None => None,
                }
            } else {
                None
            }
        },
        Expr::Capture(sub) => literal_part_bytes(sub, fold),
        Expr::Concat(subs) => {
            let mut bytes: Vec<u8> = Vec::new();
            let mut any_ci = false;
            let mut i: usize = 0;
            assert(subs@.take(0) =~= Seq::<Expr>::empty());
            while i < subs.len()
                invariant
                    *h == Expr::Concat(*subs),
                    i <= subs@.len(),
                    run_seq_spec(subs@.take(i as int), fold) == Some((bytes@, any_ci)),
                decreases subs@.len() - i,
            {
                assert(subs@.take(i + 1).drop_last() =~= subs@.take(i as int));
                match literal_part_bytes(&subs[i], fold) {
                    Some(part) => {
                        append_bytes(&mut bytes, part.bytes.as_slice());
                        any_ci = any_ci || part.case_insensitive;
                    },
                    None => {
                        proof {
                            lemma_run_seq_none_stays(subs@, fold, i + 1, subs@.len() as int);
                            assert(subs@.take(subs@.len() as int) =~= subs@);
                        }
                        return None;
                    },
                }
                i = i + 1;
            }
            assert(subs@.take(subs@.len() as int) =~= subs@);
            Some(LiteralPart { bytes, case_insensitive: any_ci })
        },
        _ => None,
    }
}

/// The byte string `hir` is exactly, when it is exactly one (a literal, through
/// capture groups and concatenations of such).
pub fn literal_bytes(hir: &Expr) -> (r: Option<Vec<u8>>)
    ensures
        match r {
            Some(b) => literal_bytes_spec(*hir) == Some(b@),
            None => literal_bytes_spec(*hir) is None,
        },
{
    match literal_part_bytes(hir, false) {
        Some(p) => Some(p.bytes),
        None => None,
    }
}

/// `unit` repeated `min` times, but to no more than `MAX_REPEATED_LITERAL_BYTES`
/// (and at least once for a non-empty unit).
pub fn repeat_bytes(unit: &[u8], min: u32) -> (r: Vec<u8>)
    ensures
        r@ == repeat_spec(unit@, min),
{
    if unit.len() == 0 {
        return Vec::new();
    }
    let fit = MAX_REPEATED_LITERAL_BYTES / unit.len();
    let max_copies: u32 = if fit < 1 {
        1
    } else {
        fit as u32
    };
    let copies = if min < max_copies {
        min
    } else {
        max_copies
    };
    let mut out: Vec<u8> = Vec::new();
    let mut k: u32 = 0;
    while k < copies
        invariant
            k <= copies,
            copies == repeat_copies(unit@.len() as int, min),
            out@ == repeat_n(unit@, k as nat),
        decreases copies - k,
    {
        append_bytes(&mut out, unit);
        k = k + 1;
    }
    out
}

/// Lexicographic order on byte strings, a proper prefix first.
pub open spec fn bytes_lt(a: Seq<u8>, b: Seq<u8>) -> bool
    decreases a.len(),
{
    if a.len() == 0 {
        b.len() > 0
    } else if b.len() == 0 {
        false
    } else if a[0] != b[0] {
        a[0] < b[0]
    } else {
        bytes_lt(a.drop_first(), b.drop_first())
    }
}

/// The order of literal parts: by bytes, then case-sensitive first.
pub open spec fn item_lt(x: (Seq<u8>, bool), y: (Seq<u8>, bool)) -> bool {
    bytes_lt(x.0, y.0) || (x.0 == y.0 && !x.1 && y.1)
}

/// Longer parts first, then by `item_lt`.
pub open spec fn longer_lt(x: (Seq<u8>, bool), y: (Seq<u8>, bool)) -> bool {
    x.0.len() > y.0.len() || (x.0.len() == y.0.len() && item_lt(x, y))
}

pub open spec fn order_lt(by_len: bool, x: (Seq<u8>, bool), y: (Seq<u8>, bool)) -> bool {
    if by_len {
        longer_lt(x, y)
    } else {
        item_lt(x, y)
    }
}

pub open spec fn strictly_sorted(s: Seq<(Seq<u8>, bool)>, by_len: bool) -> bool {
    forall|i: int, j: int| 0 <= i < j < s.len() ==> order_lt(by_len, #[trigger] s[i], #[trigger] s[j])
}

/// The elements of a finite set of parts, in increasing order.
pub open spec fn sorted_spec(set: Set<(Seq<u8>, bool)>, by_len: bool) -> Seq<(Seq<u8>, bool)> {
    if exists|s: Seq<(Seq<u8>, bool)>| strictly_sorted(s, by_len) && s.to_set() == set {
        choose|s: Seq<(Seq<u8>, bool)>| strictly_sorted(s, by_len) && s.to_set() == set
    } else {
        Seq::empty()
    }
}

/// The candidate parts kept after one alternation step: all of them by `item_lt`,
/// or, when there are more than 32, the 32 longest.
pub open spec fn normalize_spec(set: Set<(Seq<u8>, bool)>) -> Seq<(Seq<u8>, bool)> {
    if set.len() > 32 {
        keep_first(sorted_spec(set, true), 32)
    } else {
        sorted_spec(set, false)
    }
}

/// The first `n` elements, or all when there are fewer.
pub open spec fn keep_first(s: Seq<(Seq<u8>, bool)>, n: int) -> Seq<(Seq<u8>, bool)> {
    if s.len() <= n {
        s
    } else {
        s.take(n)
    }
}

proof fn lemma_bytes_lt_irreflexive(a: Seq<u8>)
    ensures
        !bytes_lt(a, a),
    decreases a.len(),
{
    if a.len() > 0 {
        lemma_bytes_lt_irreflexive(a.drop_first());
    }
}

proof fn lemma_bytes_lt_transitive(a: Seq<u8>, b: Seq<u8>, c: Seq<u8>)
    requires
        bytes_lt(a, b),
        bytes_lt(b, c),
    ensures
        bytes_lt(a, c),
    decreases a.len(),
{
    if a.len() > 0 && b.len() > 0 && c.len() > 0 && a[0] == b[0] && b[0] == c[0] {
        lemma_bytes_lt_transitive(a.drop_first(), b.drop_first(), c.drop_first());
    }
}

proof fn lemma_bytes_lt_total(a: Seq<u8>, b: Seq<u8>)
    ensures
        a == b || bytes_lt(a, b) || bytes_lt(b, a),
    decreases a.len(),
{
    if a.len() > 0 && b.len() > 0 && a[0] == b[0] {
        lemma_bytes_lt_total(a.drop_first(), b.drop_first());
        if a.drop_first() == b.drop_first() {
            assert(a =~= seq![a[0]] + a.drop_first());
            assert(b =~= seq![b[0]] + b.drop_first());
        }
    } else if a.len() == 0 && b.len() == 0 {
        assert(a =~= b);
    }
}

proof fn lemma_bytes_lt_asymmetric(a: Seq<u8>, b: Seq<u8>)
    ensures
        !(bytes_lt(a, b) && bytes_lt(b, a)),
{
    if bytes_lt(a, b) && bytes_lt(b, a) {
        lemma_bytes_lt_transitive(a, b, a);
        lemma_bytes_lt_irreflexive(a);
    }
}

/// Both orders on parts are strict total orders.
proof fn lemma_order(by_len: bool, x: (Seq<u8>, bool), y: (Seq<u8>, bool), z: (Seq<u8>, bool))
    ensures
        !order_lt(by_len, x, x),
        order_lt(by_len, x, y) && order_lt(by_len, y, z) ==> order_lt(by_len, x, z),
        x == y || order_lt(by_len, x, y) || order_lt(by_len, y, x),
        !(order_lt(by_len, x, y) && order_lt(by_len, y, x)),
{
    lemma_bytes_lt_irreflexive(x.0);
    lemma_bytes_lt_total(x.0, y.0);
    lemma_bytes_lt_asymmetric(x.0, y.0);
    lemma_bytes_lt_asymmetric(x.0, z.0);
    lemma_bytes_lt_asymmetric(y.0, z.0);
    if bytes_lt(x.0, y.0) && bytes_lt(y.0, z.0) {
        lemma_bytes_lt_transitive(x.0, y.0, z.0);
    }
}

proof fn lemma_order_all(by_len: bool)
    ensures
        forall|x: (Seq<u8>, bool)| !order_lt(by_len, x, x),
        forall|x: (Seq<u8>, bool), y: (Seq<u8>, bool), z: (Seq<u8>, bool)|
            #[trigger] order_lt(by_len, x, y) && #[trigger] order_lt(by_len, y, z) ==> order_lt(
                by_len,
                x,
                z,
            ),
        forall|x: (Seq<u8>, bool), y: (Seq<u8>, bool)|
            x == y || #[trigger] order_lt(by_len, x, y) || #[trigger] order_lt(by_len, y, x),
{
    assert forall|x: (Seq<u8>, bool)| !order_lt(by_len, x, x) by {
        lemma_order(by_len, x, x, x);
    }
    assert forall|x: (Seq<u8>, bool), y: (Seq<u8>, bool), z: (Seq<u8>, bool)|
        #[trigger] order_lt(by_len, x, y) && #[trigger] order_lt(by_len, y, z) implies order_lt(
        by_len,
        x,
        z,
    ) by {
        lemma_order(by_len, x, y, z);
    }
    assert forall|x: (Seq<u8>, bool), y: (Seq<u8>, bool)|
        x == y || #[trigger] order_lt(by_len, x, y) || #[trigger] order_lt(by_len, y, x) by {
        lemma_order(by_len, x, y, x);
    }
}

/// Two increasing sequences with the same elements are equal.
proof fn lemma_sorted_unique(a: Seq<(Seq<u8>, bool)>, b: Seq<(Seq<u8>, bool)>, by_len: bool)
    requires
        strictly_sorted(a, by_len),
        strictly_sorted(b, by_len),
        a.to_set() == b.to_set(),
    ensures
        a == b,
    decreases a.len(),
{
    lemma_order_all(by_len);
    if a.len() == 0 {
        if b.len() > 0 {
            assert(b.to_set().contains(b[0]));
            assert(!a.to_set().contains(b[0]));
        }
        assert(a =~= b);
    } else if b.len() == 0 {
        assert(a.to_set().contains(a[0]));
        assert(!b.to_set().contains(a[0]));
    } else {
        assert(a.to_set().contains(a[0]));
        assert(b.to_set().contains(b[0]));
        let ka = choose|k: int| 0 <= k < a.len() && a[k] == b[0];
        let kb = choose|k: int| 0 <= k < b.len() && b[k] == a[0];
        if ka > 0 && kb > 0 {
            assert(order_lt(by_len, a[0], a[ka]));
            assert(order_lt(by_len, b[0], b[kb]));
        }
        assert(a[0] == b[0]);
        let a2 = a.drop_first();
        let b2 = b.drop_first();
        assert forall|x: (Seq<u8>, bool)| a2.to_set().contains(x) <==> b2.to_set().contains(x) by {
            if a2.to_set().contains(x) {
                let i = choose|i: int| 0 <= i < a2.len() && a2[i] == x;
                assert(a[i + 1] == x);
                assert(order_lt(by_len, a[0], a[i + 1]));
                assert(a.to_set().contains(x));
                let j = choose|j: int| 0 <= j < b.len() && b[j] == x;
                assert(j != 0);
                assert(b2[j - 1] == x);
            }
            if b2.to_set().contains(x) {
                let i = choose|i: int| 0 <= i < b2.len() && b2[i] == x;
                assert(b[i + 1] == x);
                assert(order_lt(by_len, b[0], b[i + 1]));
                assert(b.to_set().contains(x));
                let j = choose|j: int| 0 <= j < a.len() && a[j] == x;
                assert(j != 0);
                assert(a2[j - 1] == x);
            }
        }
        assert(a2.to_set() =~= b2.to_set());
        lemma_sorted_unique(a2, b2, by_len);
        assert(a =~= seq![a[0]] + a2);
        assert(b =~= seq![b[0]] + b2);
    }
}

/// An increasing sequence with the elements of `set` is `sorted_spec(set)`.
proof fn lemma_is_sorted_spec(s: Seq<(Seq<u8>, bool)>, by_len: bool)
    requires
        strictly_sorted(s, by_len),
    ensures
        sorted_spec(s.to_set(), by_len) == s,
{
    let t = sorted_spec(s.to_set(), by_len);
    assert(strictly_sorted(t, by_len) && t.to_set() == s.to_set());
    lemma_sorted_unique(t, s, by_len);
}

/// An increasing sequence has no repeated element, so its length is its set's size.
proof fn lemma_sorted_len(s: Seq<(Seq<u8>, bool)>, by_len: bool)
    requires
        strictly_sorted(s, by_len),
    ensures
        s.no_duplicates(),
        s.to_set().len() == s.len(),
{
    lemma_order_all(by_len);
    assert forall|i: int, j: int| 0 <= i < s.len() && 0 <= j < s.len() && i != j implies s[i]
        != s[j] by {
        if i < j {
            assert(order_lt(by_len, s[i], s[j]));
        } else {
            assert(order_lt(by_len, s[j], s[i]));
        }
    }
    s.unique_seq_to_set();
}

/// Compare two byte strings lexicographically: negative, zero or positive.
fn compare_bytes(a: &[u8], b: &[u8]) -> (r: i8)
    ensures
        (r < 0) == bytes_lt(a@, b@),
        (r == 0) == (a@ == b@),
        (r > 0) == bytes_lt(b@, a@),
{
    let mut k: usize = 0;
    proof {
        lemma_bytes_lt_asymmetric(a@, b@);
        lemma_bytes_lt_irreflexive(a@);
        assert(a@.skip(0) =~= a@);
        assert(b@.skip(0) =~= b@);
        assert(a@.take(0) =~= b@.take(0));
    }
    while k < a.len() && k < b.len()
        invariant
            k <= a@.len(),
            k <= b@.len(),
            a@.take(k as int) == b@.take(k as int),
            bytes_lt(a@, b@) == bytes_lt(a@.skip(k as int), b@.skip(k as int)),
            bytes_lt(b@, a@) == bytes_lt(b@.skip(k as int), a@.skip(k as int)),
        decreases a@.len() - k,
    {
        if a[k] != b[k] {
            proof {
                assert(a@.skip(k as int)[0] == a@[k as int]);
                assert(b@.skip(k as int)[0] == b@[k as int]);
                if a@ == b@ {
                    assert(a@[k as int] == b@[k as int]);
                }
            }
            if a[k] < b[k] {
                return -1;
            } else {
                return 1;
            }
        }
        proof {
            assert(a@.skip(k as int).drop_first() =~= a@.skip(k + 1));
            assert(b@.skip(k as int).drop_first() =~= b@.skip(k + 1));
            assert(a@.take(k + 1) =~= a@.take(k as int).push(a@[k as int]));
            assert(b@.take(k + 1) =~= b@.take(k as int).push(b@[k as int]));
        }
        k = k + 1;
    }
    proof {
        assert(a@.skip(k as int).len() == a@.len() - k);
        assert(b@.skip(k as int).len() == b@.len() - k);
        if a@.len() == b@.len() {
            assert(a@ =~= a@.take(k as int));
            assert(b@ =~= b@.take(k as int));
        }
        if a@ == b@ {
            assert(a@.len() == b@.len());
        }
    }
    if a.len() < b.len() {
        -1
    } else if a.len() == b.len() {
        0
    } else {
        1
    }
}

/// `x` before `y` in the chosen order.
fn part_lt(x: &LiteralPart, y: &LiteralPart, by_len: bool) -> (r: bool)
    ensures
        r == order_lt(by_len, x@, y@),
{
    let c = compare_bytes(x.bytes.as_slice(), y.bytes.as_slice());
    let lt = c < 0 || (c == 0 && !x.case_insensitive && y.case_insensitive);
    if by_len {
        x.bytes.len() > y.bytes.len() || (x.bytes.len() == y.bytes.len() && lt)
    } else {
        lt
    }
}

fn part_eq(x: &LiteralPart, y: &LiteralPart) -> (r: bool)
    ensures
        r == (x@ == y@),
{
    compare_bytes(x.bytes.as_slice(), y.bytes.as_slice()) == 0 && x.case_insensitive
        == y.case_insensitive
}

/// Insert `item` into an increasing sequence, unless it is there already.
fn insert_unique(out: &mut Vec<LiteralPart>, item: LiteralPart, by_len: bool)
    requires
        strictly_sorted(parts_view(old(out)@), by_len),
    ensures
        strictly_sorted(parts_view(final(out)@), by_len),
        parts_view(final(out)@).to_set() == parts_view(old(out)@).to_set().insert(item@),
{
    let ghost s = parts_view(out@);
    proof {
        lemma_order_all(by_len);
    }
    let mut k: usize = 0;
    while k < out.len() && part_lt(&out[k], &item, by_len)
        invariant
            k <= out@.len(),
            out@ == old(out)@,
            s == parts_view(out@),
            forall|i: int| 0 <= i < k ==> order_lt(by_len, #[trigger] s[i], item@),
        decreases out@.len() - k,
    {
        k = k + 1;
    }
    if k < out.len() && part_eq(&out[k], &item) {
        assert(s[k as int] == item@);
        assert(s.to_set().contains(item@));
        assert(s.to_set().insert(item@) =~= s.to_set());
        return ;
    }
    out.insert(k, item);
    proof {
        let t = parts_view(out@);
        assert(t =~= s.insert(k as int, item@));
        if k < s.len() {
            assert(order_lt(by_len, item@, s[k as int]));
        }
        assert forall|i: int, j: int| 0 <= i < j < t.len() implies order_lt(
            by_len,
            #[trigger] t[i],
            #[trigger] t[j],
        ) by {
            if j < k {
            } else if j == k {
            } else if i < k {
                assert(order_lt(by_len, s[i], item@));
                assert(order_lt(by_len, item@, s[k as int]) || j - 1 == k as int);
                if j - 1 > k {
                    assert(order_lt(by_len, s[k as int], s[j - 1]));
                }
            } else if i == k {
                if j - 1 > k {
                    assert(order_lt(by_len, s[k as int], s[j - 1]));
                }
            } else {
                assert(order_lt(by_len, s[i - 1], s[j - 1]));
            }
        }
        assert forall|x: (Seq<u8>, bool)| t.to_set().contains(x) <==> s.to_set().insert(
            item@,
        ).contains(x) by {
            if t.to_set().contains(x) {
                let i = choose|i: int| 0 <= i < t.len() && t[i] == x;
                if i < k {
                    assert(s[i] == x);
                } else if i > k {
                    assert(s[i - 1] == x);
                }
            }
            if s.to_set().contains(x) {
                let i = choose|i: int| 0 <= i < s.len() && s[i] == x;
                if i < k {
                    assert(t[i] == x);
                } else {
                    assert(t[i + 1] == x);
                }
            }
            if x == item@ {
                assert(t[k as int] == x);
            }
        }
        assert(t.to_set() =~= s.to_set().insert(item@));
    }
}

/// The distinct elements of `v`, in increasing order.
fn sort_unique(v: Vec<LiteralPart>, by_len: bool) -> (r: Vec<LiteralPart>)
    ensures
        strictly_sorted(parts_view(r@), by_len),
        parts_view(r@).to_set() == parts_view(v@).to_set(),
{
    let mut out: Vec<LiteralPart> = Vec::new();
    let mut rest = v;
    let ghost all = parts_view(rest@);
    let ghost mut taken: int = 0;
    proof {
        assert(parts_view(out@).to_set() =~= all.take(0).to_set());
    }
    while rest.len() > 0
        invariant
            strictly_sorted(parts_view(out@), by_len),
            0 <= taken <= all.len(),
            parts_view(rest@) == all.skip(taken),
            parts_view(out@).to_set() == all.take(taken).to_set(),
            all == parts_view(v@),
        decreases rest@.len(),
    {
        let ghost before = rest@;
        let item = rest.remove(0);
        proof {
            assert(parts_view(before).len() == before.len());
            assert(parts_view(before)[0] == before[0]@);
            assert(all.skip(taken)[0] == all[taken]);
            assert(item@ == all[taken]);
            assert(parts_view(rest@) =~= parts_view(before).skip(1));
            assert(all.skip(taken).skip(1) =~= all.skip(taken + 1));
            assert(all.take(taken + 1) =~= all.take(taken).push(all[taken]));
            all.take(taken).lemma_push_to_set_commute(all[taken]);
        }
        insert_unique(&mut out, item, by_len);
        proof {
            taken = taken + 1;
        }
    }
    assert(all.take(taken) =~= all);
    out
}

/// Sort and deduplicate the candidates; past 32 of them keep the 32 longest.
fn normalize_candidates(next: Vec<LiteralPart>) -> (r: Vec<LiteralPart>)
    ensures
        parts_view(r@) == normalize_spec(parts_view(next@).to_set()),
{
    let sorted = sort_unique(next, false);
    proof {
        lemma_sorted_len(parts_view(sorted@), false);
        lemma_is_sorted_spec(parts_view(sorted@), false);
    }
    if sorted.len() > 32 {
        let mut by_len = sort_unique(sorted, true);
        proof {
            lemma_sorted_len(parts_view(by_len@), true);
            lemma_is_sorted_spec(parts_view(by_len@), true);
        }
        by_len.truncate(32);
        proof {
            assert(parts_view(by_len@) =~= keep_first(sorted_spec(parts_view(next@).to_set(), true), 32));
        }
        by_len
    } else {
        sorted
    }
}

/// The length of the longest common suffix of `a[..i]` and `b[..j]`.
pub open spec fn common_suffix_len(a: Seq<u8>, b: Seq<u8>, i: int, j: int) -> nat
    decreases i,
{
    if i <= 0 || j <= 0 || a[i - 1] != b[j - 1] {
        0
    } else {
        1 + common_suffix_len(a, b, i - 1, j - 1)
    }
}

pub proof fn lemma_common_suffix_len_bound(a: Seq<u8>, b: Seq<u8>, i: int, j: int)
    ensures
        i >= 0 ==> common_suffix_len(a, b, i, j) <= i,
        j >= 0 ==> common_suffix_len(a, b, i, j) <= j,
    decreases i,
{
    if i > 0 && j > 0 && a[i - 1] == b[j - 1] {
        lemma_common_suffix_len_bound(a, b, i - 1, j - 1);
    }
}

/// A common run of `a` and `b` ends at `a[i - 1]`, `b[j - 1]`, is at least `min_len`
/// long, and cannot be extended by the next byte of both.
pub open spec fn maximal_common_at(a: Seq<u8>, b: Seq<u8>, min_len: int, i: int, j: int) -> bool {
    &&& 1 <= i <= a.len()
    &&& 1 <= j <= b.len()
    &&& a[i - 1] == b[j - 1]
    &&& common_suffix_len(a, b, i, j) >= min_len
    &&& !(i < a.len() && j < b.len() && a[i] == b[j])
}

/// The common run of `a` and `b` ending at `a[i - 1]`, `b[j - 1]`, as a slice of `a`.
pub open spec fn common_run_at(a: Seq<u8>, b: Seq<u8>, i: int, j: int) -> Seq<u8> {
    a.subrange(i - common_suffix_len(a, b, i, j), i)
}

/// The maximal common runs found at the pairs of positions before `(i, j)` in row order.
pub open spec fn common_runs_before(
    a: Seq<u8>,
    b: Seq<u8>,
    min_len: int,
    i: int,
    j: int,
) -> Set<Seq<u8>> {
    Set::new(
        |x: Seq<u8>|
            exists|i2: int, j2: int|
                (i2 < i || (i2 == i && j2 < j)) && #[trigger] maximal_common_at(a, b, min_len, i2, j2)
                    && x == common_run_at(a, b, i2, j2),
    )
}

/// Every maximal common run of `a` and `b` of length at least `min_len`; nothing when
/// either input is empty or longer than 256 bytes.
pub open spec fn common_substring_set(a: Seq<u8>, b: Seq<u8>, min_len: int) -> Set<Seq<u8>> {
    if a.len() == 0 || b.len() == 0 || a.len() > 256 || b.len() > 256 {
        Set::empty()
    } else {
        common_runs_before(a, b, min_len, a.len() as int + 1, 0)
    }
}

/// The maximal common runs ending at `a[i - 1]` and at `b[0]`, ..., `b[j - 2]`, in that
/// order.
pub open spec fn common_runs_row(a: Seq<u8>, b: Seq<u8>, min_len: int, i: int, j: int) -> Seq<
    Seq<u8>,
>
    decreases j,
{
    if j <= 1 {
        Seq::empty()
    } else {
        let prev = common_runs_row(a, b, min_len, i, j - 1);
        if maximal_common_at(a, b, min_len, i, j - 1) {
            prev.push(common_run_at(a, b, i, j - 1))
        } else {
            prev
        }
    }
}

/// The maximal common runs ending at `a[0]`, ..., `a[i - 2]`, row by row.
pub open spec fn common_runs_upto(a: Seq<u8>, b: Seq<u8>, min_len: int, i: int) -> Seq<Seq<u8>>
    decreases i,
{
    if i <= 1 {
        Seq::empty()
    } else {
        common_runs_upto(a, b, min_len, i - 1) + common_runs_row(a, b, min_len, i - 1, b.len() as int + 1)
    }
}

/// Every maximal common run of `a` and `b` of length at least `min_len`, once for each
/// pair of end positions, by end position in `a`, then in `b`; nothing when either input
/// is empty or longer than 256 bytes.
pub open spec fn common_substring_seq(a: Seq<u8>, b: Seq<u8>, min_len: int) -> Seq<Seq<u8>> {
    if a.len() == 0 || b.len() == 0 || a.len() > 256 || b.len() > 256 {
        Seq::empty()
    } else {
        common_runs_upto(a, b, min_len, a.len() as int + 1)
    }
}

/// `x` is a common run of `a` and `b` that cannot grow: it is at least `min_len` (and at
/// least one) bytes long, occurs in `a` at `i` and in `b` at `j`, and the bytes just
/// before both occurrences, and just after both, are not one same byte.
pub open spec fn is_maximal_common_run(a: Seq<u8>, b: Seq<u8>, min_len: int, x: Seq<u8>, i: int, j: int) -> bool {
    &&& x.len() >= 1
    &&& x.len() >= min_len
    &&& 0 <= i && i + x.len() <= a.len()
    &&& 0 <= j && j + x.len() <= b.len()
    &&& a.subrange(i, i + x.len()) == x
    &&& b.subrange(j, j + x.len()) == x
    &&& (i == 0 || j == 0 || a[i - 1] != b[j - 1])
    &&& (i + x.len() == a.len() || j + x.len() == b.len() || a[i + x.len()] != b[j + x.len()])
}

/// The common suffix of `a[..i]` and `b[..j]` is a common run that cannot grow to the
/// left.
proof fn lemma_common_suffix_run(a: Seq<u8>, b: Seq<u8>, i: int, j: int)
    requires
        0 <= i <= a.len(),
        0 <= j <= b.len(),
    ensures
        common_suffix_len(a, b, i, j) <= i,
        common_suffix_len(a, b, i, j) <= j,
        a.subrange(i - common_suffix_len(a, b, i, j), i) == b.subrange(
            j - common_suffix_len(a, b, i, j),
            j,
        ),
        ({
            let l = common_suffix_len(a, b, i, j);
            i - l == 0 || j - l == 0 || a[i - l - 1] != b[j - l - 1]
        }),
    decreases i,
{
    if i > 0 && j > 0 && a[i - 1] == b[j - 1] {
        lemma_common_suffix_run(a, b, i - 1, j - 1);
        let l = common_suffix_len(a, b, i - 1, j - 1);
        assert(a.subrange(i - 1 - l, i) =~= a.subrange(i - 1 - l, i - 1).push(a[i - 1]));
        assert(b.subrange(j - 1 - l, j) =~= b.subrange(j - 1 - l, j - 1).push(b[j - 1]));
    } else {
        assert(a.subrange(i, i) =~= b.subrange(j, j));
    }
}

/// A common run ending at `a[i - 1]`, `b[j - 1]` that cannot grow to the left is the
/// whole common suffix there.
proof fn lemma_common_suffix_exact(a: Seq<u8>, b: Seq<u8>, i: int, j: int, n: int)
    requires
        0 <= n <= i <= a.len(),
        n <= j <= b.len(),
        a.subrange(i - n, i) == b.subrange(j - n, j),
        i - n == 0 || j - n == 0 || a[i - n - 1] != b[j - n - 1],
    ensures
        common_suffix_len(a, b, i, j) == n,
    decreases n,
{
    if n > 0 {
        assert(a[i - 1] == a.subrange(i - n, i)[n - 1]);
        assert(b[j - 1] == b.subrange(j - n, j)[n - 1]);
        assert(a.subrange(i - n, i - 1) =~= a.subrange(i - n, i).drop_last());
        assert(b.subrange(j - n, j - 1) =~= b.subrange(j - n, j).drop_last());
        lemma_common_suffix_exact(a, b, i - 1, j - 1, n - 1);
    }
}

/// A run is in a row of the walk exactly when it is the maximal common run at a column
/// before `j` in that row.
proof fn lemma_runs_row_contains(a: Seq<u8>, b: Seq<u8>, min_len: int, i: int, j: int, x: Seq<u8>)
    ensures
        common_runs_row(a, b, min_len, i, j).contains(x) <==> exists|j2: int|
            1 <= j2 < j && #[trigger] maximal_common_at(a, b, min_len, i, j2) && x == common_run_at(
                a,
                b,
                i,
                j2,
            ),
    decreases j,
{
    if j > 1 {
        lemma_runs_row_contains(a, b, min_len, i, j - 1, x);
        let prev = common_runs_row(a, b, min_len, i, j - 1);
        if maximal_common_at(a, b, min_len, i, j - 1) {
            let run = common_run_at(a, b, i, j - 1);
            assert(prev.push(run).contains(x) <==> (prev.contains(x) || x == run)) by {
                if prev.push(run).contains(x) {
                    let k = choose|k: int| 0 <= k < prev.push(run).len() && prev.push(run)[k] == x;
                    if k < prev.len() {
                        assert(prev[k] == x);
                    }
                }
                if prev.contains(x) {
                    let k = choose|k: int| 0 <= k < prev.len() && prev[k] == x;
                    assert(prev.push(run)[k] == x);
                }
                if x == run {
                    assert(prev.push(run)[prev.len() as int] == x);
                }
            }
        }
    }
}

/// A run is in the rows of the walk before `i` exactly when it is the maximal common
/// run at some position of those rows.
proof fn lemma_runs_upto_contains(a: Seq<u8>, b: Seq<u8>, min_len: int, i: int, x: Seq<u8>)
    ensures
        common_runs_upto(a, b, min_len, i).contains(x) <==> exists|i2: int, j2: int|
            1 <= i2 < i && #[trigger] maximal_common_at(a, b, min_len, i2, j2) && x == common_run_at(
                a,
                b,
                i2,
                j2,
            ),
    decreases i,
{
    if i > 1 {
        lemma_runs_upto_contains(a, b, min_len, i - 1, x);
        lemma_runs_row_contains(a, b, min_len, i - 1, b.len() as int + 1, x);
        let u = common_runs_upto(a, b, min_len, i - 1);
        let r = common_runs_row(a, b, min_len, i - 1, b.len() as int + 1);
        assert((u + r).contains(x) <==> (u.contains(x) || r.contains(x))) by {
            if (u + r).contains(x) {
                let k = choose|k: int| 0 <= k < (u + r).len() && (u + r)[k] == x;
                if k < u.len() {
                    assert(u[k] == x);
                } else {
                    assert(r[k - u.len()] == x);
                }
            }
            if u.contains(x) {
                let k = choose|k: int| 0 <= k < u.len() && u[k] == x;
                assert((u + r)[k] == x);
            }
            if r.contains(x) {
                let k = choose|k: int| 0 <= k < r.len() && r[k] == x;
                assert((u + r)[k + u.len()] == x);
            }
        }
    }
}

/// The runs the walk lists in order are the runs of `common_substring_set`.
pub proof fn lemma_common_substring_seq_set(a: Seq<u8>, b: Seq<u8>, min_len: int, x: Seq<u8>)
    ensures
        common_substring_seq(a, b, min_len).contains(x) <==> common_substring_set(a, b, min_len).contains(x),
{
    if !(a.len() == 0 || b.len() == 0 || a.len() > 256 || b.len() > 256) {
        lemma_runs_upto_contains(a, b, min_len, a.len() as int + 1, x);
        if common_substring_set(a, b, min_len).contains(x) {
            let (i2, j2) = choose|i2: int, j2: int|
                (i2 < a.len() + 1 || (i2 == a.len() + 1 && j2 < 0)) && #[trigger] maximal_common_at(
                    a,
                    b,
                    min_len,
                    i2,
                    j2,
                ) && x == common_run_at(a, b, i2, j2);
            assert(1 <= i2 < a.len() + 1);
        }
    }
}

/// Each run the table walk finds is a maximal common run, and each maximal common run
/// is found: the walk finds exactly the maximal common runs of at least `min_len` bytes
/// (of inputs of 1 to 256 bytes).
pub proof fn lemma_common_substrings_are_maximal_runs(a: Seq<u8>, b: Seq<u8>, min_len: int, x: Seq<u8>)
    requires
        1 <= a.len() <= 256,
        1 <= b.len() <= 256,
    ensures
        common_substring_set(a, b, min_len).contains(x) <==> exists|i: int, j: int|
            is_maximal_common_run(a, b, min_len, x, i, j),
        common_substring_seq(a, b, min_len).contains(x) <==> exists|i: int, j: int|
            is_maximal_common_run(a, b, min_len, x, i, j),
{
    lemma_common_substring_seq_set(a, b, min_len, x);
    if common_substring_set(a, b, min_len).contains(x) {
        let (i2, j2) = choose|i2: int, j2: int|
            (i2 < a.len() + 1 || (i2 == a.len() + 1 && j2 < 0)) && #[trigger] maximal_common_at(
                a,
                b,
                min_len,
                i2,
                j2,
            ) && x == common_run_at(a, b, i2, j2);
        lemma_common_suffix_run(a, b, i2, j2);
        let l = common_suffix_len(a, b, i2, j2);
        assert(is_maximal_common_run(a, b, min_len, x, i2 - l, j2 - l));
    }
    if exists|i: int, j: int| is_maximal_common_run(a, b, min_len, x, i, j) {
        let (i, j) = choose|i: int, j: int| is_maximal_common_run(a, b, min_len, x, i, j);
        let n = x.len() as int;
        lemma_common_suffix_exact(a, b, i + n, j + n, n);
        assert(a[i + n - 1] == x[n - 1]);
        assert(b[j + n - 1] == x[n - 1]);
        assert(maximal_common_at(a, b, min_len, i + n, j + n));
        assert(common_run_at(a, b, i + n, j + n) == x);
        assert(common_runs_before(a, b, min_len, a.len() as int + 1, 0).contains(x));
    }
}

/// The maximal common runs of `a` and `b` at least `min_len` long (inputs over 256
/// bytes give none, which bounds the quadratic table).
fn common_substrings(a: &[u8], b: &[u8], min_len: usize) -> (r: Vec<Vec<u8>>)
    ensures
        bytes_view(r@) == common_substring_seq(a@, b@, min_len as int),
        bytes_view(r@).to_set() == common_substring_set(a@, b@, min_len as int),
{
    let max_len: usize = 256;
    if a.len() == 0 || b.len() == 0 || a.len() > max_len || b.len() > max_len {
        proof {
            assert(bytes_view(Seq::<Vec<u8>>::empty()).to_set() =~= Set::<Seq<u8>>::empty());
            assert(bytes_view(Seq::<Vec<u8>>::empty()) =~= Seq::<Seq<u8>>::empty());
        }
        return Vec::new();
    }
    let n = a.len();
    let m = b.len();
    let mut prev: Vec<usize> = vec![0usize; m + 1];
    let mut results: Vec<Vec<u8>> = Vec::new();
    let mut i: usize = 1;
    proof {
        assert(bytes_view(results@).to_set() =~= common_runs_before(a@, b@, min_len as int, 1, 1))
            by {
            assert forall|x: Seq<u8>| !common_runs_before(a@, b@, min_len as int, 1, 1).contains(
                x,
            ) by {}
        }
        assert(bytes_view(results@) =~= common_runs_upto(a@, b@, min_len as int, 1));
    }
    while i <= n
        invariant
            bytes_view(results@) == common_runs_upto(a@, b@, min_len as int, i as int),
            n == a@.len(),
            m == b@.len(),
            1 <= n <= 256,
            1 <= m <= 256,
            1 <= i <= n + 1,
            prev@.len() == m + 1,
            forall|j: int| 0 <= j <= m ==> #[trigger] prev@[j] == common_suffix_len(a@, b@, i - 1, j),
            bytes_view(results@).to_set() == common_runs_before(a@, b@, min_len as int, i as int, 1),
        decreases n + 1 - i,
    {
        let mut cur: Vec<usize> = vec![0usize; m + 1];
        let mut j: usize = 1;
        proof {
            assert(common_runs_upto(a@, b@, min_len as int, i as int) + common_runs_row(
                a@,
                b@,
                min_len as int,
                i as int,
                1,
            ) =~= common_runs_upto(a@, b@, min_len as int, i as int));
        }
        while j <= m
            invariant
                bytes_view(results@) == common_runs_upto(a@, b@, min_len as int, i as int)
                    + common_runs_row(a@, b@, min_len as int, i as int, j as int),
                n == a@.len(),
                m == b@.len(),
                1 <= n <= 256,
                1 <= m <= 256,
                1 <= i <= n,
                1 <= j <= m + 1,
                prev@.len() == m + 1,
                cur@.len() == m + 1,
                forall|k: int| 0 <= k <= m ==> #[trigger] prev@[k] == common_suffix_len(a@, b@, i - 1, k),
                cur@[0] == 0,
                forall|k: int| 1 <= k < j ==> #[trigger] cur@[k] == common_suffix_len(a@, b@, i as int, k),
                forall|k: int| j <= k <= m ==> #[trigger] cur@[k] == 0,
                bytes_view(results@).to_set() == common_runs_before(
                    a@,
                    b@,
                    min_len as int,
                    i as int,
                    j as int,
                ),
            decreases m + 1 - j,
        {
            let ghost before = bytes_view(results@);
            let ghost old_results = results@;
            let ghost mut pushed = false;
            proof {
                lemma_common_suffix_len_bound(a@, b@, i - 1, j - 1);
            }
            if a[i - 1] == b[j - 1] {
                let l = prev[j - 1] + 1;
                cur[j] = l;
                let at_end = i == n || j == m;
                let can_extend = !at_end && a[i] == b[j];
                if !can_extend && l >= min_len {
                    let mut run: Vec<u8> = Vec::new();
                    append_bytes(&mut run, &a[i - l..i]);
                    proof {
                        assert(run@ == common_run_at(a@, b@, i as int, j as int));
                        pushed = true;
                    }
                    results.push(run);
                    proof {
                        assert(bytes_view(results@) =~= before.push(common_run_at(a@, b@, i as int, j as int)));
                    }
                }
            }
            proof {
                assert(cur@[j as int] == common_suffix_len(a@, b@, i as int, j as int));
                let s1 = common_runs_before(a@, b@, min_len as int, i as int, j as int);
                let s2 = common_runs_before(a@, b@, min_len as int, i as int, j + 1);
                before.lemma_push_to_set_commute(common_run_at(a@, b@, i as int, j as int));
                assert forall|x: Seq<u8>| s2.contains(x) <==> (s1.contains(x) || (maximal_common_at(
                    a@,
                    b@,
                    min_len as int,
                    i as int,
                    j as int,
                ) && x == common_run_at(a@, b@, i as int, j as int))) by {
                    if s2.contains(x) {
                        let (i2, j2) = choose|i2: int, j2: int|
                            (i2 < i || (i2 == i && j2 < j + 1)) && #[trigger] maximal_common_at(
                                a@,
                                b@,
                                min_len as int,
                                i2,
                                j2,
                            ) && x == common_run_at(a@, b@, i2, j2);
                        if !(i2 == i && j2 == j) {
                            assert(s1.contains(x));
                        }
                    }
                    if maximal_common_at(a@, b@, min_len as int, i as int, j as int) && x
                        == common_run_at(a@, b@, i as int, j as int) {
                        assert(s2.contains(x));
                    }
                }
                let row = common_runs_row(a@, b@, min_len as int, i as int, j as int);
                let upto = common_runs_upto(a@, b@, min_len as int, i as int);
                if !pushed {
                    assert(bytes_view(results@) =~= before);
                    assert(!maximal_common_at(a@, b@, min_len as int, i as int, j as int));
                    assert(common_runs_row(a@, b@, min_len as int, i as int, j + 1) == row);
                } else {
                    assert(maximal_common_at(a@, b@, min_len as int, i as int, j as int));
                    assert(common_runs_row(a@, b@, min_len as int, i as int, j + 1) == row.push(
                        common_run_at(a@, b@, i as int, j as int),
                    ));
                    assert(bytes_view(results@) =~= upto + row.push(common_run_at(a@, b@, i as int, j as int)));
                }
                assert(bytes_view(results@).to_set() =~= s2);
            }
            j = j + 1;
        }
        proof {
            let s1 = common_runs_before(a@, b@, min_len as int, i as int, m + 1);
            let s2 = common_runs_before(a@, b@, min_len as int, i + 1, 1);
            assert forall|x: Seq<u8>| s1.contains(x) <==> s2.contains(x) by {
                if s2.contains(x) {
                    let (i2, j2) = choose|i2: int, j2: int|
                        (i2 < i + 1 || (i2 == i + 1 && j2 < 1)) && #[trigger] maximal_common_at(
                            a@,
                            b@,
                            min_len as int,
                            i2,
                            j2,
                        ) && x == common_run_at(a@, b@, i2, j2);
                    assert(s1.contains(x));
                }
                if s1.contains(x) {
                    let (i2, j2) = choose|i2: int, j2: int|
                        (i2 < i || (i2 == i && j2 < m + 1)) && #[trigger] maximal_common_at(
                            a@,
                            b@,
                            min_len as int,
                            i2,
                            j2,
                        ) && x == common_run_at(a@, b@, i2, j2);
                    assert(s2.contains(x));
                }
            }
            assert(s1 =~= s2);
        }
        proof {
            assert(common_runs_upto(a@, b@, min_len as int, i + 1) == common_runs_upto(
                a@,
                b@,
                min_len as int,
                i as int,
            ) + common_runs_row(a@, b@, min_len as int, i as int, m + 1));
        }
        prev = cur;
        i = i + 1;
    }
    proof {
        let s1 = common_runs_before(a@, b@, min_len as int, n + 1, 1);
        let s2 = common_runs_before(a@, b@, min_len as int, n + 1, 0);
        assert forall|x: Seq<u8>| s1.contains(x) <==> s2.contains(x) by {
            if s1.contains(x) {
                let (i2, j2) = choose|i2: int, j2: int|
                    (i2 < n + 1 || (i2 == n + 1 && j2 < 1)) && #[trigger] maximal_common_at(
                        a@,
                        b@,
                        min_len as int,
                        i2,
                        j2,
                    ) && x == common_run_at(a@, b@, i2, j2);
                assert(s2.contains(x));
            }
        }
        assert(s1 =~= s2);
    }
    results
}

/// The candidates of one alternation step: every maximal common run (at least two
/// bytes) of a candidate and a part of the next branch of the same case sensitivity.
pub open spec fn step_set(cands: Seq<(Seq<u8>, bool)>, parts: Seq<(Seq<u8>, bool)>) -> Set<
    (Seq<u8>, bool),
> {
    Set::new(
        |x: (Seq<u8>, bool)|
            exists|i: int, j: int|
                0 <= i < cands.len() && 0 <= j < parts.len() && #[trigger] cands[i].1
                    == #[trigger] parts[j].1 && x.1 == cands[i].1 && common_substring_set(
                    cands[i].0,
                    parts[j].0,
                    2,
                ).contains(x.0),
    )
}

pub open spec fn alt_step(cands: Seq<(Seq<u8>, bool)>, parts: Seq<(Seq<u8>, bool)>) -> Seq<
    (Seq<u8>, bool),
> {
    normalize_spec(step_set(cands, parts))
}

/// The parts required in every branch of an alternation: the first branch's, folded
/// with each further branch by `alt_step`.
pub open spec fn alt_spec(subs: Seq<Expr>, fold: bool) -> Seq<(Seq<u8>, bool)>
    decreases subs, 0int,
{
    if subs.len() == 0 {
        Seq::empty()
    } else if subs.len() == 1 {
        req_spec(subs[0], fold)
    } else {
        alt_step(alt_spec(subs.drop_last(), fold), req_spec(subs.last(), fold))
    }
}

/// A part as it is emitted: the bytes of a case-insensitive part are given
/// ASCII-lowercased, those of a case-sensitive part as they are.
pub open spec fn canon_part(p: (Seq<u8>, bool)) -> (Seq<u8>, bool) {
    if p.1 {
        (lower_bytes(p.0), true)
    } else {
        p
    }
}

/// The bytes of a case-insensitive part are ASCII-lowercase.
pub open spec fn is_canonical(p: (Seq<u8>, bool)) -> bool {
    p.1 ==> p.0 == lower_bytes(p.0)
}

/// Walking a concatenation: the parts emitted so far, the literal run being built, and
/// whether that run is case-insensitive.
pub open spec fn concat_state(subs: Seq<Expr>, fold: bool) -> (Seq<(Seq<u8>, bool)>, Seq<u8>, bool)
    decreases subs, 0int,
{
    if subs.len() == 0 {
        (Seq::empty(), Seq::empty(), false)
    } else {
        let st = concat_state(subs.drop_last(), fold);
        match run_spec(subs.last(), fold) {
            Some(r) => (st.0, st.1 + r.0, st.2 || r.1),
            None => {
                let flushed = if st.1.len() > 0 {
                    (st.0.push(canon_part((st.1, st.2))), false)
                } else {
                    (st.0, st.2)
                };
                (flushed.0 + req_spec(subs.last(), fold), Seq::empty(), flushed.1)
            },
        }
    }
}

/// The parts of a concatenation: adjacent literal runs merged, every other child's own
/// parts in place.
pub open spec fn concat_spec(subs: Seq<Expr>, fold: bool) -> Seq<(Seq<u8>, bool)>
    decreases subs, 1int,
{
    let st = concat_state(subs, fold);
    if st.1.len() > 0 {
        st.0.push(canon_part((st.1, st.2)))
    } else {
        st.0
    }
}

/// The literal parts required in every match of `h` (see `required_literal_parts`);
/// without `fold`, classes contribute nothing and every part is case-sensitive.
pub open spec fn req_spec(h: Expr, fold: bool) -> Seq<(Seq<u8>, bool)>
    decreases h, 0int,
{
    match h {
        Expr::Empty => Seq::empty(),
        Expr::Literal(b) => seq![(b@, false)],
        Expr::Class(c) => if fold {
            match case_fold_byte_spec(c) {
                Some(b) => seq![(seq![b], true)],
                None => Seq::empty(),
            }
        } else {
            Seq::empty()
        },
        Expr::Look => Seq::empty(),
        Expr::Repetition { min, max, sub } => if min == 0 {
            Seq::empty()
        } else {
            match run_spec(*sub, fold) {
                Some(u) => seq![canon_part((repeat_spec(u.0, min), u.1))],
                None => req_spec(*sub, fold),
            }
        },
        Expr::Capture(sub) => req_spec(*sub, fold),
        Expr::Concat(subs) => concat_spec(subs@, fold),
        Expr::Alternation(subs) => alt_spec(subs@, fold),
    }
}

/// The candidates found from the pairs before `(ci, pj)` in row order.
pub open spec fn step_before(
    cands: Seq<(Seq<u8>, bool)>,
    parts: Seq<(Seq<u8>, bool)>,
    ci: int,
    pj: int,
) -> Set<(Seq<u8>, bool)> {
    Set::new(
        |x: (Seq<u8>, bool)|
            exists|i: int, j: int|
                (i < ci || (i == ci && j < pj)) && 0 <= i < cands.len() && 0 <= j < parts.len()
                    && cands[i].1 == parts[j].1 && x.1 == cands[i].1 && #[trigger] common_substring_set(
                    cands[i].0,
                    parts[j].0,
                    2,
                ).contains(x.0),
    )
}

/// The runs, tagged with one case sensitivity.
pub open spec fn tagged(runs: Set<Seq<u8>>, ci: bool) -> Set<(Seq<u8>, bool)> {
    Set::new(|x: (Seq<u8>, bool)| runs.contains(x.0) && x.1 == ci)
}

fn push_runs(next: &mut Vec<LiteralPart>, runs: Vec<Vec<u8>>, ci: bool)
    ensures
        parts_view(final(next)@).to_set() == parts_view(old(next)@).to_set().union(
            tagged(bytes_view(runs@).to_set(), ci),
        ),
{
    let ghost all = bytes_view(runs@);
    let mut rest = runs;
    let ghost mut taken: int = 0;
    proof {
        assert(all.take(0).to_set() =~= Set::<Seq<u8>>::empty());
        assert(parts_view(next@).to_set() =~= parts_view(old(next)@).to_set().union(
            tagged(all.take(0).to_set(), ci),
        ));
    }
    while rest.len() > 0
        invariant
            0 <= taken <= all.len(),
            bytes_view(rest@) == all.skip(taken),
            parts_view(next@).to_set() == parts_view(old(next)@).to_set().union(
                tagged(all.take(taken).to_set(), ci),
            ),
        decreases rest@.len(),
    {
        let ghost before_rest = rest@;
        let ghost before = parts_view(next@);
        let bytes = rest.remove(0);
        proof {
            assert(bytes_view(before_rest).len() == before_rest.len());
            assert(bytes_view(before_rest)[0] == before_rest[0]@);
            assert(all.skip(taken)[0] == all[taken]);
            assert(bytes@ == all[taken]);
            assert(bytes_view(rest@) =~= bytes_view(before_rest).skip(1));
            assert(all.skip(taken).skip(1) =~= all.skip(taken + 1));
            assert(all.take(taken + 1) =~= all.take(taken).push(all[taken]));
            all.take(taken).lemma_push_to_set_commute(all[taken]);
        }
        next.push(LiteralPart { bytes, case_insensitive: ci });
        proof {
            assert(parts_view(next@) =~= before.push((all[taken], ci)));
            before.lemma_push_to_set_commute((all[taken], ci));
            taken = taken + 1;
            assert(parts_view(next@).to_set() =~= parts_view(old(next)@).to_set().union(
                tagged(all.take(taken).to_set(), ci),
            ));
        }
    }
    assert(all.take(taken) =~= all);
}

/// One alternation step: the maximal common runs of every same-sensitivity pair of a
/// candidate and a part, normalized.
fn alternation_step(cands: &Vec<LiteralPart>, parts: &Vec<LiteralPart>) -> (r: Vec<LiteralPart>)
    ensures
        parts_view(r@) == alt_step(parts_view(cands@), parts_view(parts@)),
{
    let ghost cv = parts_view(cands@);
    let ghost pv = parts_view(parts@);
    let mut next: Vec<LiteralPart> = Vec::new();
    let mut ci: usize = 0;
    proof {
        assert(parts_view(next@).to_set() =~= step_before(cv, pv, 0, 0));
    }
    while ci < cands.len()
        invariant
            cv == parts_view(cands@),
            pv == parts_view(parts@),
            ci <= cands@.len(),
            parts_view(next@).to_set() == step_before(cv, pv, ci as int, 0),
        decreases cands@.len() - ci,
    {
        let mut pj: usize = 0;
        while pj < parts.len()
            invariant
                cv == parts_view(cands@),
                pv == parts_view(parts@),
                ci < cands@.len(),
                pj <= parts@.len(),
                parts_view(next@).to_set() == step_before(cv, pv, ci as int, pj as int),
            decreases parts@.len() - pj,
        {
            let ghost before = parts_view(next@).to_set();
            let c = &cands[ci];
            let p = &parts[pj];
            let same = c.case_insensitive == p.case_insensitive;
            if same {
                let runs = common_substrings(c.bytes.as_slice(), p.bytes.as_slice(), 2);
                push_runs(&mut next, runs, c.case_insensitive);
            }
            proof {
                let s1 = step_before(cv, pv, ci as int, pj as int);
                let s2 = step_before(cv, pv, ci as int, pj + 1);
                assert(cv[ci as int] == c@);
                assert(pv[pj as int] == p@);
                assert forall|x: (Seq<u8>, bool)| s2.contains(x) <==> (s1.contains(x) || (same
                    && x.1 == c.case_insensitive && common_substring_set(
                    c.bytes@,
                    p.bytes@,
                    2,
                ).contains(x.0))) by {
                    if s2.contains(x) {
                        let (i, j) = choose|i: int, j: int|
                            (i < ci || (i == ci && j < pj + 1)) && 0 <= i < cv.len() && 0 <= j
                                < pv.len() && cv[i].1 == pv[j].1 && x.1 == cv[i].1
                                && #[trigger] common_substring_set(cv[i].0, pv[j].0, 2).contains(x.0);
                        if !(i == ci && j == pj) {
                            assert(s1.contains(x));
                        }
                    }
                    if s1.contains(x) {
                        let (i, j) = choose|i: int, j: int|
                            (i < ci || (i == ci && j < pj)) && 0 <= i < cv.len() && 0 <= j
                                < pv.len() && cv[i].1 == pv[j].1 && x.1 == cv[i].1
                                && #[trigger] common_substring_set(cv[i].0, pv[j].0, 2).contains(x.0);
                        assert(s2.contains(x));
                    }
                    if same && x.1 == c.case_insensitive && common_substring_set(
                        c.bytes@,
                        p.bytes@,
                        2,
                    ).contains(x.0) {
                        assert(common_substring_set(cv[ci as int].0, pv[pj as int].0, 2).contains(
                            x.0,
                        ));
                        assert(s2.contains(x));
                    }
                }
                if same {
                    assert(parts_view(next@).to_set() =~= s2);
                } else {
                    assert(parts_view(next@).to_set() =~= s2);
                }
            }
            pj = pj + 1;
        }
        proof {
            let s1 = step_before(cv, pv, ci as int, pv.len() as int);
            let s2 = step_before(cv, pv, ci + 1, 0);
            assert forall|x: (Seq<u8>, bool)| s1.contains(x) <==> s2.contains(x) by {
                if s1.contains(x) {
                    let (i, j) = choose|i: int, j: int|
                        (i < ci || (i == ci && j < pv.len())) && 0 <= i < cv.len() && 0 <= j < pv.len()
                            && cv[i].1 == pv[j].1 && x.1 == cv[i].1 && #[trigger] common_substring_set(
                            cv[i].0,
                            pv[j].0,
                            2,
                        ).contains(x.0);
                    assert(s2.contains(x));
                }
                if s2.contains(x) {
                    let (i, j) = choose|i: int, j: int|
                        (i < ci + 1 || (i == ci + 1 && j < 0)) && 0 <= i < cv.len() && 0 <= j
                            < pv.len() && cv[i].1 == pv[j].1 && x.1 == cv[i].1
                            && #[trigger] common_substring_set(cv[i].0, pv[j].0, 2).contains(x.0);
                    assert(s1.contains(x));
                }
            }
            assert(s1 =~= s2);
        }
        ci = ci + 1;
    }
    proof {
        let s1 = step_before(cv, pv, cv.len() as int, 0);
        assert forall|x: (Seq<u8>, bool)| s1.contains(x) <==> step_set(cv, pv).contains(x) by {
            if s1.contains(x) {
                let (i, j) = choose|i: int, j: int|
                    (i < cv.len() || (i == cv.len() && j < 0)) && 0 <= i < cv.len() && 0 <= j
                        < pv.len() && cv[i].1 == pv[j].1 && x.1 == cv[i].1
                        && #[trigger] common_substring_set(cv[i].0, pv[j].0, 2).contains(x.0);
                assert(step_set(cv, pv).contains(x));
            }
            if step_set(cv, pv).contains(x) {
                let (i, j) = choose|i: int, j: int|
                    0 <= i < cv.len() && 0 <= j < pv.len() && #[trigger] cv[i].1 == #[trigger] pv[j].1
                        && x.1 == cv[i].1 && common_substring_set(cv[i].0, pv[j].0, 2).contains(x.0);
                assert(s1.contains(x));
            }
        }
        assert(s1 =~= step_set(cv, pv));
    }
    normalize_candidates(next)
}

/// The parts of an alternation (see `alt_spec`).
fn alternation_literal_parts(subs: &Vec<Expr>, fold: bool) -> (r: Vec<LiteralPart>)
    ensures
        parts_view(r@) == alt_spec(subs@, fold),
    decreases subs@, 1int,
{
    if subs.len() == 0 {
        return Vec::new();
    }
    let mut candidates = required_parts(&subs[0], fold);
    assert(subs@.take(1).drop_last() =~= Seq::<Expr>::empty());
    let mut i: usize = 1;
    while i < subs.len()
        invariant
            1 <= i <= subs@.len(),
            parts_view(candidates@) == alt_spec(subs@.take(i as int), fold),
        decreases subs@.len() - i,
    {
        assert(subs@.take(i + 1).drop_last() =~= subs@.take(i as int));
        assert(subs@.take(i + 1).last() == subs@[i as int]);
        if candidates.len() == 0 {
            proof {
                lemma_alt_empty_stays(subs@, fold, i as int);
                assert(subs@.take(subs@.len() as int) =~= subs@);
            }
            return candidates;
        }
        let parts = required_parts(&subs[i], fold);
        candidates = alternation_step(&candidates, &parts);
        i = i + 1;
    }
    assert(subs@.take(subs@.len() as int) =~= subs@);
    candidates
}

proof fn lemma_normalize_empty()
    ensures
        normalize_spec(Set::empty()) == Seq::<(Seq<u8>, bool)>::empty(),
{
    let e = Seq::<(Seq<u8>, bool)>::empty();
    assert(e.to_set() =~= Set::empty());
    lemma_is_sorted_spec(e, false);
}

proof fn lemma_alt_empty_stays(subs: Seq<Expr>, fold: bool, k: int)
    requires
        1 <= k <= subs.len(),
        alt_spec(subs.take(k), fold).len() == 0,
    ensures
        alt_spec(subs, fold).len() == 0,
    decreases subs.len() - k,
{
    if k < subs.len() {
        let t = subs.take(k + 1);
        assert(t.drop_last() =~= subs.take(k));
        assert(step_set(alt_spec(subs.take(k), fold), req_spec(t.last(), fold)) =~= Set::empty());
        lemma_normalize_empty();
        lemma_alt_empty_stays(subs, fold, k + 1);
    } else {
        assert(subs.take(k) =~= subs);
    }
}

/// An alternation with a branch that requires nothing (such as the empty branch of
/// `foo|`) requires nothing.
pub proof fn lemma_alternation_with_empty_branch(subs: Vec<Expr>, fold: bool, k: int)
    requires
        0 <= k < subs@.len(),
        req_spec(subs@[k], fold).len() == 0,
    ensures
        req_spec(Expr::Alternation(subs), fold).len() == 0,
{
    let s = subs@;
    let t = s.take(k + 1);
    if k == 0 {
        assert(t.len() == 1 && t[0] == s[0]);
    } else {
        assert(t.drop_last() =~= s.take(k));
        assert(t.last() == s[k]);
        assert(step_set(alt_spec(s.take(k), fold), req_spec(s[k], fold)) =~= Set::empty());
        lemma_normalize_empty();
    }
    assert(alt_spec(t, fold).len() == 0);
    lemma_alt_empty_stays(s, fold, k + 1);
}

/// The bytes of a part as it is emitted (see `canon_part`).
fn canon_bytes(bytes: Vec<u8>, case_insensitive: bool) -> (r: Vec<u8>)
    ensures
        r@ == canon_part((bytes@, case_insensitive)).0,
{
    if case_insensitive {
        lowercase_bytes(bytes.as_slice())
    } else {
        bytes
    }
}

/// The parts of a concatenation (see `concat_spec`).
fn concat_literal_parts(subs: &Vec<Expr>, fold: bool) -> (r: Vec<LiteralPart>)
    ensures
        parts_view(r@) == concat_spec(subs@, fold),
    decreases subs@, 1int,
{
    let mut parts: Vec<LiteralPart> = Vec::new();
    let mut run: Vec<u8> = Vec::new();
    let mut run_ci = false;
    let mut i: usize = 0;
    assert(subs@.take(0) =~= Seq::<Expr>::empty());
    assert(parts_view(parts@) =~= Seq::<(Seq<u8>, bool)>::empty());
    while i < subs.len()
        invariant
            i <= subs@.len(),
            concat_state(subs@.take(i as int), fold) == (parts_view(parts@), run@, run_ci),
        decreases subs@.len() - i,
    {
        assert(subs@.take(i + 1).drop_last() =~= subs@.take(i as int));
        assert(subs@.take(i + 1).last() == subs@[i as int]);
        match literal_part_bytes(&subs[i], fold) {
            Some(part) => {
                append_bytes(&mut run, part.bytes.as_slice());
                run_ci = run_ci || part.case_insensitive;
            },
            None => {
                if run.len() > 0 {
                    let bytes = run;
                    run = Vec::new();
                    let ghost before = parts_view(parts@);
                    let ghost raw = bytes@;
                    let bytes = canon_bytes(bytes, run_ci);
                    parts.push(LiteralPart { bytes, case_insensitive: run_ci });
                    assert(parts_view(parts@) =~= before.push(canon_part((raw, run_ci))));
                    run_ci = false;
                }
                let ghost before = parts_view(parts@);
                let mut sub_parts = required_parts(&subs[i], fold);
                let ghost added = parts_view(sub_parts@);
                parts.append(&mut sub_parts);
                assert(parts_view(parts@) =~= before + added);
                assert(run@ =~= Seq::<u8>::empty());
            },
        }
        i = i + 1;
    }
    assert(subs@.take(subs@.len() as int) =~= subs@);
    if run.len() > 0 {
        let ghost before = parts_view(parts@);
        let ghost raw = run@;
        let bytes = canon_bytes(run, run_ci);
        parts.push(LiteralPart { bytes, case_insensitive: run_ci });
        assert(parts_view(parts@) =~= before.push(canon_part((raw, run_ci))));
    }
    parts
}

/// The byte strings required in every match of `h`, case-sensitively.
pub open spec fn required_literals_spec(h: Expr) -> Seq<Seq<u8>> {
    req_spec(h, false).map_values(|p: (Seq<u8>, bool)| p.0)
}

/// The parts required in every match of `h` (see `req_spec`).
fn required_parts(h: &Expr, fold: bool) -> (r: Vec<LiteralPart>)
    ensures
        parts_view(r@) == req_spec(*h, fold),
    decreases h, 0int,
{
    match h {
        Expr::Empty => {
            assert(parts_view(Seq::<LiteralPart>::empty()) =~= Seq::<(Seq<u8>, bool)>::empty());
            Vec::new()
        },
        Expr::Literal(b) => {
            let mut bytes: Vec<u8> = Vec::new();
            append_bytes(&mut bytes, b.as_slice());
            let mut out: Vec<LiteralPart> = Vec::new();
            out.push(LiteralPart { bytes, case_insensitive: false });
            assert(parts_view(out@) =~= seq![(b@, false)]);
            out
        },
        Expr::Class(c) => {
            let mut out: Vec<LiteralPart> = Vec::new();
            if fold {
                match ascii_case_fold_byte(c) {
                    Some(b) => {
                        let mut bytes: Vec<u8> = Vec::new();
                        bytes.push(b);
                        out.push(LiteralPart { bytes, case_insensitive: true });
                        assert(parts_view(out@) =~= seq![(seq![b], true)]);
                    },
                    None => {},
                }
            }
            assert(parts_view(out@) =~= req_spec(*h, fold));
            out
        },
        Expr::Look => {
            assert(parts_view(Seq::<LiteralPart>::empty()) =~= Seq::<(Seq<u8>, bool)>::empty());
            Vec::new()
        },
        Expr::Repetition { min, max, sub } => {
            if *min == 0 {
                assert(parts_view(Seq::<LiteralPart>::empty()) =~= Seq::<(Seq<u8>, bool)>::empty());
                return Vec::new();
            }
            match literal_part_bytes(sub, fold) {
                Some(unit) => {
                    let bytes = canon_bytes(repeat_bytes(unit.bytes.as_slice(), *min), unit.case_insensitive);
                    let mut out: Vec<LiteralPart> = Vec::new();
                    out.push(LiteralPart { bytes, case_insensitive: unit.case_insensitive });
                    assert(parts_view(out@) =~= req_spec(*h, fold));
                    out
                },
                None => required_parts(sub, fold),
            }
        },
        Expr::Capture(sub) => required_parts(sub, fold),
        Expr::Concat(subs) => concat_literal_parts(subs, fold),
        Expr::Alternation(subs) => alternation_literal_parts(subs, fold),
    }
}

/// Byte strings that must appear verbatim, at least once, in any text `hir` can match:
/// literals, adjacent literals merged, repetitions of a literal unit unrolled `min` times
/// (to a bounded length), and what every branch of an alternation has in common.
pub fn required_literals(hir: &Expr) -> (r: Vec<Vec<u8>>)
    ensures
        bytes_view(r@) == required_literals_spec(*hir),
{
    let parts = required_parts(hir, false);
    let mut out: Vec<Vec<u8>> = Vec::new();
    let mut i: usize = 0;
    while i < parts.len()
        invariant
            i <= parts@.len(),
            parts_view(parts@) == req_spec(*hir, false),
            bytes_view(out@) == required_literals_spec(*hir).take(i as int),
        decreases parts@.len() - i,
    {
        let mut bytes: Vec<u8> = Vec::new();
        append_bytes(&mut bytes, parts[i].bytes.as_slice());
        let ghost before = bytes_view(out@);
        out.push(bytes);
        proof {
            assert(parts_view(parts@)[i as int] == parts@[i as int]@);
            assert(bytes_view(out@) =~= before.push(bytes@));
            assert(required_literals_spec(*hir).take(i + 1) =~= required_literals_spec(*hir).take(
                i as int,
            ).push(required_literals_spec(*hir)[i as int]));
        }
        i = i + 1;
    }
    assert(required_literals_spec(*hir).take(parts@.len() as int) =~= required_literals_spec(*hir));
    out
}

/// The case-aware counterpart of `required_literals`: an ASCII case-fold class (such as
/// `[Kk]`) takes part in literal runs as its lowercase letter, and makes the run
/// case-insensitive; the bytes of a case-insensitive part are given ASCII-lowercased.
pub fn required_literal_parts(hir: &Expr) -> (r: Vec<LiteralPart>)
    ensures
        parts_view(r@) == req_spec(*hir, true),
        forall|k: int|
            0 <= k < r@.len() && (#[trigger] r@[k]).case_insensitive ==> r@[k].bytes@ == lower_bytes(
                r@[k].bytes@,
            ),
{
    let r = required_parts(hir, true);
    proof {
        crate::literal_laws::lemma_req_canonical(*hir, true);
        assert forall|k: int|
            0 <= k < r@.len() && (#[trigger] r@[k]).case_insensitive implies r@[k].bytes@ == lower_bytes(
                r@[k].bytes@,
            ) by {
            assert(parts_view(r@)[k] == r@[k]@);
        }
    }
    r
}

/// The literals `h` is exactly one of, when it is (through capture groups) an
/// alternation every branch of which is exactly one literal.
pub open spec fn exact_alternation_spec(h: Expr) -> Option<Seq<Seq<u8>>>
    decreases h,
{
    match h {
        Expr::Capture(sub) => exact_alternation_spec(*sub),
        Expr::Alternation(subs) => if forall|k: int|
            0 <= k < subs@.len() ==> (#[trigger] literal_bytes_spec(subs@[k])) is Some {
            Some(subs@.map_values(|x: Expr| literal_bytes_spec(x).unwrap()))
        } else {
            None
        },
        _ => None,
    }
}

/// When the whole expression is exactly one of several literals (an alternation, through
/// capture groups, of exact literals), those literals in branch order; `None` as soon as
/// one branch is anything else, since dropping it would under-match.
pub fn as_exact_alternation(hir: &Expr) -> (r: Option<Vec<Vec<u8>>>)
    ensures
        match r {
            Some(v) => exact_alternation_spec(*hir) == Some(bytes_view(v@)),
            None => exact_alternation_spec(*hir) is None,
        },
    decreases hir,
{
    match hir {
        Expr::Capture(sub) => as_exact_alternation(sub),
        Expr::Alternation(subs) => {
            let ghost all = subs@.map_values(|x: Expr| literal_bytes_spec(x).unwrap());
            let mut out: Vec<Vec<u8>> = Vec::new();
            let mut i: usize = 0;
            while i < subs.len()
                invariant
                    *hir == Expr::Alternation(*subs),
                    all == subs@.map_values(|x: Expr| literal_bytes_spec(x).unwrap()),
                    i <= subs@.len(),
                    bytes_view(out@) == all.take(i as int),
                    forall|k: int| 0 <= k < i ==> (#[trigger] literal_bytes_spec(subs@[k])) is Some,
                decreases subs@.len() - i,
            {
                match literal_bytes(&subs[i]) {
                    Some(b) => {
                        let ghost before = bytes_view(out@);
                        out.push(b);
                        proof {
                            assert(bytes_view(out@) =~= before.push(b@));
                            assert(all.take(i + 1) =~= all.take(i as int).push(all[i as int]));
                        }
                    },
                    None => {
                        return None;
                    },
                }
                i = i + 1;
            }
            assert(all.take(subs@.len() as int) =~= all);
            Some(out)
        },
        _ => None,
    }
}

/// `regex_syntax`'s parsed expression tree.
#[verifier::external_type_specification]
#[verifier::external_body]
pub struct ExParsedHir(regex_syntax::hir::Hir);

/// `regex_syntax`'s character class.
#[verifier::external_type_specification]
#[verifier::external_body]
pub struct ExParsedClass(regex_syntax::hir::Class);

/// The expression tree `regex_syntax` parses `pattern` into (with case-insensitivity
/// on by default when asked), node for node; `None` when it does not parse.
pub uninterp spec fn parsed_regex(pattern: Seq<char>, case_insensitive: bool) -> Option<Expr>;

/// Converts a class of `regex_syntax` range for range.
#[verifier::external_body]
fn lower_class(c: &Class) -> ExprClass {
    match c {
        Class::Unicode(u) => ExprClass::Unicode(u.ranges().iter().map(|r| (r.start(), r.end())).collect()),
        Class::Bytes(b) => ExprClass::Bytes(b.ranges().iter().map(|r| (r.start(), r.end())).collect()),
    }
}

/// Converts an expression tree of `regex_syntax` node for node, moving each field over.
#[verifier::external_body]
fn lower_hir(h: &regex_syntax::hir::Hir) -> Expr {
    match h.kind() {
        HirKind::Empty => Expr::Empty,
        HirKind::Literal(l) => Expr::Literal(l.0.to_vec()),
        HirKind::Class(c) => Expr::Class(lower_class(c)),
        HirKind::Look(_) => Expr::Look,
        HirKind::Repetition(r) => Expr::Repetition { min: r.min, max: r.max, sub: Box::new(lower_hir(&r.sub)) },
        HirKind::Capture(c) => Expr::Capture(Box::new(lower_hir(&c.sub))),
        HirKind::Concat(v) => Expr::Concat(v.iter().map(lower_hir).collect()),
        HirKind::Alternation(v) => Expr::Alternation(v.iter().map(lower_hir).collect()),
    }
}

/// `regex_syntax::ParserBuilder::parse`, with `case_insensitive` as the default flag:
/// the parsed tree, converted, or `None` on a parse error. Which tree a pattern gives is
/// not stated; it is named `parsed_regex`, a function of the two arguments.
#[verifier::external_body]
fn parse_regex(pattern: &str, case_insensitive: bool) -> (r: Option<Expr>)
    ensures
        r == parsed_regex(pattern@, case_insensitive),
{
    match regex_syntax::ParserBuilder::new().case_insensitive(case_insensitive).build().parse(pattern) {
        Ok(h) => Some(lower_hir(&h)),
        Err(_) => None,
    }
}

/// Some part is case-insensitive.
pub open spec fn any_case_insensitive(parts: Seq<(Seq<u8>, bool)>) -> bool {
    exists|k: int| 0 <= k < parts.len() && (#[trigger] parts[k]).1
}

/// The parts' bytes (ASCII-lowercased when `fold`), keeping those at least
/// `MIN_FRAGMENT_LEN` long, in order.
pub open spec fn kept_literals(parts: Seq<(Seq<u8>, bool)>, fold: bool) -> Seq<Seq<u8>>
    decreases parts.len(),
{
    if parts.len() == 0 {
        Seq::empty()
    } else {
        let prev = kept_literals(parts.drop_last(), fold);
        let b = if fold {
            lower_bytes(parts.last().0)
        } else {
            parts.last().0
        };
        if b.len() >= MIN_FRAGMENT_LEN {
            prev.push(b)
        } else {
            prev
        }
    }
}

/// The length of the shortest literal, capped at 4.
pub open spec fn capped_shortest(lits: Seq<Seq<u8>>) -> int
    decreases lits.len(),
{
    if lits.len() == 0 {
        4
    } else {
        let p = capped_shortest(lits.drop_last());
        if lits.last().len() < p {
            lits.last().len() as int
        } else {
            p
        }
    }
}

/// The fragment hashes of all the literals.
pub open spec fn fragments_of(lits: Seq<Seq<u8>>, fragment_len: int) -> Set<u32>
    decreases lits.len(),
{
    if lits.len() == 0 {
        Set::empty()
    } else {
        fragments_of(lits.drop_last(), fragment_len).union(
            pattern_fragments(lits.last(), fragment_len).to_set(),
        )
    }
}

/// `r` is what literal extraction gives for `h`: `None` when no required part is at least
/// `MIN_FRAGMENT_LEN` long; otherwise the distinct fragment hashes of the kept parts (in
/// no stated order), the fragment length, whether the parts were folded, and whether
/// exactly one part was kept.
pub open spec fn hir_literals_result(h: Expr, r: Option<(Vec<u32>, usize, bool, bool)>) -> bool {
    let parts = req_spec(h, true);
    let fold = any_case_insensitive(parts);
    let lits = kept_literals(parts, fold);
    if lits.len() == 0 {
        r is None
    } else {
        r matches Some(t) && t.1 == capped_shortest(lits) && t.0@.no_duplicates() && t.0@.to_set()
            == fragments_of(lits, t.1 as int) && t.2 == fold && t.3 == (lits.len() == 1)
    }
}

pub(crate) proof fn lemma_capped_shortest(lits: Seq<Seq<u8>>)
    ensures
        capped_shortest(lits) <= 4,
        forall|i: int| 0 <= i < lits.len() ==> capped_shortest(lits) <= #[trigger] lits[i].len(),
        capped_shortest(lits) == 4 || exists|i: int|
            0 <= i < lits.len() && #[trigger] lits[i].len() == capped_shortest(lits),
    decreases lits.len(),
{
    if lits.len() > 0 {
        let p = lits.drop_last();
        lemma_capped_shortest(p);
        assert forall|i: int| 0 <= i < lits.len() implies capped_shortest(lits) <= #[trigger] lits[i].len() by {
            if i < p.len() {
                assert(lits[i] == p[i]);
            }
        }
        if capped_shortest(lits) != 4 && capped_shortest(lits) != lits.last().len() {
            let i = choose|i: int| 0 <= i < p.len() && #[trigger] p[i].len() == capped_shortest(p);
            assert(lits[i] == p[i]);
        }
    }
}

pub(crate) proof fn lemma_kept_long(parts: Seq<(Seq<u8>, bool)>, fold: bool)
    ensures
        forall|i: int| 0 <= i < kept_literals(parts, fold).len() ==> #[trigger] kept_literals(parts, fold)[i].len() >= MIN_FRAGMENT_LEN,
    decreases parts.len(),
{
    if parts.len() > 0 {
        lemma_kept_long(parts.drop_last(), fold);
        let prev = kept_literals(parts.drop_last(), fold);
        assert forall|i: int| 0 <= i < kept_literals(parts, fold).len() implies #[trigger] kept_literals(parts, fold)[i].len() >= MIN_FRAGMENT_LEN by {
            if i < prev.len() {
                assert(kept_literals(parts, fold)[i] == prev[i]);
            }
        }
    }
}

/// ASCII-lowercase every byte.
fn lowercase_bytes(b: &[u8]) -> (r: Vec<u8>)
    ensures
        r@ == lower_bytes(b@),
{
    let mut out: Vec<u8> = Vec::new();
    let mut i: usize = 0;
    while i < b.len()
        invariant
            i <= b@.len(),
            out@ == lower_bytes(b@.take(i as int)),
        decreases b@.len() - i,
    {
        out.push(ascii_lower(b[i]));
        assert(lower_bytes(b@.take(i + 1)) =~= lower_bytes(b@.take(i as int)).push(lower_byte(b@[i as int])));
        i = i + 1;
    }
    assert(b@.take(b@.len() as int) =~= b@);
    out
}

/// Fragment extraction from a parsed expression: the case-aware required parts
/// (lowercased, all of them, as soon as one is case-insensitive), those at least
/// `MIN_FRAGMENT_LEN` long, one fragment length for them all, and the union of their
/// fragment hashes. Gives the hashes, the fragment length, whether the parts were
/// folded, and whether a single part was kept; `None` when no part is long enough.
pub fn extract_hir_literals(hir: &Expr) -> (r: Option<(Vec<u32>, usize, bool, bool)>)
    ensures
        hir_literals_result(*hir, r),
{
    let literal_parts = required_literal_parts(hir);
    let ghost parts = req_spec(*hir, true);
    let mut needs_folding = false;
    let mut i: usize = 0;
    while i < literal_parts.len()
        invariant
            parts_view(literal_parts@) == parts,
            i <= literal_parts@.len(),
            needs_folding <==> exists|k: int| 0 <= k < i && (#[trigger] parts[k]).1,
        decreases literal_parts@.len() - i,
    {
        assert(parts[i as int] == literal_parts@[i as int]@);
        if literal_parts[i].case_insensitive {
            needs_folding = true;
        }
        i = i + 1;
    }
    let ghost fold = needs_folding;
    assert(fold == any_case_insensitive(parts));
    let mut kept: Vec<Vec<u8>> = Vec::new();
    i = 0;
    while i < literal_parts.len()
        invariant
            parts_view(literal_parts@) == parts,
            fold == needs_folding,
            i <= literal_parts@.len(),
            bytes_view(kept@) == kept_literals(parts.take(i as int), fold),
        decreases literal_parts@.len() - i,
    {
        assert(parts[i as int] == literal_parts@[i as int]@);
        assert(parts.take(i + 1).drop_last() =~= parts.take(i as int));
        let bytes = if needs_folding {
            lowercase_bytes(literal_parts[i].bytes.as_slice())
        } else {
            let mut copy: Vec<u8> = Vec::new();
            append_bytes(&mut copy, literal_parts[i].bytes.as_slice());
            copy
        };
        if bytes.len() >= MIN_FRAGMENT_LEN {
            let ghost before = bytes_view(kept@);
            kept.push(bytes);
            assert(bytes_view(kept@) =~= before.push(bytes@));
        }
        i = i + 1;
    }
    assert(parts.take(literal_parts@.len() as int) =~= parts);
    let ghost lits = kept_literals(parts, fold);
    if kept.len() == 0 {
        return None;
    }
    let mut views: Vec<&[u8]> = Vec::new();
    i = 0;
    while i < kept.len()
        invariant
            i <= kept@.len(),
            views@.len() == i,
            forall|k: int| 0 <= k < i ==> (#[trigger] views@[k])@ == kept@[k]@,
        decreases kept@.len() - i,
    {
        views.push(kept[i].as_slice());
        i = i + 1;
    }
    proof {
        lemma_kept_long(parts, fold);
        lemma_capped_shortest(lits);
        assert forall|k: int| 0 <= k < views@.len() implies #[trigger] views@[k]@.len() >= MIN_FRAGMENT_LEN by {
            assert(bytes_view(kept@)[k] == kept@[k]@);
        }
    }
    let fragment_len = match select_fragment_len(views.as_slice()) {
        Some(l) => l,
        None => {
            return None;
        },
    };
    proof {
        assert forall|k: int| 0 <= k < lits.len() implies fragment_len <= #[trigger] lits[k].len() by {
            assert(bytes_view(kept@)[k] == kept@[k]@);
            assert(views@[k]@ == kept@[k]@);
        }
        if fragment_len != 4 {
            let k = choose|k: int| 0 <= k < views@.len() && #[trigger] views@[k]@.len() == fragment_len;
            assert(bytes_view(kept@)[k] == kept@[k]@);
        }
        if capped_shortest(lits) != 4 {
            let k = choose|k: int| 0 <= k < lits.len() && #[trigger] lits[k].len() == capped_shortest(lits);
            assert(bytes_view(kept@)[k] == kept@[k]@);
            assert(views@[k]@ == kept@[k]@);
        }
        assert(fragment_len == capped_shortest(lits));
    }
    let mut all_fragments: IntSet<u32> = IntSet::default();
    i = 0;
    while i < kept.len()
        invariant
            bytes_view(kept@) == lits,
            1 <= fragment_len <= 4,
            i <= kept@.len(),
            all_fragments@ == fragments_of(lits.take(i as int), fragment_len as int),
        decreases kept@.len() - i,
    {
        let frags = extract_pattern_fragments_with_len(kept[i].as_slice(), fragment_len);
        assert(lits.take(i + 1).drop_last() =~= lits.take(i as int));
        assert(lits[i as int] == kept@[i as int]@);
        let ghost before = all_fragments@;
        let mut j: usize = 0;
        while j < frags.len()
            invariant
                j <= frags@.len(),
                all_fragments@ == before.union(frags@.take(j as int).to_set()),
            decreases frags@.len() - j,
        {
            fragment_set_insert(&mut all_fragments, frags[j]);
            assert(frags@.take(j + 1) =~= frags@.take(j as int).push(frags@[j as int]));
            assert(before.union(frags@.take(j + 1).to_set()) =~= before.union(
                frags@.take(j as int).to_set(),
            ).insert(frags@[j as int])) by {
                frags@.take(j as int).lemma_push_to_set_commute(frags@[j as int]);
            }
            j = j + 1;
        }
        assert(frags@.take(frags@.len() as int) =~= frags@);
        i = i + 1;
    }
    assert(lits.take(kept@.len() as int) =~= lits);
    let single_literal = kept.len() == 1;
    let fragments = fragment_set_into_vec(all_fragments);
    Some((fragments, fragment_len, needs_folding, single_literal))
}

/// Parses `pattern` (case-insensitive by default when asked) and extracts its fragments
/// as `extract_hir_literals` does; `None` when the pattern does not parse.
pub fn extract_regex_literals(pattern: &str, case_insensitive: bool) -> (r: Option<
    (Vec<u32>, usize, bool, bool),
>)
    ensures
        match parsed_regex(pattern@, case_insensitive) {
            Some(h) => hir_literals_result(h, r),
            None => r is None,
        },
{
    match parse_regex(pattern, case_insensitive) {
        Some(hir) => extract_hir_literals(&hir),
        None => None,
    }
}

} // verus!
