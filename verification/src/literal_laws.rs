//! What a regular expression matches, and the soundness of required-literal extraction:
//! every extracted part occurs in every string the expression matches.
use vstd::prelude::*;
use crate::fragments::{lower_byte, lower_bytes};
use crate::extractor::{
    Expr, ExprClass, req_spec, run_spec, run_seq_spec, case_fold_byte_spec, fold_pair_spec,
    concat_state, concat_spec, canon_part, is_canonical, alt_spec, alt_step, step_set, normalize_spec, sorted_spec, keep_first,
    strictly_sorted, common_substring_set, common_runs_before, maximal_common_at, common_run_at,
    common_suffix_len, repeat_spec, repeat_n, repeat_copies, is_ascii_letter,
    lemma_common_suffix_len_bound, required_literals_spec, exact_alternation_spec, literal_bytes_spec,
};

verus! {

/// `s` is one character (UTF-8 encoded) or one byte of the class.
pub open spec fn in_class(c: ExprClass, s: Seq<u8>) -> bool {
    match c {
        ExprClass::Unicode(r) => exists|k: int, ch: char|
            #![trigger r@[k], vstd::utf8::encode_utf8(seq![ch])]
            0 <= k < r@.len() && (r@[k].0 as u32) <= (ch as u32) && (ch as u32) <= (r@[k].1 as u32)
                && s == vstd::utf8::encode_utf8(seq![ch]),
        ExprClass::Bytes(r) => s.len() == 1 && exists|k: int|
            0 <= k < r@.len() && #[trigger] r@[k].0 <= s[0] && s[0] <= r@[k].1,
    }
}

/// `s` is matched by the expression. Assertions are taken to match the empty string
/// anywhere, which only adds strings: a claim about every match of this relation holds
/// of every real match.
pub open spec fn expr_matches(h: Expr, s: Seq<u8>) -> bool
    decreases h, 0nat,
{
    match h {
        Expr::Empty => s.len() == 0,
        Expr::Literal(b) => s == b@,
        Expr::Class(c) => in_class(c, s),
        Expr::Look => s.len() == 0,
        Expr::Repetition { min, max, sub } => exists|k: nat|
            #[trigger] count_in_range(min, max, k) && matches_rep(*sub, k, s),
        Expr::Capture(sub) => expr_matches(*sub, s),
        Expr::Concat(subs) => matches_seq(subs@, s),
        Expr::Alternation(subs) => exists|k: int| 0 <= k < subs@.len() && expr_matches(#[trigger] subs@[k], s),
    }
}

/// `s` is `k` consecutive matches of `sub`.
pub open spec fn matches_rep(sub: Expr, k: nat, s: Seq<u8>) -> bool
    decreases sub, k,
{
    if k == 0 {
        s.len() == 0
    } else {
        exists|i: int|
            0 <= i <= s.len() && expr_matches(sub, #[trigger] s.subrange(0, i)) && matches_rep(
                sub,
                (k - 1) as nat,
                s.subrange(i, s.len() as int),
            )
    }
}

/// `s` is a match of each expression of `subs`, one after the other.
pub open spec fn matches_seq(subs: Seq<Expr>, s: Seq<u8>) -> bool
    decreases subs, 0nat,
{
    if subs.len() == 0 {
        s.len() == 0
    } else {
        exists|i: int|
            0 <= i <= s.len() && matches_seq(subs.drop_last(), #[trigger] s.subrange(0, i)) && expr_matches(
                subs.last(),
                s.subrange(i, s.len() as int),
            )
    }
}

/// A repetition count allowed by `min` and `max`.
pub open spec fn count_in_range(min: u32, max: Option<u32>, k: nat) -> bool {
    min <= k && (max matches Some(m) ==> k <= m)
}

pub open spec fn is_substring(x: Seq<u8>, s: Seq<u8>) -> bool {
    exists|i: int| 0 <= i && i + x.len() <= s.len() && #[trigger] s.subrange(i, i + x.len()) == x
}

/// The part occurs in `s`: verbatim, or, for a case-insensitive part, after ASCII
/// lowercasing of both.
pub open spec fn part_in(s: Seq<u8>, p: (Seq<u8>, bool)) -> bool {
    if p.1 {
        is_substring(lower_bytes(p.0), lower_bytes(s))
    } else {
        is_substring(p.0, s)
    }
}

proof fn lemma_lower_concat(a: Seq<u8>, b: Seq<u8>)
    ensures
        lower_bytes(a + b) == lower_bytes(a) + lower_bytes(b),
{
    assert(lower_bytes(a + b) =~= lower_bytes(a) + lower_bytes(b));
}

pub(crate) proof fn lemma_lower_subrange(a: Seq<u8>, i: int, j: int)
    requires
        0 <= i <= j <= a.len(),
    ensures
        lower_bytes(a.subrange(i, j)) == lower_bytes(a).subrange(i, j),
{
    assert(lower_bytes(a.subrange(i, j)) =~= lower_bytes(a).subrange(i, j));
}

/// A substring of a slice of `s` is a substring of `s`.
proof fn lemma_substring_of_slice(x: Seq<u8>, s: Seq<u8>, lo: int, hi: int)
    requires
        0 <= lo <= hi <= s.len(),
        is_substring(x, s.subrange(lo, hi)),
    ensures
        is_substring(x, s),
{
    let t = s.subrange(lo, hi);
    let i = choose|i: int| 0 <= i && i + x.len() <= t.len() && #[trigger] t.subrange(i, i + x.len()) == x;
    assert(s.subrange(lo + i, lo + i + x.len()) =~= t.subrange(i, i + x.len()));
}

/// A substring of a substring is a substring.
proof fn lemma_substring_trans(x: Seq<u8>, y: Seq<u8>, s: Seq<u8>)
    requires
        is_substring(x, y),
        is_substring(y, s),
    ensures
        is_substring(x, s),
{
    let j = choose|j: int| 0 <= j && j + y.len() <= s.len() && #[trigger] s.subrange(j, j + y.len()) == y;
    lemma_substring_of_slice(x, s, j, j + y.len());
}

/// Lowercasing keeps substrings.
pub(crate) proof fn lemma_substring_lower(x: Seq<u8>, s: Seq<u8>)
    requires
        is_substring(x, s),
    ensures
        is_substring(lower_bytes(x), lower_bytes(s)),
{
    let i = choose|i: int| 0 <= i && i + x.len() <= s.len() && #[trigger] s.subrange(i, i + x.len()) == x;
    lemma_lower_subrange(s, i, i + x.len());
    assert(lower_bytes(s).subrange(i, i + lower_bytes(x).len()) == lower_bytes(x));
}

/// Lowercasing twice is lowercasing once.
pub(crate) proof fn lemma_lower_idempotent(a: Seq<u8>)
    ensures
        lower_bytes(lower_bytes(a)) == lower_bytes(a),
{
    assert(lower_bytes(lower_bytes(a)) =~= lower_bytes(a));
}

/// A part occurs wherever its emitted form does not lose it: lowercasing the bytes of a
/// case-insensitive part keeps where it occurs.
proof fn lemma_part_in_canon(s: Seq<u8>, p: (Seq<u8>, bool))
    requires
        part_in(s, p),
    ensures
        part_in(s, canon_part(p)),
{
    if p.1 {
        lemma_lower_idempotent(p.0);
    }
}

/// A part that occurs in a slice of `s` occurs in `s`.
proof fn lemma_part_in_slice(s: Seq<u8>, lo: int, hi: int, p: (Seq<u8>, bool))
    requires
        0 <= lo <= hi <= s.len(),
        part_in(s.subrange(lo, hi), p),
    ensures
        part_in(s, p),
{
    if p.1 {
        lemma_lower_subrange(s, lo, hi);
        lemma_substring_of_slice(lower_bytes(p.0), lower_bytes(s), lo, hi);
    } else {
        lemma_substring_of_slice(p.0, s, lo, hi);
    }
}

/// A part whose bytes are a substring of another part's bytes, with the same case
/// sensitivity, occurs wherever that other part does.
proof fn lemma_part_in_sub(s: Seq<u8>, x: Seq<u8>, p: (Seq<u8>, bool))
    requires
        part_in(s, p),
        is_substring(x, p.0),
    ensures
        part_in(s, (x, p.1)),
{
    if p.1 {
        lemma_substring_lower(x, p.0);
        lemma_substring_trans(lower_bytes(x), lower_bytes(p.0), lower_bytes(s));
    } else {
        lemma_substring_trans(x, p.0, s);
    }
}

/// How a matched string relates to the literal run it must equal: verbatim, or up to
/// ASCII case.
pub open spec fn run_rel(s: Seq<u8>, u: Seq<u8>, ci: bool) -> bool {
    if ci {
        lower_bytes(s) == lower_bytes(u)
    } else {
        s == u
    }
}

/// An ASCII character is encoded as its own byte.
proof fn lemma_encode_ascii(ch: char)
    requires
        (ch as u32) < 0x80,
    ensures
        vstd::utf8::encode_utf8(seq![ch]) == seq![ch as u32 as u8],
{
    vstd::utf8::is_ascii_chars_encode_utf8(seq![ch]);
    assert(vstd::utf8::encode_utf8(seq![ch]) =~= seq![ch as u32 as u8]);
}

/// A string in a class that is one ASCII case-fold pair is that letter, up to case.
proof fn lemma_fold_class(c: ExprClass, s: Seq<u8>, b: u8)
    requires
        case_fold_byte_spec(c) == Some(b),
        in_class(c, s),
    ensures
        run_rel(s, seq![b], true),
{
    match c {
        ExprClass::Unicode(r) => {
            let (k, ch) = choose|k: int, ch: char|
                #![trigger r@[k], vstd::utf8::encode_utf8(seq![ch])]
                0 <= k < r@.len() && (r@[k].0 as u32) <= (ch as u32) && (ch as u32) <= (
                r@[k].1 as u32) && s == vstd::utf8::encode_utf8(seq![ch]);
            lemma_encode_ascii(ch);
            assert(lower_bytes(s) =~= seq![lower_byte(ch as u32 as u8)]);
            assert(lower_bytes(seq![b]) =~= seq![lower_byte(b)]);
        },
        ExprClass::Bytes(r) => {
            let k = choose|k: int| 0 <= k < r@.len() && #[trigger] r@[k].0 <= s[0] && s[0] <= r@[k].1;
            assert(s =~= seq![s[0]]);
            assert(lower_bytes(s) =~= seq![lower_byte(s[0])]);
            assert(lower_bytes(seq![b]) =~= seq![lower_byte(b)]);
        },
    }
}

proof fn lemma_run_rel_concat(s1: Seq<u8>, u1: Seq<u8>, c1: bool, s2: Seq<u8>, u2: Seq<u8>, c2: bool)
    requires
        run_rel(s1, u1, c1),
        run_rel(s2, u2, c2),
    ensures
        run_rel(s1 + s2, u1 + u2, c1 || c2),
{
    lemma_lower_concat(s1, s2);
    lemma_lower_concat(u1, u2);
}

/// A string matched by an expression that reduces to a literal run is that run (up to
/// case, for a case-insensitive run).
pub proof fn lemma_run_sound(h: Expr, fold: bool, s: Seq<u8>)
    requires
        run_spec(h, fold) is Some,
        expr_matches(h, s),
    ensures
        run_rel(s, run_spec(h, fold).unwrap().0, run_spec(h, fold).unwrap().1),
    decreases h, 0nat,
{
    match h {
        Expr::Literal(b) => {},
        Expr::Class(c) => {
            lemma_fold_class(c, s, case_fold_byte_spec(c)->0);
        },
        Expr::Capture(sub) => {
            lemma_run_sound(*sub, fold, s);
        },
        Expr::Concat(subs) => {
            lemma_run_seq_sound(subs@, fold, s);
        },
        _ => {},
    }
}

proof fn lemma_run_seq_sound(subs: Seq<Expr>, fold: bool, s: Seq<u8>)
    requires
        run_seq_spec(subs, fold) is Some,
        matches_seq(subs, s),
    ensures
        run_rel(s, run_seq_spec(subs, fold).unwrap().0, run_seq_spec(subs, fold).unwrap().1),
    decreases subs, 0nat,
{
    if subs.len() == 0 {
        assert(s =~= Seq::<u8>::empty());
    } else {
        let i = choose|i: int|
            0 <= i <= s.len() && matches_seq(subs.drop_last(), #[trigger] s.subrange(0, i))
                && expr_matches(subs.last(), s.subrange(i, s.len() as int));
        lemma_run_seq_sound(subs.drop_last(), fold, s.subrange(0, i));
        lemma_run_sound(subs.last(), fold, s.subrange(i, s.len() as int));
        let a = run_seq_spec(subs.drop_last(), fold)->0;
        let b = run_spec(subs.last(), fold)->0;
        lemma_run_rel_concat(s.subrange(0, i), a.0, a.1, s.subrange(i, s.len() as int), b.0, b.1);
        assert(s.subrange(0, i) + s.subrange(i, s.len() as int) =~= s);
    }
}

proof fn lemma_run_rel_len(s: Seq<u8>, u: Seq<u8>, ci: bool)
    requires
        run_rel(s, u, ci),
    ensures
        s.len() == u.len(),
{
    if ci {
        assert(lower_bytes(s).len() == s.len());
        assert(lower_bytes(u).len() == u.len());
    }
}

/// `n` copies of `unit` are one copy followed by `n - 1` copies.
proof fn lemma_repeat_front(unit: Seq<u8>, n: nat)
    requires
        n >= 1,
    ensures
        repeat_n(unit, n) == unit + repeat_n(unit, (n - 1) as nat),
    decreases n,
{
    if n == 1 {
        assert(repeat_n(unit, 0) =~= Seq::<u8>::empty());
        assert(repeat_n(unit, 1) =~= unit + repeat_n(unit, 0));
    } else {
        lemma_repeat_front(unit, (n - 1) as nat);
        assert(repeat_n(unit, n) =~= unit + repeat_n(unit, (n - 1) as nat));
    }
}

/// `c` copies of a literal unit start every run of at least `c` matches of it.
proof fn lemma_repeat_prefix(sub: Expr, fold: bool, k: nat, s: Seq<u8>, c: nat)
    requires
        run_spec(sub, fold) is Some,
        matches_rep(sub, k, s),
        c <= k,
    ensures
        repeat_n(run_spec(sub, fold).unwrap().0, c).len() <= s.len(),
        run_rel(
            s.subrange(0, repeat_n(run_spec(sub, fold).unwrap().0, c).len() as int),
            repeat_n(run_spec(sub, fold).unwrap().0, c),
            run_spec(sub, fold).unwrap().1,
        ),
    decreases c,
{
    let u = run_spec(sub, fold).unwrap().0;
    let ci = run_spec(sub, fold).unwrap().1;
    if c == 0 {
        assert(repeat_n(u, 0) =~= Seq::<u8>::empty());
        assert(s.subrange(0, 0) =~= Seq::<u8>::empty());
        assert(lower_bytes(Seq::<u8>::empty()) =~= Seq::<u8>::empty());
    } else {
        let i = choose|i: int|
            0 <= i <= s.len() && expr_matches(sub, #[trigger] s.subrange(0, i)) && matches_rep(
                sub,
                (k - 1) as nat,
                s.subrange(i, s.len() as int),
            );
        let rest = s.subrange(i, s.len() as int);
        lemma_run_sound(sub, fold, s.subrange(0, i));
        lemma_run_rel_len(s.subrange(0, i), u, ci);
        lemma_repeat_prefix(sub, fold, (k - 1) as nat, rest, (c - 1) as nat);
        let r = repeat_n(u, (c - 1) as nat);
        lemma_repeat_front(u, c);
        lemma_run_rel_concat(s.subrange(0, i), u, ci, rest.subrange(0, r.len() as int), r, ci);
        assert(s.subrange(0, i) + rest.subrange(0, r.len() as int) =~= s.subrange(
            0,
            i + r.len(),
        ));
    }
}

/// The literal run being built while walking a concatenation ends the string matched
/// so far.
pub open spec fn ends_with_run(s: Seq<u8>, run: Seq<u8>, ci: bool) -> bool {
    run.len() <= s.len() && run_rel(s.subrange(s.len() - run.len(), s.len() as int), run, ci)
}

proof fn lemma_run_rel_part_in(s: Seq<u8>, lo: int, u: Seq<u8>, ci: bool)
    requires
        0 <= lo,
        lo + u.len() <= s.len(),
        run_rel(s.subrange(lo, lo + u.len()), u, ci),
    ensures
        part_in(s, (u, ci)),
{
    let t = s.subrange(lo, lo + u.len());
    if ci {
        lemma_lower_subrange(s, lo, lo + u.len());
        assert(lower_bytes(s).subrange(lo, lo + lower_bytes(u).len()) == lower_bytes(u));
    } else {
        assert(s.subrange(lo, lo + u.len()) == u);
    }
}

/// The walk of a concatenation is sound: every part emitted occurs in the matched
/// string, and the pending run ends it.
proof fn lemma_concat_state_sound(subs: Seq<Expr>, fold: bool, s: Seq<u8>)
    requires
        matches_seq(subs, s),
    ensures
        forall|k: int|
            0 <= k < concat_state(subs, fold).0.len() ==> part_in(
                s,
                #[trigger] concat_state(subs, fold).0[k],
            ),
        ends_with_run(s, concat_state(subs, fold).1, concat_state(subs, fold).2),
    decreases subs, 0nat,
{
    let st = concat_state(subs, fold);
    if subs.len() == 0 {
        assert(s =~= Seq::<u8>::empty());
        assert(s.subrange(0, 0) =~= Seq::<u8>::empty());
        assert(lower_bytes(Seq::<u8>::empty()) =~= Seq::<u8>::empty());
    } else {
        let i = choose|i: int|
            0 <= i <= s.len() && matches_seq(subs.drop_last(), #[trigger] s.subrange(0, i))
                && expr_matches(subs.last(), s.subrange(i, s.len() as int));
        let s1 = s.subrange(0, i);
        let s2 = s.subrange(i, s.len() as int);
        let prev = concat_state(subs.drop_last(), fold);
        lemma_concat_state_sound(subs.drop_last(), fold, s1);
        assert forall|k: int| 0 <= k < prev.0.len() implies part_in(s, #[trigger] prev.0[k]) by {
            lemma_part_in_slice(s, 0, i, prev.0[k]);
        }
        let rlen = prev.1.len() as int;
        assert(s1.subrange(i - rlen, i) =~= s.subrange(i - rlen, i));
        match run_spec(subs.last(), fold) {
            Some(r) => {
                lemma_run_sound(subs.last(), fold, s2);
                lemma_run_rel_len(s2, r.0, r.1);
                lemma_run_rel_concat(s.subrange(i - rlen, i), prev.1, prev.2, s2, r.0, r.1);
                assert(s.subrange(i - rlen, i) + s2 =~= s.subrange(
                    s.len() - (rlen + r.0.len()),
                    s.len() as int,
                ));
            },
            None => {
                if prev.1.len() > 0 {
                    lemma_run_rel_part_in(s, i - rlen, prev.1, prev.2);
                    lemma_part_in_canon(s, (prev.1, prev.2));
                }
                let flushed = if prev.1.len() > 0 {
                    prev.0.push(canon_part((prev.1, prev.2)))
                } else {
                    prev.0
                };
                let added = req_spec(subs.last(), fold);
                lemma_req_sound(subs.last(), fold, s2);
                assert forall|k: int| 0 <= k < st.0.len() implies part_in(s, #[trigger] st.0[k]) by {
                    assert(st.0 == flushed + added);
                    if k < flushed.len() {
                        assert(st.0[k] == flushed[k]);
                    } else {
                        assert(st.0[k] == added[k - flushed.len()]);
                        lemma_part_in_slice(s, i, s.len() as int, added[k - flushed.len()]);
                    }
                }
                assert(s.subrange(s.len() as int, s.len() as int) =~= Seq::<u8>::empty());
                assert(lower_bytes(Seq::<u8>::empty()) =~= Seq::<u8>::empty());
            },
        }
    }
}

/// A common run of two byte strings is a substring of both.
proof fn lemma_common_run_substring(a: Seq<u8>, b: Seq<u8>, i: int, j: int)
    requires
        1 <= i <= a.len(),
        1 <= j <= b.len(),
    ensures
        is_substring(common_run_at(a, b, i, j), a),
        is_substring(common_run_at(a, b, i, j), b),
    decreases i,
{
    let l = common_suffix_len(a, b, i, j) as int;
    lemma_common_suffix_len_bound(a, b, i, j);
    let x = common_run_at(a, b, i, j);
    assert(a.subrange(i - l, i - l + x.len()) == x);
    if l > 0 {
        if i > 1 && j > 1 {
            lemma_common_run_substring(a, b, i - 1, j - 1);
        }
        lemma_common_tail(a, b, i, j);
        assert(b.subrange(j - l, j - l + x.len()) == x);
    } else {
        assert(b.subrange(j, j) =~= x);
    }
}

proof fn lemma_common_tail(a: Seq<u8>, b: Seq<u8>, i: int, j: int)
    requires
        1 <= i <= a.len(),
        1 <= j <= b.len(),
    ensures
        a.subrange(i - common_suffix_len(a, b, i, j), i) == b.subrange(
            j - common_suffix_len(a, b, i, j),
            j,
        ),
    decreases i,
{
    let l = common_suffix_len(a, b, i, j) as int;
    lemma_common_suffix_len_bound(a, b, i, j);
    if l == 0 {
        assert(a.subrange(i, i) =~= b.subrange(j, j));
    } else {
        if i > 1 && j > 1 {
            lemma_common_tail(a, b, i - 1, j - 1);
            lemma_common_suffix_len_bound(a, b, i - 1, j - 1);
            assert(a.subrange(i - l, i) =~= a.subrange(i - l, i - 1).push(a[i - 1]));
            assert(b.subrange(j - l, j) =~= b.subrange(j - l, j - 1).push(b[j - 1]));
        } else {
            assert(common_suffix_len(a, b, i - 1, j - 1) == 0);
            assert(a.subrange(i - 1, i) =~= seq![a[i - 1]]);
            assert(b.subrange(j - 1, j) =~= seq![b[j - 1]]);
        }
    }
}

/// Every candidate of an alternation step is a common run of a candidate and a part
/// of the same case sensitivity.
proof fn lemma_alt_step_member(
    c: Seq<(Seq<u8>, bool)>,
    p: Seq<(Seq<u8>, bool)>,
    x: (Seq<u8>, bool),
)
    requires
        alt_step(c, p).contains(x),
    ensures
        exists|i: int, j: int|
            0 <= i < c.len() && 0 <= j < p.len() && #[trigger] c[i].1 == #[trigger] p[j].1 && x.1
                == c[i].1 && is_substring(x.0, c[i].0) && is_substring(x.0, p[j].0),
{
    let set = step_set(c, p);
    let by_len = set.len() > 32;
    let sorted = sorted_spec(set, by_len);
    if exists|s: Seq<(Seq<u8>, bool)>| strictly_sorted(s, by_len) && s.to_set() == set {
        assert(sorted.to_set() == set);
    }
    let k = choose|k: int| 0 <= k < alt_step(c, p).len() && alt_step(c, p)[k] == x;
    if by_len {
        assert(alt_step(c, p) == keep_first(sorted, 32));
        if sorted.len() > 32 {
            assert(sorted[k] == x);
        }
    }
    assert(sorted.contains(x));
    assert(set.contains(x));
    let (i, j) = choose|i: int, j: int|
        0 <= i < c.len() && 0 <= j < p.len() && #[trigger] c[i].1 == #[trigger] p[j].1 && x.1
            == c[i].1 && common_substring_set(c[i].0, p[j].0, 2).contains(x.0);
    let a = c[i].0;
    let b = p[j].0;
    let (i2, j2) = choose|i2: int, j2: int|
        (i2 < a.len() + 1 || (i2 == a.len() + 1 && j2 < 0)) && #[trigger] maximal_common_at(
            a,
            b,
            2,
            i2,
            j2,
        ) && x.0 == common_run_at(a, b, i2, j2);
    lemma_common_run_substring(a, b, i2, j2);
}

/// Soundness of an alternation's parts: each occurs in every string matched by any of
/// its branches.
proof fn lemma_alt_sound(subs: Seq<Expr>, fold: bool)
    ensures
        forall|k: int, b: int, t: Seq<u8>|
            0 <= k < alt_spec(subs, fold).len() && 0 <= b < subs.len() && #[trigger] expr_matches(
                subs[b],
                t,
            ) ==> part_in(t, #[trigger] alt_spec(subs, fold)[k]),
    decreases subs, 0nat,
{
    if subs.len() == 1 {
        assert forall|k: int, b: int, t: Seq<u8>|
            0 <= k < alt_spec(subs, fold).len() && 0 <= b < subs.len() && #[trigger] expr_matches(
                subs[b],
                t,
            ) implies part_in(t, #[trigger] alt_spec(subs, fold)[k]) by {
            lemma_req_sound(subs[0], fold, t);
        }
    } else if subs.len() > 1 {
        let prev = subs.drop_last();
        lemma_alt_sound(prev, fold);
        let c = alt_spec(prev, fold);
        let p = req_spec(subs.last(), fold);
        assert forall|k: int, b: int, t: Seq<u8>|
            0 <= k < alt_spec(subs, fold).len() && 0 <= b < subs.len() && #[trigger] expr_matches(
                subs[b],
                t,
            ) implies part_in(t, #[trigger] alt_spec(subs, fold)[k]) by {
            let x = alt_spec(subs, fold)[k];
            assert(alt_step(c, p).contains(x));
            lemma_alt_step_member(c, p, x);
            let (i, j) = choose|i: int, j: int|
                0 <= i < c.len() && 0 <= j < p.len() && #[trigger] c[i].1 == #[trigger] p[j].1
                    && x.1 == c[i].1 && is_substring(x.0, c[i].0) && is_substring(x.0, p[j].0);
            if b < subs.len() - 1 {
                assert(prev[b] == subs[b]);
                assert(expr_matches(prev[b], t));
                assert(part_in(t, c[i]));
                lemma_part_in_sub(t, x.0, c[i]);
            } else {
                lemma_req_sound(subs.last(), fold, t);
                assert(part_in(t, p[j]));
                lemma_part_in_sub(t, x.0, p[j]);
            }
        }
    }
}

/// Soundness of required-part extraction: every part extracted from an expression
/// occurs in every string the expression matches (verbatim, or up to ASCII case for a
/// case-insensitive part).
pub proof fn lemma_req_sound(h: Expr, fold: bool, s: Seq<u8>)
    requires
        expr_matches(h, s),
    ensures
        forall|k: int| 0 <= k < req_spec(h, fold).len() ==> part_in(s, #[trigger] req_spec(h, fold)[k]),
    decreases h, 0nat,
{
    match h {
        Expr::Literal(b) => {
            assert(req_spec(h, fold) == seq![(b@, false)]);
            assert(s.subrange(0, 0 + s.len() as int) =~= s);
            assert(is_substring(s, s));
            assert forall|k: int| 0 <= k < req_spec(h, fold).len() implies part_in(
                s,
                #[trigger] req_spec(h, fold)[k],
            ) by {
                assert(k == 0);
                assert(req_spec(h, fold)[k] == (s, false));
            }
        },
        Expr::Class(c) => {
            if fold {
                match case_fold_byte_spec(c) {
                    Some(b) => {
                        lemma_fold_class(c, s, b);
                        lemma_run_rel_len(s, seq![b], true);
                        assert(s.subrange(0, s.len() as int) =~= s);
                        lemma_run_rel_part_in(s, 0, seq![b], true);
                        assert(req_spec(h, fold) == seq![(seq![b], true)]);
                        assert forall|k: int| 0 <= k < req_spec(h, fold).len() implies part_in(
                            s,
                            #[trigger] req_spec(h, fold)[k],
                        ) by {
                            assert(req_spec(h, fold)[k] == (seq![b], true));
                        }
                    },
                    None => {},
                }
            }
        },
        Expr::Repetition { min, max, sub } => {
            if min != 0 {
                let k = choose|k: nat| #[trigger] count_in_range(min, max, k) && matches_rep(*sub, k, s);
                match run_spec(*sub, fold) {
                    Some(u) => {
                        let copies = repeat_copies(u.0.len() as int, min);
                        if u.0.len() > 0 {
                            lemma_repeat_prefix(*sub, fold, k, s, copies);
                            lemma_run_rel_part_in(s, 0, repeat_n(u.0, copies), u.1);
                            lemma_part_in_canon(s, (repeat_spec(u.0, min), u.1));
                            assert(req_spec(h, fold) == seq![canon_part((repeat_spec(u.0, min), u.1))]);
                            assert forall|j: int| 0 <= j < req_spec(h, fold).len() implies part_in(
                                s,
                                #[trigger] req_spec(h, fold)[j],
                            ) by {
                                assert(req_spec(h, fold)[j] == canon_part((repeat_spec(u.0, min), u.1)));
                            }
                        } else {
                            assert(s.subrange(0, 0) =~= Seq::<u8>::empty());
                            assert(lower_bytes(Seq::<u8>::empty()) =~= Seq::<u8>::empty());
                            assert(lower_bytes(s).subrange(0, 0) =~= Seq::<u8>::empty());
                            assert(canon_part((Seq::<u8>::empty(), u.1)) == (Seq::<u8>::empty(), u.1));
                            assert(req_spec(h, fold) == seq![(Seq::<u8>::empty(), u.1)]);
                            assert forall|j: int| 0 <= j < req_spec(h, fold).len() implies part_in(
                                s,
                                #[trigger] req_spec(h, fold)[j],
                            ) by {
                                assert(req_spec(h, fold)[j] == (Seq::<u8>::empty(), u.1));
                                assert(s.subrange(0, 0 + Seq::<u8>::empty().len() as int) =~= Seq::<u8>::empty());
                                assert(lower_bytes(s).subrange(0, 0 + lower_bytes(Seq::<u8>::empty()).len() as int)
                                    =~= lower_bytes(Seq::<u8>::empty()));
                            }
                        }
                    },
                    None => {
                        let i = choose|i: int|
                            0 <= i <= s.len() && expr_matches(*sub, #[trigger] s.subrange(0, i))
                                && matches_rep(*sub, (k - 1) as nat, s.subrange(i, s.len() as int));
                        lemma_req_sound(*sub, fold, s.subrange(0, i));
                        assert(req_spec(h, fold) == req_spec(*sub, fold));
                        assert forall|j: int| 0 <= j < req_spec(h, fold).len() implies part_in(
                            s,
                            #[trigger] req_spec(h, fold)[j],
                        ) by {
                            lemma_part_in_slice(s, 0, i, req_spec(h, fold)[j]);
                        }
                    },
                }
            }
        },
        Expr::Capture(sub) => {
            lemma_req_sound(*sub, fold, s);
            assert(req_spec(h, fold) == req_spec(*sub, fold));
            assert(forall|k: int| 0 <= k < req_spec(h, fold).len() ==> part_in(s, #[trigger] req_spec(h, fold)[k]));
        },
        Expr::Concat(subs) => {
            lemma_concat_state_sound(subs@, fold, s);
            let st = concat_state(subs@, fold);
            assert(req_spec(h, fold) == concat_spec(subs@, fold));
            if st.1.len() > 0 {
                lemma_run_rel_part_in(s, s.len() - st.1.len(), st.1, st.2);
                lemma_part_in_canon(s, (st.1, st.2));
                assert(s.subrange(s.len() - st.1.len(), s.len() - st.1.len() + st.1.len())
                    == s.subrange(s.len() - st.1.len(), s.len() as int));
            }
            assert forall|k: int| 0 <= k < req_spec(h, fold).len() implies part_in(
                s,
                #[trigger] req_spec(h, fold)[k],
            ) by {
                if k < st.0.len() {
                    assert(req_spec(h, fold)[k] == st.0[k]);
                }
            }
        },
        Expr::Alternation(subs) => {
            lemma_alt_sound(subs@, fold);
            let b = choose|b: int| 0 <= b < subs@.len() && expr_matches(#[trigger] subs@[b], s);
            assert(expr_matches(subs@[b], s));
            assert(req_spec(h, fold) == alt_spec(subs@, fold));
            assert(forall|k: int| 0 <= k < req_spec(h, fold).len() ==> part_in(s, #[trigger] req_spec(h, fold)[k]));
        },
        _ => {
            assert(forall|k: int| 0 <= k < req_spec(h, fold).len() ==> part_in(s, #[trigger] req_spec(h, fold)[k]));
        },
    }
}

/// Without case folding, every literal run is case-sensitive.
proof fn lemma_run_sensitive(h: Expr)
    ensures
        run_spec(h, false) matches Some(u) ==> !u.1,
    decreases h, 1nat,
{
    match h {
        Expr::Capture(sub) => lemma_run_sensitive(*sub),
        Expr::Concat(subs) => lemma_run_seq_sensitive(subs@),
        _ => {},
    }
}

proof fn lemma_run_seq_sensitive(subs: Seq<Expr>)
    ensures
        run_seq_spec(subs, false) matches Some(u) ==> !u.1,
    decreases subs, 0nat,
{
    if subs.len() > 0 {
        lemma_run_seq_sensitive(subs.drop_last());
        lemma_run_sensitive(subs.last());
    }
}

/// Without case folding, every required part is case-sensitive.
proof fn lemma_req_sensitive(h: Expr)
    ensures
        forall|k: int| 0 <= k < req_spec(h, false).len() ==> !(#[trigger] req_spec(h, false)[k]).1,
    decreases h, 2nat,
{
    match h {
        Expr::Repetition { min, max, sub } => {
            lemma_run_sensitive(*sub);
            lemma_req_sensitive(*sub);
            if min != 0 {
                match run_spec(*sub, false) {
                    Some(u) => {
                        assert forall|k: int| 0 <= k < req_spec(h, false).len() implies !(
                        #[trigger] req_spec(h, false)[k]).1 by {
                            assert(req_spec(h, false)[k] == (repeat_spec(u.0, min), u.1));
                        }
                    },
                    None => {
                        assert(req_spec(h, false) == req_spec(*sub, false));
                    },
                }
            }
        },
        Expr::Capture(sub) => {
            lemma_req_sensitive(*sub);
            assert(req_spec(h, false) == req_spec(*sub, false));
        },
        Expr::Concat(subs) => {
            lemma_concat_sensitive(subs@);
            let st = concat_state(subs@, false);
            assert(req_spec(h, false) == concat_spec(subs@, false));
            assert forall|k: int| 0 <= k < req_spec(h, false).len() implies !(
            #[trigger] req_spec(h, false)[k]).1 by {
                if k < st.0.len() {
                    assert(req_spec(h, false)[k] == st.0[k]);
                }
            }
        },
        Expr::Alternation(subs) => {
            lemma_alt_sensitive(subs@);
            assert(req_spec(h, false) == alt_spec(subs@, false));
        },
        Expr::Literal(b) => {
            assert forall|k: int| 0 <= k < req_spec(h, false).len() implies !(
            #[trigger] req_spec(h, false)[k]).1 by {
                assert(req_spec(h, false)[k] == (b@, false));
            }
        },
        _ => {},
    }
}

proof fn lemma_concat_sensitive(subs: Seq<Expr>)
    ensures
        forall|k: int|
            0 <= k < concat_state(subs, false).0.len() ==> !(#[trigger] concat_state(
                subs,
                false,
            ).0[k]).1,
        !concat_state(subs, false).2,
    decreases subs, 1nat,
{
    if subs.len() > 0 {
        let prev = concat_state(subs.drop_last(), false);
        let st = concat_state(subs, false);
        lemma_concat_sensitive(subs.drop_last());
        lemma_run_sensitive(subs.last());
        match run_spec(subs.last(), false) {
            Some(r) => {},
            None => {
                lemma_req_sensitive(subs.last());
                let flushed = if prev.1.len() > 0 {
                    prev.0.push((prev.1, prev.2))
                } else {
                    prev.0
                };
                let added = req_spec(subs.last(), false);
                assert forall|k: int| 0 <= k < st.0.len() implies !(#[trigger] st.0[k]).1 by {
                    assert(st.0 == flushed + added);
                    if k < flushed.len() {
                        assert(st.0[k] == flushed[k]);
                    } else {
                        assert(st.0[k] == added[k - flushed.len()]);
                    }
                }
            },
        }
    }
}

proof fn lemma_alt_sensitive(subs: Seq<Expr>)
    ensures
        forall|k: int| 0 <= k < alt_spec(subs, false).len() ==> !(#[trigger] alt_spec(subs, false)[k]).1,
    decreases subs, 1nat,
{
    if subs.len() == 1 {
        lemma_req_sensitive(subs[0]);
        assert(alt_spec(subs, false) == req_spec(subs[0], false));
    } else if subs.len() > 1 {
        let c = alt_spec(subs.drop_last(), false);
        let p = req_spec(subs.last(), false);
        lemma_alt_sensitive(subs.drop_last());
        assert forall|k: int| 0 <= k < alt_spec(subs, false).len() implies !(#[trigger] alt_spec(
            subs,
            false,
        )[k]).1 by {
            let x = alt_spec(subs, false)[k];
            assert(alt_spec(subs, false) == alt_step(c, p));
            assert(alt_step(c, p).contains(x));
            lemma_alt_step_member(c, p, x);
            let (i, j) = choose|i: int, j: int|
                0 <= i < c.len() && 0 <= j < p.len() && #[trigger] c[i].1 == #[trigger] p[j].1
                    && x.1 == c[i].1 && is_substring(x.0, c[i].0) && is_substring(x.0, p[j].0);
            assert(!c[i].1);
        }
    }
}

/// A substring of an ASCII-lowercase string is ASCII-lowercase.
proof fn lemma_substring_canonical(x: Seq<u8>, a: Seq<u8>)
    requires
        is_substring(x, a),
        a == lower_bytes(a),
    ensures
        x == lower_bytes(x),
{
    let i = choose|i: int| 0 <= i && i + x.len() <= a.len() && #[trigger] a.subrange(i, i + x.len()) == x;
    lemma_lower_subrange(a, i, i + x.len());
}

/// Every extracted part is in its emitted form: the bytes of a case-insensitive part
/// are ASCII-lowercase.
pub proof fn lemma_req_canonical(h: Expr, fold: bool)
    ensures
        forall|k: int| 0 <= k < req_spec(h, fold).len() ==> is_canonical(#[trigger] req_spec(h, fold)[k]),
    decreases h, 2nat,
{
    match h {
        Expr::Class(c) => {
            if fold {
                match case_fold_byte_spec(c) {
                    Some(b) => {
                        assert(lower_byte(b) == b);
                        assert(lower_bytes(seq![b]) =~= seq![b]);
                        assert forall|k: int| 0 <= k < req_spec(h, fold).len() implies is_canonical(
                            #[trigger] req_spec(h, fold)[k],
                        ) by {
                            assert(req_spec(h, fold)[k] == (seq![b], true));
                        }
                    },
                    None => {},
                }
            }
        },
        Expr::Repetition { min, max, sub } => {
            lemma_req_canonical(*sub, fold);
            if min != 0 {
                match run_spec(*sub, fold) {
                    Some(u) => {
                        lemma_lower_idempotent(repeat_spec(u.0, min));
                        assert forall|k: int| 0 <= k < req_spec(h, fold).len() implies is_canonical(
                            #[trigger] req_spec(h, fold)[k],
                        ) by {
                            assert(req_spec(h, fold)[k] == canon_part((repeat_spec(u.0, min), u.1)));
                        }
                    },
                    None => {
                        assert(req_spec(h, fold) == req_spec(*sub, fold));
                    },
                }
            }
        },
        Expr::Capture(sub) => {
            lemma_req_canonical(*sub, fold);
            assert(req_spec(h, fold) == req_spec(*sub, fold));
        },
        Expr::Concat(subs) => {
            lemma_concat_canonical(subs@, fold);
            let st = concat_state(subs@, fold);
            lemma_lower_idempotent(st.1);
            assert(req_spec(h, fold) == concat_spec(subs@, fold));
            assert forall|k: int| 0 <= k < req_spec(h, fold).len() implies is_canonical(
                #[trigger] req_spec(h, fold)[k],
            ) by {
                if k < st.0.len() {
                    assert(req_spec(h, fold)[k] == st.0[k]);
                } else {
                    assert(req_spec(h, fold)[k] == canon_part((st.1, st.2)));
                }
            }
        },
        Expr::Alternation(subs) => {
            lemma_alt_canonical(subs@, fold);
            assert(req_spec(h, fold) == alt_spec(subs@, fold));
        },
        Expr::Literal(b) => {
            assert forall|k: int| 0 <= k < req_spec(h, fold).len() implies is_canonical(
                #[trigger] req_spec(h, fold)[k],
            ) by {
                assert(req_spec(h, fold)[k] == (b@, false));
            }
        },
        _ => {},
    }
}

proof fn lemma_concat_canonical(subs: Seq<Expr>, fold: bool)
    ensures
        forall|k: int|
            0 <= k < concat_state(subs, fold).0.len() ==> is_canonical(
                #[trigger] concat_state(subs, fold).0[k],
            ),
    decreases subs, 1nat,
{
    if subs.len() > 0 {
        let prev = concat_state(subs.drop_last(), fold);
        let st = concat_state(subs, fold);
        lemma_concat_canonical(subs.drop_last(), fold);
        match run_spec(subs.last(), fold) {
            Some(r) => {},
            None => {
                lemma_req_canonical(subs.last(), fold);
                lemma_lower_idempotent(prev.1);
                let flushed = if prev.1.len() > 0 {
                    prev.0.push(canon_part((prev.1, prev.2)))
                } else {
                    prev.0
                };
                let added = req_spec(subs.last(), fold);
                assert forall|k: int| 0 <= k < st.0.len() implies is_canonical(#[trigger] st.0[k]) by {
                    assert(st.0 == flushed + added);
                    if k < flushed.len() {
                        assert(st.0[k] == flushed[k]);
                    } else {
                        assert(st.0[k] == added[k - flushed.len()]);
                    }
                }
            },
        }
    }
}

proof fn lemma_alt_canonical(subs: Seq<Expr>, fold: bool)
    ensures
        forall|k: int| 0 <= k < alt_spec(subs, fold).len() ==> is_canonical(#[trigger] alt_spec(subs, fold)[k]),
    decreases subs, 1nat,
{
    if subs.len() == 1 {
        lemma_req_canonical(subs[0], fold);
        assert(alt_spec(subs, fold) == req_spec(subs[0], fold));
    } else if subs.len() > 1 {
        let c = alt_spec(subs.drop_last(), fold);
        let p = req_spec(subs.last(), fold);
        lemma_alt_canonical(subs.drop_last(), fold);
        assert forall|k: int| 0 <= k < alt_spec(subs, fold).len() implies is_canonical(
            #[trigger] alt_spec(subs, fold)[k],
        ) by {
            let x = alt_spec(subs, fold)[k];
            assert(alt_spec(subs, fold) == alt_step(c, p));
            assert(alt_step(c, p).contains(x));
            lemma_alt_step_member(c, p, x);
            let (i, j) = choose|i: int, j: int|
                0 <= i < c.len() && 0 <= j < p.len() && #[trigger] c[i].1 == #[trigger] p[j].1
                    && x.1 == c[i].1 && is_substring(x.0, c[i].0) && is_substring(x.0, p[j].0);
            assert(is_canonical(c[i]));
            if x.1 {
                lemma_substring_canonical(x.0, c[i].0);
            }
        }
    }
}

/// Soundness of `required_literals`: each byte string it gives for an expression
/// occurs, verbatim, in every string the expression matches.
pub proof fn lemma_required_literals_sound(h: Expr, s: Seq<u8>)
    requires
        expr_matches(h, s),
    ensures
        forall|k: int|
            0 <= k < required_literals_spec(h).len() ==> is_substring(
                #[trigger] required_literals_spec(h)[k],
                s,
            ),
{
    lemma_req_sound(h, false, s);
    lemma_req_sensitive(h);
    assert forall|k: int| 0 <= k < required_literals_spec(h).len() implies is_substring(
        #[trigger] required_literals_spec(h)[k],
        s,
    ) by {
        assert(part_in(s, req_spec(h, false)[k]));
        assert(!req_spec(h, false)[k].1);
    }
}

/// Soundness of `required_literal_parts`: each part it gives for an expression occurs in
/// every string the expression matches, verbatim for a case-sensitive part and up to
/// ASCII case for a case-insensitive one.
pub proof fn lemma_required_literal_parts_sound(h: Expr, s: Seq<u8>)
    requires
        expr_matches(h, s),
    ensures
        forall|k: int| 0 <= k < req_spec(h, true).len() ==> part_in(s, #[trigger] req_spec(h, true)[k]),
{
    lemma_req_sound(h, true, s);
}

/// An expression that is exactly a literal run (without case folding) matches that run.
proof fn lemma_run_complete(h: Expr)
    requires
        run_spec(h, false) is Some,
    ensures
        expr_matches(h, run_spec(h, false).unwrap().0),
    decreases h, 1nat,
{
    match h {
        Expr::Capture(sub) => lemma_run_complete(*sub),
        Expr::Concat(subs) => lemma_run_seq_complete(subs@),
        _ => {},
    }
}

proof fn lemma_run_seq_complete(subs: Seq<Expr>)
    requires
        run_seq_spec(subs, false) is Some,
    ensures
        matches_seq(subs, run_seq_spec(subs, false).unwrap().0),
    decreases subs, 0nat,
{
    if subs.len() == 0 {
        assert(run_seq_spec(subs, false).unwrap().0.len() == 0);
    } else {
        let a = run_seq_spec(subs.drop_last(), false).unwrap().0;
        let b = run_spec(subs.last(), false).unwrap().0;
        let s = a + b;
        lemma_run_seq_complete(subs.drop_last());
        lemma_run_complete(subs.last());
        assert(s.subrange(0, a.len() as int) =~= a);
        assert(s.subrange(a.len() as int, s.len() as int) =~= b);
        assert(matches_seq(subs.drop_last(), s.subrange(0, a.len() as int)));
    }
}

/// An expression that `as_exact_alternation` accepts matches exactly its literals: a
/// string is a match of it if and only if it is one of them.
pub proof fn lemma_exact_alternation_is_exact(h: Expr, s: Seq<u8>)
    requires
        exact_alternation_spec(h) is Some,
    ensures
        expr_matches(h, s) <==> exact_alternation_spec(h).unwrap().contains(s),
    decreases h,
{
    match h {
        Expr::Capture(sub) => lemma_exact_alternation_is_exact(*sub, s),
        Expr::Alternation(subs) => {
            let lits = exact_alternation_spec(h).unwrap();
            assert(lits == subs@.map_values(|x: Expr| literal_bytes_spec(x).unwrap()));
            if expr_matches(h, s) {
                let k = choose|k: int| 0 <= k < subs@.len() && expr_matches(#[trigger] subs@[k], s);
                assert(literal_bytes_spec(subs@[k]) is Some);
                lemma_run_sensitive(subs@[k]);
                lemma_run_sound(subs@[k], false, s);
                assert(lits[k] == s);
            }
            if lits.contains(s) {
                let k = choose|k: int| 0 <= k < lits.len() && lits[k] == s;
                assert(literal_bytes_spec(subs@[k]) is Some);
                lemma_run_complete(subs@[k]);
                assert(expr_matches(subs@[k], s));
            }
        },
        _ => {},
    }
}

/// Some class in the expression is an ASCII case-fold pair (as `(?i)` makes them).
pub open spec fn has_fold_class(h: Expr) -> bool
    decreases h, 1nat,
{
    match h {
        Expr::Class(c) => case_fold_byte_spec(c) is Some,
        Expr::Repetition { sub, .. } => has_fold_class(*sub),
        Expr::Capture(sub) => has_fold_class(*sub),
        Expr::Concat(subs) => any_fold_class(subs@),
        Expr::Alternation(subs) => any_fold_class(subs@),
        _ => false,
    }
}

pub open spec fn any_fold_class(subs: Seq<Expr>) -> bool
    decreases subs, 0nat,
{
    if subs.len() == 0 {
        false
    } else {
        any_fold_class(subs.drop_last()) || has_fold_class(subs.last())
    }
}

proof fn lemma_run_same_without_fold(h: Expr)
    requires
        !has_fold_class(h),
    ensures
        run_spec(h, true) == run_spec(h, false),
    decreases h, 1nat,
{
    match h {
        Expr::Capture(sub) => lemma_run_same_without_fold(*sub),
        Expr::Concat(subs) => lemma_run_seq_same_without_fold(subs@),
        _ => {},
    }
}

proof fn lemma_run_seq_same_without_fold(subs: Seq<Expr>)
    requires
        !any_fold_class(subs),
    ensures
        run_seq_spec(subs, true) == run_seq_spec(subs, false),
    decreases subs, 0nat,
{
    if subs.len() > 0 {
        lemma_run_seq_same_without_fold(subs.drop_last());
        lemma_run_same_without_fold(subs.last());
    }
}

proof fn lemma_req_same_without_fold(h: Expr)
    requires
        !has_fold_class(h),
    ensures
        req_spec(h, true) == req_spec(h, false),
    decreases h, 2nat,
{
    match h {
        Expr::Repetition { min, max, sub } => {
            lemma_run_same_without_fold(*sub);
            lemma_req_same_without_fold(*sub);
        },
        Expr::Capture(sub) => lemma_req_same_without_fold(*sub),
        Expr::Concat(subs) => lemma_concat_same_without_fold(subs@),
        Expr::Alternation(subs) => lemma_alt_same_without_fold(subs@),
        _ => {},
    }
}

proof fn lemma_concat_same_without_fold(subs: Seq<Expr>)
    requires
        !any_fold_class(subs),
    ensures
        concat_state(subs, true) == concat_state(subs, false),
        concat_spec(subs, true) == concat_spec(subs, false),
    decreases subs, 1nat,
{
    if subs.len() > 0 {
        lemma_concat_same_without_fold(subs.drop_last());
        lemma_run_same_without_fold(subs.last());
        lemma_req_same_without_fold(subs.last());
    }
}

proof fn lemma_alt_same_without_fold(subs: Seq<Expr>)
    requires
        !any_fold_class(subs),
    ensures
        alt_spec(subs, true) == alt_spec(subs, false),
    decreases subs, 1nat,
{
    if subs.len() == 1 {
        assert(subs.drop_last().len() == 0);
        assert(subs.last() == subs[0]);
        lemma_req_same_without_fold(subs[0]);
    } else if subs.len() > 1 {
        lemma_alt_same_without_fold(subs.drop_last());
        lemma_req_same_without_fold(subs.last());
    }
}

/// Without case-insensitivity anywhere in the expression, the case-aware extraction is
/// the plain one: the same byte strings, all case-sensitive.
pub proof fn lemma_parts_without_folding(h: Expr)
    requires
        !has_fold_class(h),
    ensures
        req_spec(h, true) == req_spec(h, false),
        forall|k: int| 0 <= k < req_spec(h, true).len() ==> !(#[trigger] req_spec(h, true)[k]).1,
        req_spec(h, true).map_values(|p: (Seq<u8>, bool)| p.0) == required_literals_spec(h),
{
    lemma_req_same_without_fold(h);
    lemma_req_sensitive(h);
}

/// A capturing group is transparent to extraction: the parts required by a group, and
/// the literal run it reduces to, are those of the expression inside it.
pub proof fn lemma_capture_transparent(e: Expr, fold: bool)
    ensures
        req_spec(Expr::Capture(Box::new(e)), fold) == req_spec(e, fold),
        run_spec(Expr::Capture(Box::new(e)), fold) == run_spec(e, fold),
        required_literals_spec(Expr::Capture(Box::new(e))) == required_literals_spec(e),
{
}

/// Walking a concatenation all of whose children reduce to literal runs emits no part
/// and builds their concatenated run.
proof fn lemma_concat_state_of_run(subs: Seq<Expr>, fold: bool)
    requires
        run_seq_spec(subs, fold) is Some,
    ensures
        concat_state(subs, fold) == (
            Seq::<(Seq<u8>, bool)>::empty(),
            run_seq_spec(subs, fold).unwrap().0,
            run_seq_spec(subs, fold).unwrap().1,
        ),
    decreases subs.len(),
{
    if subs.len() > 0 {
        lemma_concat_state_of_run(subs.drop_last(), fold);
    } else {
        assert(run_seq_spec(subs, fold).unwrap().0 =~= Seq::<u8>::empty());
    }
}

/// An expression that is exactly one non-empty byte string (a literal, through capture
/// groups and concatenations of such) requires exactly that string, once.
pub proof fn lemma_exact_literal_required(h: Expr, s: Seq<u8>)
    requires
        literal_bytes_spec(h) == Some(s),
        s.len() > 0,
    ensures
        req_spec(h, false) == seq![(s, false)],
        required_literals_spec(h) == seq![s],
    decreases h,
{
    lemma_run_sensitive(h);
    match h {
        Expr::Literal(b) => {},
        Expr::Capture(sub) => {
            lemma_exact_literal_required(*sub, s);
        },
        Expr::Concat(subs) => {
            lemma_concat_state_of_run(subs@, false);
            assert(concat_spec(subs@, false) == seq![canon_part((s, false))]);
        },
        _ => {},
    }
    assert(required_literals_spec(h) =~= seq![s]);
}

} // verus!
