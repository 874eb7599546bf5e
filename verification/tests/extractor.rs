use rawgrep::extractor::{
    as_exact_alternation, ascii_case_fold_byte, extract_hir_literals, extract_regex_literals, literal_bytes,
    repeat_bytes, required_literal_parts, required_literals, Expr, ExprClass, LiteralPart,
    MAX_REPEATED_LITERAL_BYTES,
};
use rawgrep::fragments::extract_pattern_fragments_with_len;
use std::collections::HashSet;

fn lit(s: &str) -> Expr {
    Expr::Literal(s.as_bytes().to_vec())
}

fn any_byte() -> Expr {
    Expr::Class(ExprClass::Bytes(vec![(0, 255)]))
}

fn fold(upper: char, lower: char) -> Expr {
    Expr::Class(ExprClass::Unicode(vec![(upper, upper), (lower, lower)]))
}

fn bytes_of(v: &[&str]) -> Vec<Vec<u8>> {
    v.iter().map(|s| s.as_bytes().to_vec()).collect()
}

fn parts_of(v: &[LiteralPart]) -> Vec<(String, bool)> {
    v.iter().map(|p| (String::from_utf8(p.bytes.clone()).unwrap(), p.case_insensitive)).collect()
}

fn fragment_set(parts: &[&[u8]], fragment_len: usize) -> HashSet<u32> {
    let mut all = HashSet::new();
    for p in parts {
        all.extend(extract_pattern_fragments_with_len(p, fragment_len));
    }
    all
}

#[test]
fn literal_is_required_verbatim() {
    assert_eq!(required_literals(&lit("foo")), bytes_of(&["foo"]));
}

#[test]
fn concat_merges_adjacent_literals_through_groups() {
    let e = Expr::Concat(vec![
        lit("ab"),
        Expr::Capture(Box::new(lit("c"))),
        any_byte(),
        lit("de"),
    ]);
    assert_eq!(required_literals(&e), bytes_of(&["abc", "de"]));
}

#[test]
fn repetition_of_literal_unit_is_unrolled_min_times() {
    let e = Expr::Repetition { min: 3, max: Some(5), sub: Box::new(lit("ab")) };
    assert_eq!(required_literals(&e), bytes_of(&["ababab"]));
    let optional = Expr::Repetition { min: 0, max: None, sub: Box::new(lit("ab")) };
    assert!(required_literals(&optional).is_empty());
}

#[test]
fn repetition_of_nonliteral_does_not_merge_across_copies() {
    // (?:a[xy]){2,3}: 'aa' would be unsound, only 'a' is required.
    let unit = Expr::Concat(vec![lit("a"), Expr::Class(ExprClass::Bytes(vec![(b'x', b'y')]))]);
    let e = Expr::Repetition { min: 2, max: Some(3), sub: Box::new(unit) };
    assert_eq!(required_literals(&e), bytes_of(&["a"]));
}

#[test]
fn alternation_keeps_common_substrings() {
    let e = Expr::Alternation(vec![
        Expr::Concat(vec![lit("foo"), any_byte(), lit("123bar")]),
        Expr::Concat(vec![lit("baz"), any_byte(), lit("123qux")]),
    ]);
    assert_eq!(required_literals(&e), bytes_of(&["123", "ba"]));
}

#[test]
fn alternation_with_empty_branch_requires_nothing() {
    let e = Expr::Alternation(vec![lit("foo"), Expr::Empty]);
    assert!(required_literals(&e).is_empty());
}

#[test]
fn alternation_of_shared_prefix_keeps_it() {
    let e = Expr::Alternation(vec![lit("prefixfoo"), lit("prefixbar")]);
    assert_eq!(required_literals(&e), bytes_of(&["prefix"]));
}

#[test]
fn case_fold_classes_join_literal_runs() {
    let e = Expr::Concat(vec![fold('K', 'k'), lit("ey")]);
    assert_eq!(parts_of(&required_literal_parts(&e)), vec![("key".to_string(), true)]);
    // Without folding the class contributes nothing.
    assert_eq!(required_literals(&e), bytes_of(&["ey"]));
}

#[test]
fn ascii_case_fold_byte_recognises_only_ascii_pairs() {
    assert_eq!(ascii_case_fold_byte(&ExprClass::Unicode(vec![('A', 'A'), ('a', 'a')])), Some(b'a'));
    assert_eq!(ascii_case_fold_byte(&ExprClass::Bytes(vec![(b'Q', b'Q'), (b'q', b'q')])), Some(b'q'));
    // The Kelvin sign makes the fold of 'k' three-way.
    assert_eq!(
        ascii_case_fold_byte(&ExprClass::Unicode(vec![('K', 'K'), ('k', 'k'), ('\u{212A}', '\u{212A}')])),
        None
    );
    assert_eq!(ascii_case_fold_byte(&ExprClass::Unicode(vec![('A', 'A'), ('b', 'b')])), None);
    assert_eq!(ascii_case_fold_byte(&ExprClass::Unicode(vec![('A', 'B'), ('a', 'b')])), None);
    assert_eq!(ascii_case_fold_byte(&ExprClass::Bytes(vec![(b'1', b'1'), (b'1', b'1')])), None);
}

#[test]
fn repeat_bytes_is_bounded() {
    assert_eq!(repeat_bytes(b"ab", 3), b"ababab".to_vec());
    assert_eq!(repeat_bytes(b"", 7), Vec::<u8>::new());
    assert_eq!(repeat_bytes(b"a", 100_000).len(), MAX_REPEATED_LITERAL_BYTES);
    assert_eq!(repeat_bytes(&[7u8; 5000], 3).len(), 5000);
}

#[test]
fn literal_bytes_collapses_groups_and_concatenations() {
    let e = Expr::Concat(vec![Expr::Capture(Box::new(Expr::Concat(vec![lit("a"), lit("b")]))), lit("c")]);
    assert_eq!(literal_bytes(&e), Some(b"abc".to_vec()));
    assert_eq!(literal_bytes(&Expr::Concat(vec![lit("a"), any_byte()])), None);
}

#[test]
fn exact_alternation_only_of_exact_literals() {
    let e = Expr::Capture(Box::new(Expr::Alternation(vec![lit("foo"), Expr::Capture(Box::new(lit("bar")))])));
    assert_eq!(as_exact_alternation(&e), Some(bytes_of(&["foo", "bar"])));
    let e = Expr::Alternation(vec![lit("foo"), Expr::Concat(vec![lit("b"), any_byte()])]);
    assert_eq!(as_exact_alternation(&e), None);
    assert_eq!(as_exact_alternation(&lit("foo")), None);
}

#[test]
fn extracted_literals_occur_in_a_matching_string() {
    // foo[0-9]+bar matches "foo42bar".
    let e = Expr::Concat(vec![
        lit("foo"),
        Expr::Repetition { min: 1, max: None, sub: Box::new(Expr::Class(ExprClass::Bytes(vec![(b'0', b'9')]))) },
        lit("bar"),
    ]);
    let text = b"foo42bar";
    for l in required_literals(&e) {
        assert!(text.windows(l.len()).any(|w| w == l.as_slice()));
    }
}

#[test]
fn extract_hir_literals_lowercases_all_parts_when_one_folds() {
    let e = Expr::Concat(vec![
        lit("ABCD"),
        any_byte(),
        fold('X', 'x'),
        lit("yz"),
    ]);
    let (frags, fragment_len, folded, single) = extract_hir_literals(&e).unwrap();
    assert_eq!(fragment_len, 3);
    assert!(folded);
    assert!(!single);
    let got: HashSet<u32> = frags.iter().copied().collect();
    assert_eq!(got.len(), frags.len());
    assert_eq!(got, fragment_set(&[b"abcd", b"xyz"], 3));
}

#[test]
fn extract_hir_literals_none_without_long_parts() {
    assert!(extract_hir_literals(&lit("ab")).is_none());
    assert!(extract_hir_literals(&Expr::Concat(vec![lit("ab"), any_byte(), lit("cd")])).is_none());
}

#[test]
fn extract_regex_literals_of_a_plain_literal() {
    let (frags, fragment_len, folded, single) = extract_regex_literals("foo", false).unwrap();
    assert_eq!(fragment_len, 3);
    assert!(!folded);
    assert!(single);
    assert_eq!(frags, extract_pattern_fragments_with_len(b"foo", 3));
}

#[test]
fn extract_regex_literals_case_insensitive() {
    let (frags, fragment_len, folded, single) = extract_regex_literals("(?i)needle", false).unwrap();
    assert_eq!(fragment_len, 4);
    assert!(folded);
    assert!(single);
    let got: HashSet<u32> = frags.iter().copied().collect();
    assert_eq!(got, fragment_set(&[b"needle"], 4));

    let (_, _, folded_by_flag, _) = extract_regex_literals("needle", true).unwrap();
    assert!(folded_by_flag);
}

#[test]
fn extract_regex_literals_of_a_class_prefix() {
    let (frags, fragment_len, folded, single) = extract_regex_literals("[A-Z]+_SUSPEND", false).unwrap();
    assert_eq!(fragment_len, 4);
    assert!(!folded);
    assert!(single);
    let got: HashSet<u32> = frags.iter().copied().collect();
    assert_eq!(got, fragment_set(&[b"_SUSPEND"], 4));
}

#[test]
fn extract_regex_literals_rejects_bad_or_uninformative_patterns() {
    assert!(extract_regex_literals("[", false).is_none());
    assert!(extract_regex_literals("fo|hello", false).is_none());
    assert!(extract_regex_literals("a.b", false).is_none());
}

#[test]
fn without_case_folding_parts_are_the_literals() {
    let e = Expr::Alternation(vec![
        Expr::Concat(vec![lit("prefix"), any_byte(), lit("tail")]),
        Expr::Concat(vec![lit("prefix"), Expr::Repetition { min: 2, max: None, sub: Box::new(lit("ab")) }]),
    ]);
    let parts = required_literal_parts(&e);
    assert!(parts.iter().all(|p| !p.case_insensitive));
    let bytes: Vec<Vec<u8>> = parts.into_iter().map(|p| p.bytes).collect();
    assert_eq!(bytes, required_literals(&e));
}

#[test]
fn exact_alternation_matches_only_its_literals() {
    let e = Expr::Alternation(vec![lit("cat"), Expr::Concat(vec![lit("d"), lit("og")])]);
    let lits = as_exact_alternation(&e).unwrap();
    assert_eq!(lits, bytes_of(&["cat", "dog"]));
    assert!(!lits.contains(&b"cow".to_vec()));
}

#[test]
fn case_insensitive_part_is_lowercased() {
    // `X(?i:a)`: the literal `X` joins a case-folding run, so the part is `xa`.
    let e = Expr::Concat(vec![lit("X"), fold('A', 'a')]);
    assert_eq!(parts_of(&required_literal_parts(&e)), vec![("xa".to_string(), true)]);
    let rep = Expr::Repetition {
        min: 2,
        max: None,
        sub: Box::new(Expr::Concat(vec![lit("Q"), fold('Z', 'z')])),
    };
    assert_eq!(parts_of(&required_literal_parts(&rep)), vec![("qzqz".to_string(), true)]);
    let sensitive = Expr::Concat(vec![lit("X"), any_byte(), lit("Y")]);
    assert_eq!(parts_of(&required_literal_parts(&sensitive)), vec![("X".to_string(), false), ("Y".to_string(), false)]);
}

#[test]
fn alternation_intersects_lowercased_parts() {
    // Both branches fold to the same lowercase run once their literal letters are lowercased.
    let a = Expr::Concat(vec![lit("AB"), fold('C', 'c')]);
    let b = Expr::Concat(vec![lit("ab"), fold('C', 'c')]);
    let e = Expr::Alternation(vec![a, b]);
    assert_eq!(parts_of(&required_literal_parts(&e)), vec![("abc".to_string(), true)]);
}

