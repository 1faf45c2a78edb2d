use policy_sim::text::{
    chars_of, contains_char, ends_with_char, joined, same_text, split_on, starts_with_text,
};
use policy_sim::metrics::{split_formula, FormulaTerm};
use policy_sim::text_map::TextMap;

#[test]
fn splitting_matches_str_split() {
    for (s, sep) in [("a+b+c", '+'), ("", '+'), ("+", '+'), ("a++b+", '+'), ("héllo*wörld", '*')] {
        let expected: Vec<String> = s.split(sep).map(|p| p.to_string()).collect();
        assert_eq!(split_on(s, sep), expected);
    }
}

#[test]
fn formula_pieces_are_trimmed_of_unicode_white_space() {
    let terms = split_formula("\u{3000}x\u{85}+  a b \t\n");
    match (&terms[0], &terms[1]) {
        (FormulaTerm::Single { metric: first }, FormulaTerm::Single { metric: second }) => {
            assert_eq!(first, "x");
            assert_eq!(second, "a b");
        }
        other => panic!("unexpected {:?}", other),
    }
}

#[test]
fn text_predicates() {
    assert!(same_text("abc", "abc"));
    assert!(!same_text("abc", "abd"));
    assert!(starts_with_text("average_health", "average_"));
    assert!(!starts_with_text("avg", "average_"));
    assert!(contains_char("a/b", '/'));
    assert!(ends_with_char("a/", '/'));
    assert!(!ends_with_char("", '/'));
    assert_eq!(joined("ab", "cd"), "abcd");
    assert_eq!(chars_of("añb"), vec!['a', 'ñ', 'b']);
}

#[test]
fn text_map_read_after_write() {
    let mut m: TextMap<i64> = TextMap::new();
    m.insert("a".to_string(), 1);
    m.insert("b".to_string(), 2);
    m.insert("a".to_string(), 3);
    assert_eq!(m.get("a"), Some(&3));
    assert_eq!(m.get("b"), Some(&2));
    assert_eq!(m.get("c"), None);
    assert_eq!(m.len(), 2);
    assert_eq!(m.key_at(0), "a");
    assert_eq!(m.value_at(1), &2);
    assert_eq!(m.position("b"), Some(1));
}
