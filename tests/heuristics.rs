use class_graph::naming::CharClass::{Lower, Other, Upper};
use class_graph::naming::{classify, is_pascal_case_classes, CharClass};
use class_graph::text::is_whitespace_char;
use class_graph::{
    build_edges, get_child_classes, get_pascal_case, is_pascal_case, is_sinlge_inheritance_child,
    parse_file, separate_child_and_parent_class, tokenize,
};

fn strings(items: &[&str]) -> Vec<String> {
    items.iter().map(|s| s.to_string()).collect()
}

#[test]
fn tokenize_collapses_whitespace_runs() {
    let actual = tokenize(String::from("  class\tA(B):\n\n  pass  "));
    assert_eq!(actual, strings(&["class", "A(B):", "pass"]));
}

#[test]
fn tokenize_splits_on_unicode_whitespace() {
    let actual = tokenize(String::from("a\u{3000}b\u{a0}c"));
    assert_eq!(actual, strings(&["a", "b", "c"]));
}

#[test]
fn tokenize_of_empty_and_blank_text() {
    assert!(tokenize(String::new()).is_empty());
    assert!(tokenize(String::from(" \n\t ")).is_empty());
}

#[test]
fn whitespace_characters() {
    assert!(is_whitespace_char(' '));
    assert!(is_whitespace_char('\u{2028}'));
    assert!(!is_whitespace_char('x'));
    assert!(!is_whitespace_char('\u{200b}'));
}

#[test]
fn whitespace_matches_std_on_every_char() {
    for c in (0u32..=0x10FFFF).filter_map(char::from_u32) {
        assert_eq!(is_whitespace_char(c), c.is_whitespace(), "{:?}", c);
    }
}

#[test]
fn pascal_case_accepts_test() {
    assert!(is_pascal_case(&String::from("Test")));
}

#[test]
fn pascal_case_rejects_lowercase_start() {
    assert!(!is_pascal_case(&String::from("test")));
}

#[test]
fn pascal_case_rejects_two_uppercase_in_a_row() {
    assert!(!is_pascal_case(&String::from("TEst")));
}

#[test]
fn pascal_case_inert_characters_do_not_reset() {
    assert!(!is_pascal_case(&String::from("A1B")));
    assert!(is_pascal_case(&String::from("Ab1Cd:")));
    assert!(is_pascal_case(&String::from("Test(Parent):")));
    assert!(!is_pascal_case(&String::from("(Parent)")));
}

#[test]
fn pascal_case_on_non_ascii_letters() {
    assert!(is_pascal_case(&String::from("Édouard")));
    assert!(!is_pascal_case(&String::from("ÉDouard")));
}

#[test]
fn classify_characters() {
    assert_eq!(classify('A'), CharClass::Upper);
    assert_eq!(classify('z'), CharClass::Lower);
    assert_eq!(classify('7'), CharClass::Other);
    assert_eq!(classify(':'), CharClass::Other);
}

#[test]
fn pascal_case_over_classes() {
    assert!(is_pascal_case_classes(&vec![]));
    assert!(is_pascal_case_classes(&vec![Upper, Lower, Upper, Lower]));
    assert!(!is_pascal_case_classes(&vec![Lower, Upper]));
    assert!(!is_pascal_case_classes(&vec![Upper, Other, Upper]));
    assert!(is_pascal_case_classes(&vec![Upper, Lower, Other, Upper]));
    assert!(!is_pascal_case_classes(&vec![Other, Upper]));
}

#[test]
fn scanner_needs_keyword_right_before() {
    let tokens = strings(&["class", "x", "Test:", "Other:"]);
    assert!(get_pascal_case(&tokens).is_empty());
}

#[test]
fn scanner_rejects_unconventional_names() {
    let tokens = strings(&["class", "HTTPServer:", "class", "lower(Base):"]);
    assert!(get_pascal_case(&tokens).is_empty());
}

#[test]
fn scanner_finds_several_headers() {
    let tokens = strings(&[
        "class", "Ant:", "pass", "class", "Bee(Ant,", "Cat,", "Dog):", "pass", "class",
        "Eel(Bee):",
    ]);
    let expected: Vec<Vec<String>> = vec![
        strings(&["Ant:"]),
        strings(&["Bee(Ant,", "Cat,", "Dog):"]),
        strings(&["Eel(Bee):"]),
    ];
    assert_eq!(get_pascal_case(&tokens), expected);
}

#[test]
fn scanner_rejects_single_letter_parent_lists() {
    let tokens = strings(&["class", "B(A):", "class", "Bee(Ant):"]);
    let expected: Vec<Vec<String>> = vec![strings(&["Bee(Ant):"])];
    assert_eq!(get_pascal_case(&tokens), expected);
}

#[test]
fn scanner_drops_unterminated_header() {
    let tokens = strings(&["class", "Ant:", "class", "Bee(Ant,", "Cat"]);
    let expected: Vec<Vec<String>> = vec![strings(&["Ant:"])];
    assert_eq!(get_pascal_case(&tokens), expected);
}

#[test]
fn scanner_does_not_see_keyword_inside_header() {
    let tokens = strings(&["class", "Bee(Ant,", "class", "Cat):", "Zed:"]);
    let expected: Vec<Vec<String>> = vec![strings(&["Bee(Ant,", "class", "Cat):"])];
    assert_eq!(get_pascal_case(&tokens), expected);
}

#[test]
fn child_declarations_need_both_parentheses() {
    assert!(is_sinlge_inheritance_child(&String::from("Test(Parent):")));
    assert!(is_sinlge_inheritance_child(&String::from("Test, Foo(Bar):")));
    assert!(!is_sinlge_inheritance_child(&String::from("Test):")));
    assert!(!is_sinlge_inheritance_child(&String::from("Test(Parent:")));
    assert!(!is_sinlge_inheritance_child(&String::from("Test:")));
}

#[test]
fn child_classes_keep_order() {
    let classes: Vec<Vec<String>> = vec![
        strings(&["B(A):"]),
        strings(&["Root:"]),
        strings(&["C(A,", "B):"]),
    ];
    let expected = strings(&["B(A):", "C(A, B):"]);
    assert_eq!(get_child_classes(classes), expected);
}

#[test]
fn separate_single_parent() {
    let (child, parents) = separate_child_and_parent_class(&String::from("Test(Parent):"));
    assert_eq!(child, "Test");
    assert_eq!(parents, strings(&["Parent"]));
}

#[test]
fn separate_parents_in_order() {
    let (child, parents) =
        separate_child_and_parent_class(&String::from("Test(Parent, Sibling):"));
    assert_eq!(child, "Test");
    assert_eq!(parents, strings(&["Parent", "Sibling"]));
}

#[test]
fn separate_nested_parentheses_truncate() {
    let (child, parents) = separate_child_and_parent_class(&String::from("A(B(C), D):"));
    assert_eq!(child, "A");
    assert_eq!(parents, strings(&["B(C"]));
}

#[test]
fn separate_splits_on_comma_space_only() {
    let (child, parents) = separate_child_and_parent_class(&String::from("A(B,C, D):"));
    assert_eq!(child, "A");
    assert_eq!(parents, strings(&["B,C", "D"]));
}

#[test]
fn separate_empty_parent_list() {
    let (child, parents) = separate_child_and_parent_class(&String::from("Test():"));
    assert_eq!(child, "Test");
    assert_eq!(parents, strings(&[""]));
}

#[test]
fn build_edges_one_per_parent() {
    let edges = build_edges(strings(&["Test(Parent, Sibling):", "Other(Test):"]));
    let expected = vec![
        (String::from("Test"), String::from("Parent")),
        (String::from("Test"), String::from("Sibling")),
        (String::from("Other"), String::from("Test")),
    ];
    assert_eq!(edges, expected);
}

#[test]
fn empty_parent_list_yields_no_edges() {
    let edges = build_edges(strings(&["Test():"]));
    assert!(edges.is_empty());
}

#[test]
fn empty_parentheses_in_a_file_yield_no_edges() {
    let text = String::from("class Test(): pass\nclass Other(Test): pass");
    assert_eq!(parse_file(text), vec![(String::from("Other"), String::from("Test"))]);
}

#[test]
fn child_classes_drop_header_with_one_parenthesis() {
    let classes: Vec<Vec<String>> = vec![strings(&["Test,", "Parent):"])];
    assert!(get_child_classes(classes).is_empty());
}

#[test]
fn child_classes_test_the_joined_header() {
    let classes: Vec<Vec<String>> = vec![strings(&["Test,", "Foo(Bar):"])];
    assert_eq!(get_child_classes(classes), strings(&["Test, Foo(Bar):"]));
}

#[test]
fn parentheses_after_the_first_token_declare_parents() {
    let text = String::from("class Test, Foo(Bar): pass");
    assert_eq!(parse_file(text), vec![(String::from("Test, Foo"), String::from("Bar"))]);
}

#[test]
fn root_declaration_yields_no_edges() {
    let edges = build_edges(get_child_classes(vec![strings(&["Test:"])]));
    assert!(edges.is_empty());
}

#[test]
fn parse_file_whole_pipeline() {
    let text = String::from(
        "class Base:\n    pass\n\nclass Mixin: pass\nclass Derived(Base, Mixin):\n    def f(self): pass\n",
    );
    let expected = vec![
        (String::from("Derived"), String::from("Base")),
        (String::from("Derived"), String::from("Mixin")),
    ];
    assert_eq!(parse_file(text), expected);
}

#[test]
fn parse_file_unterminated_header_does_not_panic() {
    let text = String::from("class Ant(Bee,\n Cat");
    assert!(parse_file(text).is_empty());
}
