use formdb_studio::names::{
    contains_name, copy_names, difference, intersection, is_disjoint, is_distinct, is_subset,
    same_set, union_of,
};
use formdb_studio::text::{
    chars_of, contains_text, join, render_signed, render_unsigned, same_text,
};

fn strings(items: &[&str]) -> Vec<String> {
    items.iter().map(|s| s.to_string()).collect()
}

#[test]
fn numbers_render_in_decimal() {
    assert_eq!(render_unsigned(0), "0");
    assert_eq!(render_unsigned(7), "7");
    assert_eq!(render_unsigned(10), "10");
    assert_eq!(render_unsigned(1234567890), "1234567890");
    assert_eq!(render_unsigned(u64::MAX), "18446744073709551615");
    assert_eq!(render_signed(0), "0");
    assert_eq!(render_signed(-1), "-1");
    assert_eq!(render_signed(-305), "-305");
    assert_eq!(render_signed(i64::MAX), "9223372036854775807");
    assert_eq!(render_signed(i64::MIN), "-9223372036854775808");
    for n in [-100i64, -11, -10, -9, 9, 10, 11, 99, 100, 101, 4096] {
        assert_eq!(render_signed(n), n.to_string());
    }
}

#[test]
fn parts_join_with_a_separator_between_neighbours() {
    assert_eq!(join(&strings(&[]), ", "), "");
    assert_eq!(join(&strings(&["a"]), ", "), "a");
    assert_eq!(join(&strings(&["a", "b", "c"]), ", "), "a, b, c");
    assert_eq!(join(&strings(&["", ""]), "-"), "-");
    assert_eq!(join(&strings(&["x", "y"]), ""), "xy");
}

#[test]
fn substring_search_finds_every_position() {
    assert!(contains_text("x : BoundedNat 0 9", "BoundedNat"));
    assert!(contains_text("BoundedNat", "BoundedNat"));
    assert!(contains_text("aaBoundedNat", "BoundedNat"));
    assert!(!contains_text("BoundedNa", "BoundedNat"));
    assert!(!contains_text("Bounded Nat", "BoundedNat"));
    assert!(contains_text("anything", ""));
    assert!(contains_text("", ""));
    assert!(!contains_text("", "a"));
    assert!(contains_text("aab", "ab"));
    assert!(contains_text("h\u{e9}llo w\u{f6}rld", "w\u{f6}r"));
    assert!(!contains_text("\u{e9}", "\u{e8}"));
}

#[test]
fn texts_compare_by_their_characters() {
    assert!(same_text("number", "number"));
    assert!(!same_text("number", "Number"));
    assert!(!same_text("number", "numbers"));
    assert!(same_text("", ""));
    assert_eq!(chars_of("a\u{e9}z"), vec!['a', '\u{e9}', 'z']);
    assert_eq!(chars_of(""), Vec::<char>::new());
}

#[test]
fn name_lists_behave_as_ordered_sets() {
    let a = strings(&["id", "name", "email"]);
    let b = strings(&["email", "phone", "id", "phone"]);
    assert_eq!(copy_names(&a), a);
    assert!(contains_name(&a, &"name".to_string()));
    assert!(!contains_name(&a, &"phone".to_string()));
    assert_eq!(union_of(&a, &b), strings(&["id", "name", "email", "phone"]));
    assert_eq!(union_of(&b, &a), strings(&["email", "phone", "id", "phone", "name"]));
    assert_eq!(difference(&a, &b), strings(&["name"]));
    assert_eq!(difference(&b, &a), strings(&["phone", "phone"]));
    assert_eq!(intersection(&a, &b), strings(&["id", "email"]));
    assert_eq!(intersection(&b, &a), strings(&["email", "id"]));
    assert!(is_subset(&strings(&["email", "id", "id"]), &a));
    assert!(!is_subset(&b, &a));
    assert!(is_subset(&strings(&[]), &a));
    assert!(same_set(&strings(&["email", "id", "name", "id"]), &a));
    assert!(!same_set(&a, &b));
    assert!(is_distinct(&a));
    assert!(!is_distinct(&b));
    assert!(is_disjoint(&a, &strings(&["phone", "fax"])));
    assert!(!is_disjoint(&a, &b));
    assert!(is_disjoint(&a, &strings(&[])));
}
