use formdb_studio::dependency::{FunctionalDependency, Ratio};
use formdb_studio::join_checks::{is_lossless_join, local_reach, preserves_dependencies};
use formdb_studio::planner::decompose;
use formdb_studio::priority::{check_comes_before, check_list_before, check_name_before, prioritize};
use formdb_studio::table::TableChange;

fn fields_of(items: &[&str]) -> Vec<String> {
    items.iter().map(|s| s.to_string()).collect()
}

fn weighted(determinant: &[&str], dependent: &[&str], num: u64, den: u64) -> FunctionalDependency {
    FunctionalDependency {
        determinant: fields_of(determinant),
        dependent: fields_of(dependent),
        confidence: Ratio { num, den },
        discovered: true,
    }
}

fn table(name: &str, fields: &[&str]) -> TableChange {
    TableChange { name: name.to_string(), fields: fields_of(fields), reason: String::new() }
}

fn layout(tables: &[TableChange]) -> Vec<(String, Vec<String>)> {
    tables.iter().map(|t| (t.name.clone(), t.fields.clone())).collect()
}

fn sorted_union(tables: &[TableChange]) -> Vec<String> {
    let mut all: Vec<String> = tables.iter().flat_map(|t| t.fields.clone()).collect();
    all.sort();
    all.dedup();
    all
}

#[test]
fn nothing_to_remove_leaves_the_original_table() {
    let fields = fields_of(&["id", "name", "email"]);
    let plan = decompose(&fields, &fields_of(&["id"]), &Vec::new());
    assert_eq!(plan.tables.len(), 1);
    assert_eq!(plan.tables[0].fields, fields);
    assert_eq!(plan.tables[0].name, "base");
    assert!(plan.is_lossless);
    assert!(plan.preserves_fds);
}

#[test]
fn transitive_dependency_is_split_out() {
    let fields = fields_of(&["id", "zip", "city"]);
    let fds = vec![weighted(&["zip"], &["city"], 1, 1)];
    let plan = decompose(&fields, &fields_of(&["id"]), &fds);
    assert_eq!(
        layout(&plan.tables),
        vec![
            ("base".to_string(), fields_of(&["id", "zip"])),
            ("by_zip".to_string(), fields_of(&["zip", "city"])),
        ]
    );
    assert_eq!(
        plan.tables[0].reason,
        "keeps the key and the fields that no violating dependency moves"
    );
    assert_eq!(plan.tables[1].reason, "split out by {zip} -> {city}");
    assert!(plan.is_lossless);
    assert!(plan.preserves_fds);
}

#[test]
fn proposed_tables_cover_exactly_the_original_fields() {
    let fields = fields_of(&["id", "a", "b", "c", "d", "e"]);
    let key = fields_of(&["id"]);
    let cases = vec![
        vec![],
        vec![weighted(&["a"], &["b"], 1, 1)],
        vec![weighted(&["a"], &["b", "c"], 1, 1), weighted(&["c"], &["d"], 1, 1)],
        vec![weighted(&["a", "b"], &["c", "id", "ghost"], 2, 3), weighted(&["d"], &["e", "a"], 1, 1)],
        vec![weighted(&["ghost"], &["a"], 1, 1), weighted(&[], &["e"], 1, 1)],
    ];
    let mut wanted = fields.clone();
    wanted.sort();
    for fds in cases {
        let plan = decompose(&fields, &key, &fds);
        assert_eq!(sorted_union(&plan.tables), wanted);
    }
}

#[test]
fn tables_that_share_nothing_are_not_lossless() {
    let fields = fields_of(&["id", "a", "b", "c", "d"]);
    let fds = vec![weighted(&["a"], &["b"], 1, 1), weighted(&["c"], &["d"], 1, 1)];
    let plan = decompose(&fields, &fields_of(&["id"]), &fds);
    assert_eq!(
        layout(&plan.tables),
        vec![
            ("base".to_string(), fields_of(&["id", "a", "c"])),
            ("by_a".to_string(), fields_of(&["a", "b"])),
            ("by_c".to_string(), fields_of(&["c", "d"])),
        ]
    );
    assert!(!plan.is_lossless);
    assert!(plan.preserves_fds);
}

#[test]
fn intersection_that_determines_neither_table_fails_the_join_test() {
    let fds = vec![weighted(&["a"], &["b"], 1, 1)];
    let joined = vec![table("left", &["a", "b"]), table("right", &["a", "c"])];
    assert!(is_lossless_join(&joined, &fds));
    let loose = vec![table("left", &["a", "b"]), table("right", &["b", "c"])];
    assert!(!is_lossless_join(&loose, &fds));
    let apart = vec![table("left", &["a", "b"]), table("right", &["c", "d"])];
    assert!(!is_lossless_join(&apart, &fds));
    assert!(is_lossless_join(&vec![table("only", &["a", "b"])], &fds));
    assert!(is_lossless_join(&Vec::new(), &fds));
}

#[test]
fn dependency_across_tables_is_not_preserved() {
    let fields = fields_of(&["id", "a", "b", "c"]);
    let fds = vec![weighted(&["a"], &["b"], 1, 1), weighted(&["b"], &["c"], 1, 1)];
    let plan = decompose(&fields, &fields_of(&["id"]), &fds);
    assert_eq!(
        layout(&plan.tables),
        vec![
            ("base".to_string(), fields_of(&["id", "a", "c"])),
            ("by_a".to_string(), fields_of(&["a", "b"])),
        ]
    );
    assert!(plan.is_lossless);
    assert!(!plan.preserves_fds);
    assert!(!preserves_dependencies(&plan.tables, &fds));
    assert_eq!(local_reach(&fields_of(&["b"]), &plan.tables, &fds), fields_of(&["b"]));
    assert_eq!(local_reach(&fields_of(&["a"]), &plan.tables, &fds), fields_of(&["a", "c", "b"]));
}

#[test]
fn preservation_follows_dependencies_through_several_tables() {
    let fds = vec![weighted(&["a"], &["b"], 1, 1), weighted(&["b"], &["c"], 1, 1), weighted(&["a"], &["c"], 1, 1)];
    let tables = vec![table("one", &["a", "b"]), table("two", &["b", "c"])];
    assert!(preserves_dependencies(&tables, &fds));
    assert_eq!(local_reach(&fields_of(&["a"]), &tables, &fds), fields_of(&["a", "b", "c"]));
    let split = vec![table("one", &["a"]), table("two", &["b", "c"])];
    assert!(!preserves_dependencies(&split, &fds));
}

#[test]
fn more_confident_dependency_is_synthesized_first() {
    let fields = fields_of(&["id", "a", "b", "c"]);
    let key = fields_of(&["id"]);
    let fds = vec![weighted(&["b"], &["c"], 1, 2), weighted(&["a"], &["c"], 9, 10)];
    let plan = decompose(&fields, &key, &fds);
    assert_eq!(
        layout(&plan.tables),
        vec![
            ("base".to_string(), fields_of(&["id", "a", "b"])),
            ("by_a".to_string(), fields_of(&["a", "c"])),
        ]
    );
    let fds = vec![weighted(&["b"], &["c"], 19, 20), weighted(&["a"], &["c"], 9, 10)];
    let plan = decompose(&fields, &key, &fds);
    assert_eq!(plan.tables[1].name, "by_b");
}

#[test]
fn equal_confidence_falls_back_to_lexical_order_of_determinants() {
    let fds = vec![
        weighted(&["b"], &["c"], 1, 2),
        weighted(&["a", "z"], &["c"], 2, 4),
        weighted(&["a"], &["c"], 3, 6),
        weighted(&["k"], &["c"], 1, 1),
        weighted(&["a", "b"], &["c"], 1, 2),
    ];
    let order: Vec<Vec<String>> = prioritize(&fds).iter().map(|fd| fd.determinant.clone()).collect();
    assert_eq!(
        order,
        vec![
            fields_of(&["k"]),
            fields_of(&["a"]),
            fields_of(&["a", "b"]),
            fields_of(&["a", "z"]),
            fields_of(&["b"]),
        ]
    );
    assert!(check_comes_before(&fds[3], &fds[0]));
    assert!(!check_comes_before(&fds[0], &fds[3]));
    assert!(check_comes_before(&fds[2], &fds[0]));
    assert!(!check_comes_before(&fds[0], &fds[0]));
}

#[test]
fn names_compare_as_their_encoded_bytes() {
    let s = |t: &str| t.to_string();
    assert!(check_name_before(&s("a"), &s("b")));
    assert!(!check_name_before(&s("b"), &s("a")));
    assert!(!check_name_before(&s("a"), &s("a")));
    assert!(check_name_before(&s(""), &s("a")));
    assert!(check_name_before(&s("ab"), &s("abc")));
    assert!(check_name_before(&s("Z"), &s("a")));
    assert!(check_name_before(&s("z"), &s("\u{e9}")));
    assert!(check_name_before(&s("\u{e9}"), &s("\u{4e2d}")));
    assert_eq!(check_name_before(&s("\u{ffff}"), &s("\u{10000}")), s("\u{ffff}") < s("\u{10000}"));
    assert!(check_list_before(&fields_of(&["a"]), &fields_of(&["a", "a"])));
    assert!(check_list_before(&fields_of(&["a", "b"]), &fields_of(&["b"])));
    assert!(!check_list_before(&fields_of(&["b"]), &fields_of(&["a", "b"])));
    assert!(!check_list_before(&fields_of(&[]), &fields_of(&[])));
}

#[test]
fn degenerate_or_inapplicable_dependency_is_skipped() {
    let fields = fields_of(&["id", "a", "b"]);
    let key = fields_of(&["id"]);
    let fds = vec![weighted(&[], &["a"], 1, 1), weighted(&["x"], &["a"], 1, 1), weighted(&["a"], &["id"], 1, 1), weighted(&["a"], &["a"], 1, 1)];
    let plan = decompose(&fields, &key, &fds);
    assert_eq!(layout(&plan.tables), vec![("base".to_string(), fields.clone())]);
}
