use formdb_studio::classifier::{check_violation, classify, collect_violations};
use formdb_studio::dependency::{closure, is_superkey, FunctionalDependency, Ratio};
use formdb_studio::error::EngineError;
use formdb_studio::normal_form::NormalForm;

fn list(items: &[&str]) -> Vec<String> {
    items.iter().map(|s| s.to_string()).collect()
}

fn rule(determinant: &[&str], dependent: &[&str]) -> FunctionalDependency {
    FunctionalDependency::declared(list(determinant), list(dependent))
}

fn determinants(fds: &[FunctionalDependency]) -> Vec<Vec<String>> {
    fds.iter().map(|fd| fd.determinant.clone()).collect()
}

#[test]
fn singleton_key_with_full_dependency_is_at_least_third_normal_form() {
    let fields = list(&["id", "name", "email"]);
    let key = list(&["id"]);
    let fds = vec![rule(&["id"], &["name", "email"])];
    let c = classify(&fields, &key, &fds).unwrap();
    assert!(c.form.at_least(&NormalForm::Second));
    assert!(c.form.at_least(&NormalForm::Third));
    assert_eq!(c.form, NormalForm::BCNF);
    assert!(c.violating.is_empty());
}

#[test]
fn partial_dependency_keeps_the_schema_in_first_normal_form() {
    let fields = list(&["order", "item", "qty", "item_name"]);
    let key = list(&["order", "item"]);
    let fds = vec![rule(&["order", "item"], &["qty"]), rule(&["item"], &["item_name"])];
    let c = classify(&fields, &key, &fds).unwrap();
    assert_eq!(c.form, NormalForm::First);
    assert_eq!(determinants(&c.violating), vec![list(&["item"])]);
}

#[test]
fn transitive_dependency_keeps_the_schema_in_second_normal_form() {
    let fields = list(&["id", "zip", "city"]);
    let key = list(&["id"]);
    let fds = vec![rule(&["id"], &["zip", "city"]), rule(&["zip"], &["city"])];
    let c = classify(&fields, &key, &fds).unwrap();
    assert_eq!(c.form, NormalForm::Second);
    assert_eq!(determinants(&c.violating), vec![list(&["zip"])]);
}

#[test]
fn determinant_that_is_no_superkey_keeps_the_schema_in_third_normal_form() {
    let fields = list(&["a", "b", "c", "d"]);
    let key = list(&["a", "b"]);
    let fds = vec![rule(&["a", "b"], &["c"]), rule(&["a", "c"], &["b"])];
    let c = classify(&fields, &key, &fds).unwrap();
    assert_eq!(c.form, NormalForm::Third);
    assert_eq!(determinants(&c.violating), vec![list(&["a", "b"]), list(&["a", "c"])]);
}

#[test]
fn superkeys_and_trivial_dependencies_leave_the_schema_in_bcnf() {
    let fields = list(&["student", "course", "teacher"]);
    let key = list(&["student", "course"]);
    let fds = vec![
        rule(&["student", "course"], &["teacher"]),
        rule(&["student", "teacher"], &["course"]),
        rule(&["course", "teacher"], &["course"]),
    ];
    let c = classify(&fields, &key, &fds).unwrap();
    assert_eq!(c.form, NormalForm::BCNF);
    assert!(c.violating.is_empty());
}

#[test]
fn higher_form_implies_every_lower_form() {
    let fields = list(&["id", "zip", "city"]);
    let key = list(&["id"]);
    let cases = vec![
        vec![rule(&["id"], &["zip", "city"])],
        vec![rule(&["id"], &["zip", "city"]), rule(&["zip"], &["city"])],
        vec![],
    ];
    for fds in cases {
        let c = classify(&fields, &key, &fds).unwrap();
        let second = collect_violations(NormalForm::Second, &fields, &key, &fds).is_empty();
        let third = second && collect_violations(NormalForm::Third, &fields, &key, &fds).is_empty();
        let bcnf = third && collect_violations(NormalForm::BCNF, &fields, &key, &fds).is_empty();
        if bcnf {
            assert!(third && second);
        }
        assert_eq!(c.form.at_least(&NormalForm::Second), second);
        assert_eq!(c.form.at_least(&NormalForm::Third), third);
        assert_eq!(c.form.at_least(&NormalForm::BCNF), bcnf);
        assert!(!c.form.at_least(&NormalForm::Fourth));
    }
}

#[test]
fn key_field_outside_the_schema_is_an_inconsistent_schema() {
    let fields = list(&["id", "name"]);
    let key = list(&["id", "tenant", "region"]);
    match classify(&fields, &key, &Vec::new()) {
        Err(EngineError::InconsistentSchema { missing }) => assert_eq!(missing, "tenant"),
        _ => panic!("an inconsistent schema was accepted"),
    }
}

#[test]
fn degenerate_dependency_violates_nothing() {
    let fields = list(&["a", "b", "country"]);
    let key = list(&["a", "b"]);
    let constant = FunctionalDependency {
        determinant: Vec::new(),
        dependent: list(&["country"]),
        confidence: Ratio { num: 3, den: 3 },
        discovered: true,
    };
    assert!(constant.is_degenerate());
    for level in [NormalForm::Second, NormalForm::Third, NormalForm::BCNF] {
        assert!(!check_violation(level, &constant, &fields, &key, &vec![constant.duplicate()]));
    }
    let fds = vec![constant, rule(&["a", "b"], &["a"])];
    assert_eq!(classify(&fields, &key, &fds).unwrap().form, NormalForm::BCNF);
}

#[test]
fn closure_follows_dependencies_to_a_fixed_point() {
    let fds = vec![rule(&["c"], &["d"]), rule(&["a", "b"], &["c"]), rule(&["a"], &["b"]), rule(&["x"], &["y"])];
    assert_eq!(closure(&list(&["a"]), &fds), list(&["a", "b", "c", "d"]));
    assert_eq!(closure(&list(&["c"]), &fds), list(&["c", "d"]));
    assert_eq!(closure(&list(&["q"]), &fds), list(&["q"]));
    assert_eq!(closure(&Vec::new(), &fds), Vec::<String>::new());
    let fields = list(&["a", "b", "c", "d"]);
    assert!(is_superkey(&list(&["a"]), &fields, &fds));
    assert!(!is_superkey(&list(&["b", "c"]), &fields, &fds));
}

#[test]
fn normal_forms_are_totally_ordered() {
    let ladder = [
        NormalForm::First,
        NormalForm::Second,
        NormalForm::Third,
        NormalForm::BCNF,
        NormalForm::Fourth,
        NormalForm::Fifth,
    ];
    let labels = ["1NF", "2NF", "3NF", "BCNF", "4NF", "5NF"];
    for (i, a) in ladder.iter().enumerate() {
        assert_eq!(a.level() as usize, i + 1);
        assert_eq!(a.label(), labels[i]);
        assert_eq!(NormalForm::from_label(labels[i]), Some(*a));
        assert_eq!(a.next(), ladder.get(i + 1).copied());
        for (j, b) in ladder.iter().enumerate() {
            assert_eq!(a.at_least(b), i >= j);
            assert_eq!(a.below(b), i < j);
            assert_eq!(a == b, i == j);
        }
    }
    assert_eq!(NormalForm::from_label("6NF"), None);
    assert_eq!(NormalForm::from_label(""), None);
}

#[test]
fn confidence_compares_by_cross_multiplication() {
    let half = Ratio { num: 1, den: 2 };
    let two_quarters = Ratio { num: 2, den: 4 };
    let most = Ratio { num: 99, den: 100 };
    assert!(half.meets(&two_quarters) && two_quarters.meets(&half));
    assert!(most.meets(&half) && !half.meets(&most));
    assert!(Ratio::certain().meets(&most));
    assert_eq!(Ratio::certain(), Ratio { num: 1, den: 1 });
    let huge = Ratio { num: u64::MAX, den: u64::MAX };
    assert!(huge.meets(&Ratio { num: u64::MAX - 1, den: u64::MAX }));
    assert!(huge.is_well_formed());
    assert!(!Ratio { num: 1, den: 0 }.is_well_formed());
    assert!(!Ratio { num: 3, den: 2 }.is_well_formed());
}
