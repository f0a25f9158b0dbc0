use formdb_studio::dependency::{FunctionalDependency, Ratio};
use formdb_studio::miner::{
    check_holds, check_minimal, count_support, discover, discover_bounded, evaluate,
    DEFAULT_MAX_DETERMINANT,
};
use formdb_studio::query::QueryRow;

fn names(list: &[&str]) -> Vec<String> {
    list.iter().map(|s| s.to_string()).collect()
}

fn row(cells: &[(&str, &str)]) -> QueryRow {
    QueryRow::from_pairs(cells.iter().map(|(k, v)| (k.to_string(), v.to_string())).collect())
}

fn people() -> Vec<QueryRow> {
    vec![
        row(&[("id", "1"), ("name", "A"), ("email", "a@x")]),
        row(&[("id", "1"), ("name", "A"), ("email", "a@x")]),
        row(&[("id", "2"), ("name", "B"), ("email", "b@x")]),
    ]
}

fn shape(fd: &FunctionalDependency) -> (Vec<String>, Vec<String>, u64, u64, bool) {
    (
        fd.determinant.clone(),
        fd.dependent.clone(),
        fd.confidence.num,
        fd.confidence.den,
        fd.discovered,
    )
}

fn threshold(num: u64, den: u64) -> Ratio {
    Ratio { num, den }
}

#[test]
fn miner_finds_id_determines_name_and_email() {
    let found = discover(&people(), &names(&["id", "name", "email"]), &threshold(99, 100));
    let wanted = (names(&["id"]), names(&["name", "email"]), 3, 3, true);
    assert!(found.iter().any(|fd| shape(fd) == wanted));
    let fd = found.iter().find(|fd| fd.determinant == names(&["id"])).unwrap();
    assert_eq!(fd.confidence.num, fd.confidence.den);
}

#[test]
fn miner_reports_each_minimal_determinant_once() {
    let found = discover(&people(), &names(&["id", "name", "email"]), &threshold(99, 100));
    let shapes: Vec<_> = found.iter().map(shape).collect();
    assert_eq!(
        shapes,
        vec![
            (names(&["id"]), names(&["name", "email"]), 3, 3, true),
            (names(&["name"]), names(&["id", "email"]), 3, 3, true),
            (names(&["email"]), names(&["id", "name"]), 3, 3, true),
        ]
    );
}

#[test]
fn every_mined_dependency_reaches_the_threshold() {
    let rows = vec![
        row(&[("a", "1"), ("b", "x"), ("c", "p")]),
        row(&[("a", "1"), ("b", "x"), ("c", "q")]),
        row(&[("a", "2"), ("b", "y"), ("c", "p")]),
        row(&[("a", "3"), ("b", "y"), ("c", "r")]),
        row(&[("a", "4"), ("b", "z"), ("c", "r")]),
    ];
    for (num, den) in [(0u64, 1u64), (1, 2), (3, 5), (4, 5), (1, 1)] {
        let t = threshold(num, den);
        let found = discover(&rows, &names(&["a", "b", "c"]), &t);
        for fd in &found {
            assert!(fd.confidence.den > 0);
            assert!(fd.confidence.num <= fd.confidence.den);
            assert!(
                (fd.confidence.num as u128) * (den as u128)
                    >= (num as u128) * (fd.confidence.den as u128)
            );
            assert!(fd.discovered);
            assert!(!fd.dependent.is_empty());
        }
    }
}

#[test]
fn no_determinant_contains_another_with_a_shared_dependent() {
    let rows = vec![
        row(&[("a", "1"), ("b", "1"), ("c", "1"), ("d", "1")]),
        row(&[("a", "1"), ("b", "2"), ("c", "2"), ("d", "1")]),
        row(&[("a", "2"), ("b", "1"), ("c", "3"), ("d", "2")]),
        row(&[("a", "2"), ("b", "2"), ("c", "4"), ("d", "2")]),
    ];
    let found = discover(&rows, &names(&["a", "b", "c", "d"]), &threshold(1, 1));
    assert!(!found.is_empty());
    for big in &found {
        for small in &found {
            let inside = small.determinant.iter().all(|n| big.determinant.contains(n));
            let proper = inside && small.determinant.len() < big.determinant.len();
            if proper {
                assert!(!big.dependent.iter().any(|n| small.dependent.contains(n)));
            }
        }
    }
    let pair = found.iter().find(|fd| fd.determinant == names(&["a", "b"])).unwrap();
    assert_eq!(pair.dependent, names(&["c"]));
    let single = found.iter().find(|fd| fd.determinant == names(&["a"])).unwrap();
    assert_eq!(single.dependent, names(&["d"]));
}

#[test]
fn approximate_dependency_has_the_row_fraction_as_confidence() {
    let rows = vec![
        row(&[("k", "1"), ("v", "x")]),
        row(&[("k", "2"), ("v", "y")]),
        row(&[("k", "3"), ("v", "z")]),
        row(&[("k", "3"), ("v", "w")]),
    ];
    let k = names(&["k"]);
    assert_eq!(count_support(&rows, &k, &"v".to_string()), (2, 4));
    assert!(check_holds(&rows, &k, &"v".to_string(), &threshold(1, 2)));
    assert!(!check_holds(&rows, &k, &"v".to_string(), &threshold(51, 100)));
    let found = discover(&rows, &names(&["k", "v"]), &threshold(1, 2));
    let fd = found.iter().find(|fd| fd.determinant == k).unwrap();
    assert_eq!(shape(fd), (names(&["k"]), names(&["v"]), 2, 4, true));
    let strict = discover(&rows, &names(&["k", "v"]), &threshold(3, 4));
    assert!(strict.iter().all(|fd| fd.determinant != k));
}

#[test]
fn confidence_of_several_dependents_is_that_of_the_weakest() {
    let rows = vec![
        row(&[("k", "1"), ("u", "x"), ("v", "p")]),
        row(&[("k", "1"), ("u", "x"), ("v", "q")]),
        row(&[("k", "2"), ("u", "y"), ("v", "r")]),
        row(&[("k", "3"), ("u", "z"), ("v", "s")]),
    ];
    let fd = evaluate(&rows, &names(&["k", "u", "v"]), &names(&["k"]), &threshold(1, 2)).unwrap();
    assert_eq!(shape(&fd), (names(&["k"]), names(&["u", "v"]), 2, 4, true));
}

#[test]
fn rows_with_a_null_determinant_do_not_count() {
    let rows = vec![
        row(&[("k", "1"), ("v", "x")]),
        row(&[("v", "y")]),
        row(&[("k", "1"), ("v", "x")]),
        row(&[("k", "2")]),
        row(&[("k", "2")]),
    ];
    assert_eq!(count_support(&rows, &names(&["k"]), &"v".to_string()), (4, 4));
    let found = discover(&rows, &names(&["k", "v"]), &threshold(1, 1));
    let fd = found.iter().find(|fd| fd.determinant == names(&["k"])).unwrap();
    assert_eq!(shape(fd), (names(&["k"]), names(&["v"]), 4, 4, true));
}

#[test]
fn constant_field_depends_on_the_empty_determinant() {
    let rows = vec![
        row(&[("id", "1"), ("country", "NZ")]),
        row(&[("id", "2"), ("country", "NZ")]),
        row(&[("id", "3"), ("country", "NZ")]),
    ];
    let found = discover(&rows, &names(&["id", "country"]), &threshold(1, 1));
    let shapes: Vec<_> = found.iter().map(shape).collect();
    assert_eq!(shapes, vec![(names(&[]), names(&["country"]), 3, 3, true)]);
    assert!(found[0].is_degenerate());
}

#[test]
fn malformed_input_yields_no_dependency() {
    let fields = names(&["id", "name", "email"]);
    let t = threshold(99, 100);
    assert!(discover(&Vec::new(), &fields, &t).is_empty());
    assert!(discover(&people()[..1].iter().map(|_| row(&[("id", "1")])).collect(), &fields, &t).is_empty());
    assert!(discover(&people(), &Vec::new(), &t).is_empty());
    assert!(discover(&people(), &names(&["id", "name", "id"]), &t).is_empty());
    assert!(discover(&people(), &fields, &threshold(1, 0)).is_empty());
    assert!(discover(&people(), &fields, &threshold(3, 2)).is_empty());
}

#[test]
fn determinant_size_is_capped() {
    let rows = vec![
        row(&[("a", "1"), ("b", "1"), ("c", "1"), ("d", "1"), ("e", "1")]),
        row(&[("a", "1"), ("b", "1"), ("c", "2"), ("d", "2"), ("e", "1")]),
        row(&[("a", "1"), ("b", "2"), ("c", "1"), ("d", "3"), ("e", "1")]),
        row(&[("a", "2"), ("b", "1"), ("c", "1"), ("d", "4"), ("e", "1")]),
        row(&[("a", "1"), ("b", "2"), ("c", "2"), ("d", "5"), ("e", "2")]),
        row(&[("a", "2"), ("b", "2"), ("c", "1"), ("d", "6"), ("e", "2")]),
        row(&[("a", "2"), ("b", "1"), ("c", "2"), ("d", "7"), ("e", "2")]),
        row(&[("a", "2"), ("b", "2"), ("c", "2"), ("d", "8"), ("e", "1")]),
    ];
    let fields = names(&["a", "b", "c", "d", "e"]);
    let t = threshold(1, 1);
    assert_eq!(DEFAULT_MAX_DETERMINANT, 3);
    for cap in 0..4usize {
        let found = discover_bounded(&rows, &fields, &t, cap);
        assert!(found.iter().all(|fd| fd.determinant.len() <= cap));
    }
    let three = discover_bounded(&rows, &fields, &t, 3);
    let abc = three.iter().find(|fd| fd.determinant == names(&["a", "b", "c"])).unwrap();
    assert_eq!(abc.dependent, names(&["d", "e"]));
    let two = discover_bounded(&rows, &fields, &t, 2);
    assert!(two.iter().all(|fd| !fd.dependent.contains(&"e".to_string()) || fd.determinant == names(&["d"])));
    assert_eq!(shape(&discover(&rows, &fields, &t)[0]), shape(&three[0]));
    assert_eq!(discover(&rows, &fields, &t).len(), three.len());
}

#[test]
fn minimality_looks_at_every_proper_part() {
    let rows = vec![
        row(&[("a", "1"), ("b", "1"), ("c", "1")]),
        row(&[("a", "1"), ("b", "2"), ("c", "2")]),
        row(&[("a", "2"), ("b", "1"), ("c", "3")]),
    ];
    let t = threshold(1, 1);
    assert!(check_minimal(&rows, &names(&["a", "b"]), &"c".to_string(), &t));
    assert!(check_minimal(&rows, &names(&["c"]), &"a".to_string(), &t));
    assert!(!check_minimal(&rows, &names(&["b", "c"]), &"a".to_string(), &t));
    assert!(!check_minimal(&rows, &names(&["a", "c"]), &"b".to_string(), &t));
    assert!(check_minimal(&rows, &names(&["c", "c"]), &"a".to_string(), &t));
    assert!(!check_minimal(&rows, &names(&["c", "b", "c"]), &"a".to_string(), &t));
}
