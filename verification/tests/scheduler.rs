use noir_lib::lex::{lex_less, to_chars};
use noir_lib::model::{CompilationUnit, DependencyGraph};
use noir_lib::scheduler::{independent, needs, order};
use noir_lib::validator::{validate, ValidatedGraph};

fn unit(identity: &str, dependencies: &[&str]) -> CompilationUnit {
    CompilationUnit {
        identity: identity.to_string(),
        source: String::new(),
        dependencies: dependencies.iter().map(|d| d.to_string()).collect(),
        is_contract: None,
    }
}

fn validated(entry: &str, units: Vec<CompilationUnit>) -> ValidatedGraph {
    validate(&DependencyGraph { units }, &entry.to_string()).unwrap()
}

fn names(list: &[&str]) -> Vec<String> {
    list.iter().map(|s| s.to_string()).collect()
}

#[test]
fn unit_without_dependencies_is_its_own_schedule() {
    let g = validated("E", vec![unit("E", &[])]);
    assert_eq!(order(&g, &"E".to_string()), names(&["E"]));
}

#[test]
fn dependencies_come_before_dependents() {
    let g = validated("E", vec![unit("E", &["A"]), unit("A", &["B"]), unit("B", &[])]);
    assert_eq!(order(&g, &"E".to_string()), names(&["B", "A", "E"]));
}

#[test]
fn least_identity_goes_first_among_units_that_could_come_next() {
    let g = validated(
        "app",
        vec![
            unit("app", &["zeta", "beta", "alpha"]),
            unit("zeta", &[]),
            unit("beta", &[]),
            unit("alpha", &["zeta"]),
        ],
    );
    assert_eq!(order(&g, &"app".to_string()), names(&["beta", "zeta", "alpha", "app"]));
}

#[test]
fn schedule_does_not_depend_on_declaration_order() {
    let forward = validated(
        "E",
        vec![unit("E", &["L", "R"]), unit("L", &["base"]), unit("R", &["base"]), unit("base", &[])],
    );
    let backward = validated(
        "E",
        vec![unit("base", &[]), unit("R", &["base"]), unit("L", &["base"]), unit("E", &["R", "L"])],
    );
    assert_eq!(order(&forward, &"E".to_string()), names(&["base", "L", "R", "E"]));
    assert_eq!(order(&backward, &"E".to_string()), names(&["base", "L", "R", "E"]));
}

#[test]
fn units_the_entry_point_does_not_reach_are_left_out() {
    let g = validated(
        "E",
        vec![unit("a", &[]), unit("E", &["m"]), unit("m", &[]), unit("z", &["E"])],
    );
    assert_eq!(order(&g, &"E".to_string()), names(&["m", "E"]));
    assert_eq!(order(&g, &"z".to_string()), names(&["m", "E", "z"]));
    assert_eq!(order(&g, &"a".to_string()), names(&["a"]));
}

#[test]
fn undeclared_entry_point_has_an_empty_schedule() {
    let g = validated("E", vec![unit("E", &[])]);
    assert_eq!(order(&g, &"nobody".to_string()), Vec::<String>::new());
}

#[test]
fn identities_are_ordered_by_code_point() {
    let g = validated(
        "root",
        vec![
            unit("root", &["b", "B", "a10", "a9", "a", "é", "z"]),
            unit("b", &[]),
            unit("B", &[]),
            unit("a10", &[]),
            unit("a9", &[]),
            unit("a", &[]),
            unit("é", &[]),
            unit("z", &[]),
        ],
    );
    assert_eq!(
        order(&g, &"root".to_string()),
        names(&["B", "a", "a10", "a9", "b", "z", "é", "root"])
    );
}

#[test]
fn lex_less_agrees_with_the_order_of_strings() {
    let samples = ["", "a", "A", "ab", "abc", "abd", "b", "é", "z", "zz", "日本", "a\u{10FFFF}"];
    for x in samples.iter() {
        for y in samples.iter() {
            assert_eq!(lex_less(&to_chars(x), &to_chars(y)), x < y, "{:?} < {:?}", x, y);
        }
    }
}

#[test]
fn to_chars_gives_the_characters_in_order() {
    assert_eq!(to_chars(""), Vec::<char>::new());
    assert_eq!(to_chars("aé日"), vec!['a', 'é', '日']);
}

#[test]
fn needs_follows_dependencies_to_any_depth() {
    let g = validated(
        "E",
        vec![unit("E", &["A", "C"]), unit("A", &["B"]), unit("B", &[]), unit("C", &[])],
    );
    let id = |s: &str| s.to_string();
    assert!(needs(&g, &id("E"), &id("E")));
    assert!(needs(&g, &id("E"), &id("B")));
    assert!(needs(&g, &id("A"), &id("B")));
    assert!(!needs(&g, &id("B"), &id("A")));
    assert!(!needs(&g, &id("A"), &id("C")));
    assert!(!needs(&g, &id("E"), &id("nobody")));
    assert!(!needs(&g, &id("nobody"), &id("E")));
    assert!(!needs(&g, &id("nobody"), &id("nobody")));
}

#[test]
fn independent_units_are_those_that_do_not_need_each_other() {
    let g = validated(
        "E",
        vec![unit("E", &["A", "C"]), unit("A", &["B"]), unit("B", &[]), unit("C", &[])],
    );
    let id = |s: &str| s.to_string();
    assert!(independent(&g, &id("A"), &id("C")));
    assert!(independent(&g, &id("C"), &id("B")));
    assert!(!independent(&g, &id("A"), &id("B")));
    assert!(!independent(&g, &id("B"), &id("A")));
    assert!(!independent(&g, &id("E"), &id("C")));
    assert!(!independent(&g, &id("A"), &id("A")));
    assert!(!independent(&g, &id("A"), &id("nobody")));
}
