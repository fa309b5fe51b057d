use snipe::env_file::{build_type_of, parse_env_rows};
use snipe::structures::{RpTest, TestKind as DeclKind};
use snipe::suite::{
    cc_test_object, collect_test_names, command_line_kind, find_matching_tests, get_db_file, CcTest, ClassWithTests,
    TestKind, TestSuite,
};

fn strings(xs: &[&str]) -> Vec<String> {
    xs.iter().map(|s| s.to_string()).collect()
}

fn decl(name: &str, kind: DeclKind, cases: &[&str]) -> RpTest {
    RpTest { name: name.to_string(), sources: vec![], kind, tests: strings(cases) }
}

#[test]
fn db_file_names() {
    assert_eq!(get_db_file(&TestKind::Cc), "cc.json");
    assert_eq!(get_db_file(&TestKind::Py), "py.json");
}

#[test]
fn suites_match_by_case_name() {
    let c = TestSuite::C(decl("d", DeclKind::Unit, &["alpha", "beta"]));
    let p = TestSuite::P(ClassWithTests {
        source_path: "tests/x.py".to_string(),
        tests: strings(&["gamma"]),
        class_name: "XTest".to_string(),
    });
    assert!(c.matches(&"beta".to_string()));
    assert!(!c.matches(&"gamma".to_string()));
    assert!(p.matches(&"gamma".to_string()));
    assert!(!TestSuite::NotFound.matches(&"alpha".to_string()));
    let found = find_matching_tests(vec![c.clone(), p.clone(), TestSuite::NotFound], &"gamma".to_string());
    assert_eq!(found.len(), 1);
    assert_eq!(found[0].label(), "tests/x.py::XTest");
    let names = collect_test_names(&vec![c, p, TestSuite::NotFound]);
    assert_eq!(names, strings(&["alpha", "beta", "gamma"]));
}

#[test]
fn labels_and_objects() {
    let d = decl("storage", DeclKind::Fixture, &[]);
    assert_eq!(d.label(), "storage (Fixture)");
    assert_eq!(TestSuite::NotFound.label(), "None");
    assert_eq!(cc_test_object(&d), "storage_rpfixture");
    assert_eq!(cc_test_object(&decl("u", DeclKind::Unit, &[])), "u_rpunit");
    assert_eq!(cc_test_object(&decl("b", DeclKind::Bench, &[])), "b_rpbench");
}

#[test]
fn cc_test_holds_tag_and_name() {
    let t = CcTest::new("FIXTURE_TEST", "my_case");
    assert_eq!(t.tag, "FIXTURE_TEST");
    assert_eq!(t.name, "my_case");
}

#[test]
fn completion_request_names_a_kind() {
    assert_eq!(command_line_kind("snipe,--cli-content,cc"), Some(TestKind::Cc));
    assert_eq!(command_line_kind("py,x"), Some(TestKind::Py));
    assert_eq!(command_line_kind("py,cc"), Some(TestKind::Cc));
    assert_eq!(command_line_kind("ccc,pyy"), None);
    assert_eq!(command_line_kind(""), None);
}

#[test]
fn env_rows_and_build_type() {
    let rows = parse_env_rows(" A = 1 \nBUILD_TYPE=release\nBUILD_TYPE = debug=x\n").unwrap();
    assert_eq!(
        rows,
        vec![
            ("A".to_string(), "1".to_string()),
            ("BUILD_TYPE".to_string(), "release".to_string()),
            ("BUILD_TYPE".to_string(), "debug".to_string()),
        ]
    );
    assert_eq!(build_type_of(&rows), "debug");
    assert_eq!(build_type_of(&vec![]), "DEBUG");
    assert!(parse_env_rows("A=1\nno separator\n").is_none());
    assert_eq!(parse_env_rows("").unwrap(), vec![]);
}
