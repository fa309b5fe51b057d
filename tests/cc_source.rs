use snipe::cc_source::{parse_test_name_from_source, ScanError, SplitOn};

fn tags() -> Vec<String> {
    ["FIXTURE_TEST", "SEASTAR_THREAD_TEST_CASE", "BOOST_AUTO_TEST_CASE"]
        .iter()
        .map(|s| s.to_string())
        .collect()
}

#[test]
fn finds_declared_cases_in_order() {
    let data = "#include <x>\n\
                FIXTURE_TEST(test_one, fixture) {\n}\n\
                  SEASTAR_THREAD_TEST_CASE( test_two ) {\r\n}\n\
                BOOST_AUTO_TEST_CASE(\n    test_three,\n    * label) {}\n";
    let found = parse_test_name_from_source(data, &tags(), SplitOn::Delim(",")).unwrap();
    let pairs: Vec<(String, String)> = found.into_iter().map(|t| (t.tag, t.name)).collect();
    assert_eq!(
        pairs,
        vec![
            ("FIXTURE_TEST".to_string(), "test_one".to_string()),
            ("SEASTAR_THREAD_TEST_CASE".to_string(), "test_two".to_string()),
            ("BOOST_AUTO_TEST_CASE".to_string(), "test_three".to_string()),
        ]
    );
}

#[test]
fn unclosed_macro_is_an_error() {
    match parse_test_name_from_source("FIXTURE_TEST(never_closed,\n", &tags(), SplitOn::Delim(",")) {
        Err(ScanError::MissingClosingParen) => {}
        other => panic!("unexpected result {:?}", other),
    }
}

#[test]
fn no_declarations_gives_nothing() {
    let found = parse_test_name_from_source("int main() { return 0; }\n", &tags(), SplitOn::Delim(",")).unwrap();
    assert!(found.is_empty());
    let found = parse_test_name_from_source("", &tags(), SplitOn::Delim(",")).unwrap();
    assert!(found.is_empty());
}
