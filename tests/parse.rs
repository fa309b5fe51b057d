use snipe::lazy_binding::{LazyBinding, Transform};
use snipe::parsers::{decl_from_tokens, parse_unit};
use snipe::scanner::Input;
use snipe::structures::{ParseError, ParsedTag, RpTest, SourceSet, TestKind};

fn strings(xs: &[&str]) -> Vec<String> {
    xs.iter().map(|s| s.to_string()).collect()
}

fn sorted(mut v: Vec<String>) -> Vec<String> {
    v.sort();
    v
}

fn find<'a>(tests: &'a [RpTest], name: &str) -> &'a RpTest {
    tests.iter().find(|t| t.name == name).expect("declaration missing")
}

#[test]
fn loop_with_derived_stem_yields_one_test_per_member() {
    let text = "set(SRC a.cc b.cc)\n\
                foreach(F ${SRC})\n\
                  get_filename_component(STEM ${F} NAME_WE)\n\
                  rp_test(UNIT_TEST BINARY_NAME test_${STEM} SOURCES ${F})\n\
                endforeach()\n";
    let ctx = parse_unit(text).unwrap();
    let tests = ctx.tests();
    assert_eq!(tests.len(), 2);
    let a = find(tests, "test_a");
    assert_eq!(a.sources, strings(&["a.cc"]));
    assert_eq!(a.kind, TestKind::Unit);
    assert!(a.tests.is_empty());
    let b = find(tests, "test_b");
    assert_eq!(b.sources, strings(&["b.cc"]));
}

#[test]
fn derived_name_strips_cc_suffix() {
    let text = "set(SRC x.cc y.hpp)\n\
                foreach(F ${SRC})\n\
                get_filename_component(STEM ${F} NAME_WE)\n\
                rp_test(UNIT_TEST BINARY_NAME t_${STEM} SOURCES ${F})\n\
                endforeach()";
    let ctx = parse_unit(text).unwrap();
    let names = sorted(ctx.tests().iter().map(|t| t.name.clone()).collect());
    assert_eq!(names, strings(&["t_x", "t_y.hpp"]));
}

#[test]
fn loop_start_without_test_declaration_is_malformed() {
    let text = "set(SRC a.cc b.cc)\nforeach(F ${SRC})\nendforeach()\n";
    match parse_unit(text) {
        Err(ParseError::UnexpectedTag(ParsedTag::EndForEach)) => {}
        other => panic!("unexpected result {:?}", other),
    }
}

#[test]
fn nested_loop_is_refused() {
    let text = "set(S a)\nforeach(F ${S})\nforeach(G ${S})\nendforeach()\nendforeach()";
    match parse_unit(text) {
        Err(ParseError::UnexpectedTag(ParsedTag::ForEach)) => {}
        other => panic!("unexpected result {:?}", other),
    }
}

#[test]
fn stray_loop_end_is_refused() {
    match parse_unit("endforeach()") {
        Err(ParseError::UnexpectedTag(ParsedTag::EndForEach)) => {}
        other => panic!("unexpected result {:?}", other),
    }
}

#[test]
fn redeclared_set_replaces_the_first() {
    let text = "set(S a.cc)\n\
                foreach(F ${S})\nrp_test(UNIT_TEST BINARY_NAME first_${F} SOURCES ${F})\nendforeach()\n\
                set(S b.cc c.cc)\n\
                rp_test(FIXTURE_TEST BINARY_NAME later SOURCES ${S})\n";
    let ctx = parse_unit(text).unwrap();
    let tests = ctx.tests();
    assert_eq!(tests.len(), 2);
    assert_eq!(find(tests, "first_a.cc").sources, strings(&["a.cc"]));
    let later = find(tests, "later");
    assert_eq!(later.kind, TestKind::Fixture);
    assert_eq!(sorted(later.sources.clone()), strings(&["b.cc", "c.cc"]));
}

#[test]
fn loop_keeps_literal_sources() {
    let text = "set(S one two three)\n\
                foreach(V ${S})\nrp_test(BENCHMARK_TEST BINARY_NAME bench_${V} SOURCES main.cc util.cc)\nendforeach()";
    let ctx = parse_unit(text).unwrap();
    let tests = ctx.tests();
    assert_eq!(tests.len(), 3);
    for t in tests {
        assert_eq!(t.sources, strings(&["main.cc", "util.cc"]));
        assert_eq!(t.kind, TestKind::Bench);
    }
}

#[test]
fn set_reference_outside_loop_expands_to_members() {
    let text = "set(S a.cc b.cc a.cc)\nrp_test(UNIT_TEST BINARY_NAME t SOURCES ${S} ${S} extra.cc)";
    let ctx = parse_unit(text).unwrap();
    let t = find(ctx.tests(), "t");
    assert_eq!(t.sources, strings(&["a.cc", "b.cc", "extra.cc"]));
}

#[test]
fn unknown_set_in_sources_is_reported() {
    match parse_unit("rp_test(UNIT_TEST BINARY_NAME t SOURCES ${NOPE})") {
        Err(ParseError::UnknownSymbol(s)) => assert_eq!(s, "NOPE"),
        other => panic!("unexpected result {:?}", other),
    }
}

#[test]
fn unknown_loop_set_is_reported() {
    match parse_unit("foreach(F ${MISSING})\nrp_test(UNIT_TEST BINARY_NAME t SOURCES x)\nendforeach()") {
        Err(ParseError::UnknownSymbol(s)) => assert_eq!(s, "MISSING"),
        other => panic!("unexpected result {:?}", other),
    }
}

#[test]
fn unknown_placeholder_in_loop_name_is_reported() {
    let text = "set(S a)\nforeach(F ${S})\nrp_test(UNIT_TEST BINARY_NAME t_${G} SOURCES ${F})\nendforeach()";
    match parse_unit(text) {
        Err(ParseError::UnknownSymbol(s)) => assert_eq!(s, "G"),
        other => panic!("unexpected result {:?}", other),
    }
}

#[test]
fn unknown_kind_is_reported() {
    match parse_unit("rp_test(OTHER_TEST BINARY_NAME t SOURCES a.cc)") {
        Err(ParseError::UnknownKind(s)) => assert_eq!(s, "OTHER_TEST"),
        other => panic!("unexpected result {:?}", other),
    }
}

#[test]
fn missing_markers_are_reported() {
    match parse_unit("rp_test(UNIT_TEST SOURCES a.cc)") {
        Err(ParseError::MissingMarker(s)) => assert_eq!(s, "BINARY_NAME"),
        other => panic!("unexpected result {:?}", other),
    }
    match parse_unit("rp_test(UNIT_TEST BINARY_NAME t)") {
        Err(ParseError::MissingMarker(s)) => assert_eq!(s, "SOURCES"),
        other => panic!("unexpected result {:?}", other),
    }
}

#[test]
fn malformed_constructs_are_reported() {
    match parse_unit("set(A b;c)") {
        Err(ParseError::Malformed(ParsedTag::SetDecl)) => {}
        other => panic!("unexpected result {:?}", other),
    }
    match parse_unit("rp_test(UNIT_TEST BINARY_NAME t SOURCES a.cc;") {
        Err(ParseError::Malformed(ParsedTag::RpTest)) => {}
        other => panic!("unexpected result {:?}", other),
    }
    match parse_unit("set(S a)\nforeach(F S)\nendforeach()") {
        Err(ParseError::Malformed(ParsedTag::ForEach)) => {}
        other => panic!("unexpected result {:?}", other),
    }
}

#[test]
fn sources_stop_at_next_keyed_group() {
    let text = "rp_test(\n  UNIT_TEST\n  BINARY_NAME t\n  SOURCES a.cc b.cc\n  LIBRARIES v::lib\n  ARGS \"-c 1\"\n)";
    let ctx = parse_unit(text).unwrap();
    let t = find(ctx.tests(), "t");
    assert_eq!(t.sources, strings(&["a.cc", "b.cc"]));
}

#[test]
fn unrelated_text_is_skipped_and_empty_input_is_empty() {
    let ctx = parse_unit("# comment\nadd_library(x y)\nmessage(hello)\n").unwrap();
    assert!(ctx.tests().is_empty());
    let ctx = parse_unit("").unwrap();
    assert!(ctx.tests().is_empty());
}

#[test]
fn same_name_overwrites_earlier_declaration() {
    let text = "rp_test(UNIT_TEST BINARY_NAME t SOURCES a.cc)\nrp_test(FIXTURE_TEST BINARY_NAME t SOURCES b.cc)";
    let ctx = parse_unit(text).unwrap();
    assert_eq!(ctx.tests().len(), 1);
    assert_eq!(ctx.tests()[0].kind, TestKind::Fixture);
    assert_eq!(ctx.tests()[0].sources, strings(&["b.cc"]));
}

#[test]
fn keywords_with_space_before_parenthesis() {
    let text = "set (S a.cc)\nrp_test (UNIT_TEST BINARY_NAME t SOURCES ${S})";
    let ctx = parse_unit(text).unwrap();
    assert_eq!(find(ctx.tests(), "t").sources, strings(&["a.cc"]));
}

#[test]
fn tag_names_from_text() {
    assert_eq!(ParsedTag::from_str("set("), ParsedTag::SetDecl);
    assert_eq!(ParsedTag::from_str("foreach ("), ParsedTag::ForEach);
    assert_eq!(ParsedTag::from_str("endforeach()"), ParsedTag::EndForEach);
    assert_eq!(ParsedTag::from_str("rp_test("), ParsedTag::RpTest);
    assert_eq!(ParsedTag::from_str("get_filename_component ("), ParsedTag::GetFileNameComponent);
    assert_eq!(ParsedTag::from_str(""), ParsedTag::EOF);
}

#[test]
fn scanner_finds_next_keyword() {
    let input = Input::new("xx rp_test (UNIT_TEST");
    assert_eq!(input.skip_to_next_tag(0), (12, ParsedTag::RpTest));
    let input = Input::new("nothing here");
    assert_eq!(input.skip_to_next_tag(0), (12, ParsedTag::EOF));
}

#[test]
fn source_set_collapses_duplicates() {
    let s = SourceSet::new(strings(&["S", "a", "b", "a"]));
    assert_eq!(s.name, "S");
    assert_eq!(s.files, strings(&["a", "b"]));
}

#[test]
fn binding_table_materializes_derived_values() {
    let mut table = LazyBinding::new();
    table.add("F");
    table.add_transformed("STEM", "F", Transform::StripCcSuffix);
    table.populate("F", "foo.cc");
    let first = table.to_map();
    let second = table.to_map();
    assert_eq!(first.get(&"F".to_string()).unwrap(), "foo.cc");
    assert_eq!(first.get(&"STEM".to_string()).unwrap(), "foo");
    assert_eq!(first.len(), 2);
    assert_eq!(format!("{:?}", first), format!("{:?}", second));
    table.populate("F", "bar.cc.cc");
    let third = table.to_map();
    assert_eq!(third.get(&"STEM".to_string()).unwrap(), "bar");
    assert!(third.get(&"OTHER".to_string()).is_none());
}

#[test]
fn strip_transform_removes_every_marker() {
    assert_eq!(Transform::StripCcSuffix.apply("a.cc.cc"), "a");
    assert_eq!(Transform::StripCcSuffix.apply("x.ccc"), "xc");
    assert_eq!(Transform::StripCcSuffix.apply("plain.h"), "plain.h");
    assert_eq!(Transform::StripCcSuffix.apply(""), "");
}

#[test]
fn name_placeholder_is_substituted() {
    let mut table = LazyBinding::new();
    table.add("X");
    table.populate("X", "val");
    let vars = table.to_map();
    let t = RpTest {
        name: "pre_${X}_post".to_string(),
        sources: strings(&["${X}", "lit.cc"]),
        kind: TestKind::Unit,
        tests: vec![],
    };
    let r = t.eval(&vars).unwrap();
    assert_eq!(r.name, "pre_val_post");
    assert_eq!(r.sources, strings(&["val", "lit.cc"]));
    let plain = RpTest { name: "no_placeholder".to_string(), ..t.clone() };
    assert_eq!(plain.eval_name(&vars).unwrap(), "no_placeholder");
}

#[test]
fn needs_expansion_checks_for_dollar() {
    let t = RpTest {
        name: "t".to_string(),
        sources: strings(&["a.cc", "x$y"]),
        kind: TestKind::Unit,
        tests: vec![],
    };
    assert!(t.needs_source_expansion());
    let u = RpTest { sources: strings(&["a.cc"]), ..t };
    assert!(!u.needs_source_expansion());
}

#[test]
fn unclosed_derived_name_declaration_is_malformed() {
    let text = "set(S a.cc)\nforeach(F ${S})\nget_filename_component(STEM ${F} NAME_WE";
    match parse_unit(text) {
        Err(ParseError::Malformed(ParsedTag::GetFileNameComponent)) => {}
        other => panic!("unexpected result {:?}", other),
    }
}

#[test]
fn derived_name_outside_loop_is_ignored() {
    let text = "get_filename_component(X y NAME_WE)\nrp_test(UNIT_TEST BINARY_NAME t SOURCES a.cc)";
    let ctx = parse_unit(text).unwrap();
    assert_eq!(ctx.tests().len(), 1);
}

#[test]
fn any_uppercase_token_stops_the_source_list() {
    let decl = decl_from_tokens(&strings(&["UNIT_TEST", "BINARY_NAME", "t", "SOURCES", "a.cc", "Ü", "b.cc"])).unwrap();
    assert_eq!(decl.sources, strings(&["a.cc"]));
    let ctx = parse_unit("rp_test(UNIT_TEST BINARY_NAME u SOURCES x.cc README y.cc)").unwrap();
    assert_eq!(find(ctx.tests(), "u").sources, strings(&["x.cc"]));
}

#[test]
fn two_set_references_expand_to_their_union() {
    let text = "set(S a.cc b.cc)\nset(T b.cc c.cc)\nrp_test(UNIT_TEST BINARY_NAME t SOURCES lit.cc ${S} ${T})";
    let ctx = parse_unit(text).unwrap();
    let t = find(ctx.tests(), "t");
    assert_eq!(t.sources, strings(&["lit.cc", "a.cc", "b.cc", "c.cc"]));
}

#[test]
fn loop_named_by_derived_stem_alone() {
    let text = "set(M x.cc y.cc.cc z.h)\nforeach(F ${M})\nget_filename_component(D ${F} NAME_WE)\n\
                rp_test(UNIT_TEST BINARY_NAME ${D} SOURCES ${F})\nendforeach()";
    let ctx = parse_unit(text).unwrap();
    let tests = ctx.tests();
    assert_eq!(tests.len(), 3);
    assert_eq!(find(tests, "x").sources, strings(&["x.cc"]));
    assert_eq!(find(tests, "y").sources, strings(&["y.cc.cc"]));
    assert_eq!(find(tests, "z.h").sources, strings(&["z.h"]));
}
