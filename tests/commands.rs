use snipe::commands::{build_cc_command, build_py_command, CommandError};
use snipe::config::CommandRunConfig;
use snipe::structures::{RpTest, TestKind};
use snipe::suite::ClassWithTests;

fn decl(name: &str, kind: TestKind) -> RpTest {
    RpTest { name: name.to_string(), sources: vec![], kind, tests: vec![] }
}

#[test]
fn cc_commands_fill_in_the_default_templates() {
    let config = CommandRunConfig::default();
    let cmds = build_cc_command(&decl("storage", TestKind::Unit), "my_case", &config, "release", "/src").unwrap();
    assert_eq!(
        cmds,
        vec![
            "ninja -C vbuild/release/clang -j 25 bin/storage_rpunit".to_string(),
            "./tools/cmake_test.py --binary /src/vbuild/release/clang/bin/storage_rpunit -t my_case -- -c1".to_string(),
        ]
    );
}

#[test]
fn py_command_fills_in_the_duck_template() {
    let config = CommandRunConfig::default();
    let class = ClassWithTests {
        source_path: "tests/rptest/x_test.py".to_string(),
        tests: vec!["test_y".to_string()],
        class_name: "XTest".to_string(),
    };
    let cmds = build_py_command(&class, "test_y", &config).unwrap();
    assert_eq!(
        cmds,
        vec!["task rp:run-ducktape-tests DUCKTAPE_ARGS=\"tests/rptest/x_test.py::XTest.test_y --repeat=1\"".to_string()]
    );
}

#[test]
fn missing_or_broken_templates_are_reported() {
    let empty = CommandRunConfig { command_mappings: vec![] };
    match build_cc_command(&decl("t", TestKind::Bench), "c", &empty, "debug", "/") {
        Err(CommandError::MissingTemplate(n)) => assert_eq!(n, "compile"),
        other => panic!("unexpected result {:?}", other),
    }
    let broken = CommandRunConfig { command_mappings: vec![("duck".to_string(), "{{#if}".to_string())] };
    let class = ClassWithTests { source_path: "p".to_string(), tests: vec![], class_name: "C".to_string() };
    match build_py_command(&class, "t", &broken) {
        Err(CommandError::Render(n)) => assert_eq!(n, "duck"),
        other => panic!("unexpected result {:?}", other),
    }
}

#[test]
fn templates_that_may_hold_decorators_are_refused() {
    let looping = CommandRunConfig {
        command_mappings: vec![(
            "duck".to_string(),
            "{{#*inline \"p\"}}{{> p}}{{/inline}}{{> p}}".to_string(),
        )],
    };
    let class = ClassWithTests { source_path: "p".to_string(), tests: vec![], class_name: "C".to_string() };
    match build_py_command(&class, "t", &looping) {
        Err(CommandError::Render(n)) => assert_eq!(n, "duck"),
        other => panic!("unexpected result {:?}", other),
    }
    let plain_star = CommandRunConfig {
        command_mappings: vec![("duck".to_string(), "ls *.cc {{test_path}}".to_string())],
    };
    assert_eq!(build_py_command(&class, "t", &plain_star).unwrap(), vec!["ls *.cc p::C.t".to_string()]);
}
