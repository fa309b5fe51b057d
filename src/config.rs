//! The settings that the command line reads: where to look for tests, the
//! command templates, and the environment the commands run in.
use vstd::prelude::*;

verus! {

/// Where the test sources are searched for.
#[derive(Clone, Debug)]
pub struct ScanConfig {
    pub cc_test_root: String,
    pub py_test_root: String,
}

impl ScanConfig {
    /// The name of the file that holds this configuration.
    pub fn filename() -> (r: String)
        ensures
            r@ == "scan_config.json"@,
    {
        "scan_config.json".to_owned()
    }
}

impl Default for ScanConfig {
    fn default() -> (r: ScanConfig)
        ensures
            r.cc_test_root@ == "src/v"@,
            r.py_test_root@ == "tests/rptest"@,
    {
        ScanConfig { cc_test_root: "src/v".to_owned(), py_test_root: "tests/rptest".to_owned() }
    }
}

/// Command templates by name.
#[derive(Clone, Debug)]
pub struct CommandRunConfig {
    pub command_mappings: Vec<(String, String)>,
}

impl CommandRunConfig {
    /// The name of the file that holds this configuration.
    pub fn filename() -> (r: String)
        ensures
            r@ == "command_config.json"@,
    {
        "command_config.json".to_owned()
    }
}

impl Default for CommandRunConfig {
    fn default() -> (r: CommandRunConfig)
        ensures
            r.command_mappings@.len() == 3,
            r.command_mappings@[0].0@ == "duck"@,
            r.command_mappings@[0].1@
                == "task rp:run-ducktape-tests DUCKTAPE_ARGS=\"{{test_path}} {{test_args}}\""@,
            r.command_mappings@[1].0@ == "compile"@,
            r.command_mappings@[1].1@
                == "ninja -C vbuild/{{build_type}}/clang -j 25 bin/{{test_obj}}"@,
            r.command_mappings@[2].0@ == "run"@,
            r.command_mappings@[2].1@
                == "./tools/cmake_test.py --binary {{pwd}}/vbuild/{{build_type}}/clang/bin/{{test_obj}} {{test_tag_arg}} -- -c1"@,
    {
        let mut m: Vec<(String, String)> = Vec::new();
        m.push(
            (
                "duck".to_owned(),
                "task rp:run-ducktape-tests DUCKTAPE_ARGS=\"{{test_path}} {{test_args}}\"".to_owned(),
            ),
        );
        m.push(
            (
                "compile".to_owned(),
                "ninja -C vbuild/{{build_type}}/clang -j 25 bin/{{test_obj}}".to_owned(),
            ),
        );
        m.push(
            (
                "run".to_owned(),
                "./tools/cmake_test.py --binary {{pwd}}/vbuild/{{build_type}}/clang/bin/{{test_obj}} {{test_tag_arg}} -- -c1".to_owned(),
            ),
        );
        CommandRunConfig { command_mappings: m }
    }
}

/// Environment variables that the commands run with.
#[derive(Clone, Debug)]
pub struct CommandEnv {
    pub envs: Vec<(String, String)>,
}

impl CommandEnv {
    /// The name of the file that holds this configuration.
    pub fn filename() -> (r: String)
        ensures
            r@ == "command_env.json"@,
    {
        "command_env.json".to_owned()
    }
}

impl Default for CommandEnv {
    fn default() -> (r: CommandEnv)
        ensures
            r.envs@.len() == 4,
            r.envs@[0].0@ == "RP_TRIM_LOGS"@ && r.envs@[0].1@ == "false"@,
            r.envs@[1].0@ == "ENABLE_GIT_VERSION"@ && r.envs@[1].1@ == "OFF"@,
            r.envs@[2].0@ == "ENABLE_GIT_HASH"@ && r.envs@[2].1@ == "OFF"@,
            r.envs@[3].0@ == "REDPANDA_LOG_LEVEL"@ && r.envs@[3].1@ == "trace"@,
    {
        let mut e: Vec<(String, String)> = Vec::new();
        e.push(("RP_TRIM_LOGS".to_owned(), "false".to_owned()));
        e.push(("ENABLE_GIT_VERSION".to_owned(), "OFF".to_owned()));
        e.push(("ENABLE_GIT_HASH".to_owned(), "OFF".to_owned()));
        e.push(("REDPANDA_LOG_LEVEL".to_owned(), "trace".to_owned()));
        CommandEnv { envs: e }
    }
}

} // verus!
