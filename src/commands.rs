//! The shell commands that build and run a test, filled in from the
//! configured templates.
use vstd::prelude::*;

use crate::config::CommandRunConfig;
use crate::structures::RpTest;
use crate::suite::{cc_test_object, ClassWithTests};
use crate::text::{chars_of, occurs_at, occurs_at_exec};

verus! {

/// What rendering `template` with the string values of `data` gives, or
/// `None` where the template does not compile or render.
pub uninterp spec fn rendered(template: Seq<char>, data: Seq<(Seq<char>, Seq<char>)>) -> Option<
    Seq<char>,
>;

pub open spec fn pair_views(v: Seq<(String, String)>) -> Seq<(Seq<char>, Seq<char>)> {
    v.map_values(|p: (String, String)| (p.0@, p.1@))
}

/// `{{` stands at `i`.
pub open spec fn opens_at(t: Seq<char>, i: int) -> bool {
    occurs_at(t, i, seq!['{', '{'])
}

/// A `*` stands somewhere after an opening `{{`: the template may hold a
/// decorator, such as an inline partial, which can include itself.
pub open spec fn may_decorate(t: Seq<char>) -> bool {
    exists|i: int, j: int|
        #[trigger] opens_at(t, i) && i + 2 <= j < t.len() && #[trigger] t[j] == '*'
}

/// Whether `t` may hold a decorator.
fn may_decorate_exec(t: &str) -> (r: bool)
    ensures
        r == may_decorate(t@),
{
    let cs = chars_of(t);
    let open = vec!['{', '{'];
    assert(open@ =~= seq!['{', '{']);
    let n = cs.len();
    let mut o: usize = 0;
    while o < n && !occurs_at_exec(&cs, o, &open)
        invariant
            cs@ == t@,
            n == t@.len(),
            open@ == seq!['{', '{'],
            o <= n,
            forall|i: int| 0 <= i < o ==> !opens_at(t@, i),
        decreases n - o,
    {
        o = o + 1;
    }
    if o >= n {
        assert forall|i: int, j: int|
            #[trigger] opens_at(t@, i) && i + 2 <= j < t@.len() implies #[trigger] t@[j] != '*' by {
            assert(i < o);
        }
        return false;
    }
    let mut j: usize = o + 2;
    if j > n {
        j = n;
    }
    while j < n
        invariant
            cs@ == t@,
            n == t@.len(),
            o < n,
            opens_at(t@, o as int),
            o + 2 <= j || j == n,
            j <= n,
            forall|i: int| 0 <= i < o ==> !opens_at(t@, i),
            forall|k: int| o + 2 <= k < j ==> t@[k] != '*',
        decreases n - j,
    {
        if cs[j] == '*' {
            assert(opens_at(t@, o as int) && o + 2 <= j < t@.len() && t@[j as int] == '*');
            return true;
        }
        j = j + 1;
    }
    assert forall|i: int, k: int|
        #[trigger] opens_at(t@, i) && i + 2 <= k < t@.len() implies #[trigger] t@[k] != '*' by {
        if i < o {
        }
    }
    false
}

/// Relies on handlebars' `Registry::render_template`, with HTML escaping
/// switched off: the text depends on the template and the values alone,
/// each value handed over as a JSON string under its name. A template with a
/// decorator is left out: an inline partial that includes itself makes the
/// call recurse without end.
#[verifier::external_body]
fn render(template: &str, data: &Vec<(String, String)>) -> (r: Option<String>)
    requires
        !may_decorate(template@),
    ensures
        match rendered(template@, pair_views(data@)) {
            Some(s) => r is Some && r->0@ == s,
            None => r is None,
        },
{
    let mut h = handlebars::Handlebars::new();
    h.register_escape_fn(handlebars::no_escape);
    let vars: serde_json::Map<String, serde_json::Value> = data
        .iter()
        .map(|(k, v)| (k.clone(), serde_json::Value::String(v.clone())))
        .collect();
    h.render_template(template, &vars).ok()
}

/// Why a command could not be built.
#[derive(Debug)]
pub enum CommandError {
    /// No template is configured under this name.
    MissingTemplate(String),
    /// The template under this name does not render, or may hold a decorator.
    Render(String),
}

/// The first template configured under `name`.
pub open spec fn template_of(m: Seq<(Seq<char>, Seq<char>)>, name: Seq<char>, i: int) -> Option<
    Seq<char>,
>
    decreases m.len() - i,
{
    if i < 0 || i >= m.len() {
        None
    } else if m[i].0 == name {
        Some(m[i].1)
    } else {
        template_of(m, name, i + 1)
    }
}

/// The command that the template `name` gives for `data`; a template that
/// may hold a decorator gives none.
pub open spec fn command_spec(
    m: Seq<(Seq<char>, Seq<char>)>,
    name: Seq<char>,
    data: Seq<(Seq<char>, Seq<char>)>,
) -> Option<Seq<char>> {
    match template_of(m, name, 0) {
        Some(t) => if may_decorate(t) {
            None
        } else {
            rendered(t, data)
        },
        None => None,
    }
}

fn find_template<'a>(config: &'a CommandRunConfig, name: &str) -> (r: Option<&'a String>)
    ensures
        match template_of(pair_views(config.command_mappings@), name@, 0) {
            Some(t) => r is Some && r->0@ == t,
            None => r is None,
        },
{
    let ghost m = pair_views(config.command_mappings@);
    let key = name.to_owned();
    let mut i: usize = 0;
    while i < config.command_mappings.len()
        invariant
            m == pair_views(config.command_mappings@),
            key@ == name@,
            i <= m.len(),
            template_of(m, name@, 0) == template_of(m, name@, i as int),
        decreases m.len() - i,
    {
        assert(m[i as int] == (config.command_mappings@[i as int].0@, config.command_mappings@[i as int].1@));
        if config.command_mappings[i].0.eq(&key) {
            return Some(&config.command_mappings[i].1);
        }
        i = i + 1;
    }
    None
}

/// The command that the template `name` gives for `data`.
fn render_command(config: &CommandRunConfig, name: &str, data: &Vec<(String, String)>) -> (r: Result<
    String,
    CommandError,
>)
    ensures
        match template_of(pair_views(config.command_mappings@), name@, 0) {
            None => r is Err && r->Err_0 is MissingTemplate,
            Some(t) => if may_decorate(t) {
                r is Err && r->Err_0 is Render
            } else {
                match rendered(t, pair_views(data@)) {
                    Some(s) => r is Ok && r->Ok_0@ == s,
                    None => r is Err && r->Err_0 is Render,
                }
            },
        },
{
    match find_template(config, name) {
        None => Err(CommandError::MissingTemplate(name.to_owned())),
        Some(t) => if may_decorate_exec(t.as_str()) {
            Err(CommandError::Render(name.to_owned()))
        } else {
            match render(t.as_str(), data) {
                Some(s) => Ok(s),
                None => Err(CommandError::Render(name.to_owned())),
            }
        },
    }
}

pub open spec fn compile_data(build_type: Seq<char>, test_obj: Seq<char>) -> Seq<(Seq<char>, Seq<char>)> {
    seq![("build_type"@, build_type), ("test_obj"@, test_obj)]
}

pub open spec fn run_data(
    build_type: Seq<char>,
    test_obj: Seq<char>,
    test_name: Seq<char>,
    pwd: Seq<char>,
) -> Seq<(Seq<char>, Seq<char>)> {
    seq![
        ("build_type"@, build_type),
        ("test_obj"@, test_obj),
        ("test_tag_arg"@, "-t "@ + test_name),
        ("pwd"@, pwd),
    ]
}

/// The commands that build and then run the binary of `test`, with the case
/// `test_name` selected: the `compile` and `run` templates, filled in.
pub fn build_cc_command(
    test: &RpTest,
    test_name: &str,
    command_config: &CommandRunConfig,
    build_type: &str,
    pwd: &str,
) -> (r: Result<Vec<String>, CommandError>)
    ensures
        ({
            let m = pair_views(command_config.command_mappings@);
            let obj = test.name@ + crate::suite::object_suffix(test.kind);
            let compile = command_spec(m, "compile"@, compile_data(build_type@, obj));
            let run = command_spec(m, "run"@, run_data(build_type@, obj, test_name@, pwd@));
            if compile is Some && run is Some {
                r is Ok && r->Ok_0.deep_view() == seq![compile->0, run->0]
            } else {
                r is Err
            }
        }),
{
    let test_obj = cc_test_object(test);
    let mut compile_vars: Vec<(String, String)> = Vec::new();
    compile_vars.push(("build_type".to_owned(), build_type.to_owned()));
    compile_vars.push(("test_obj".to_owned(), test_obj.clone()));
    assert(pair_views(compile_vars@) =~= compile_data(build_type@, test_obj@));
    let compile = match render_command(command_config, "compile", &compile_vars) {
        Ok(c) => c,
        Err(e) => return Err(e),
    };
    let mut tag_arg = "-t ".to_owned();
    tag_arg.append(test_name);
    let mut run_vars: Vec<(String, String)> = Vec::new();
    run_vars.push(("build_type".to_owned(), build_type.to_owned()));
    run_vars.push(("test_obj".to_owned(), test_obj));
    run_vars.push(("test_tag_arg".to_owned(), tag_arg));
    run_vars.push(("pwd".to_owned(), pwd.to_owned()));
    assert(pair_views(run_vars@) =~= run_data(build_type@, test.name@ + crate::suite::object_suffix(test.kind), test_name@, pwd@));
    let run = match render_command(command_config, "run", &run_vars) {
        Ok(c) => c,
        Err(e) => return Err(e),
    };
    let mut commands: Vec<String> = Vec::new();
    commands.push(compile);
    commands.push(run);
    assert(commands.deep_view() =~= seq![commands@[0]@, commands@[1]@]);
    Ok(commands)
}

pub open spec fn duck_data(path: Seq<char>, test_name: Seq<char>) -> Seq<(Seq<char>, Seq<char>)> {
    seq![("test_path"@, path + "."@ + test_name), ("test_args"@, "--repeat=1"@)]
}

/// The command that runs the case `test_name` of a Python test class: the
/// `duck` template, filled in.
pub fn build_py_command(test: &ClassWithTests, test_name: &str, command_config: &CommandRunConfig) -> (r:
    Result<Vec<String>, CommandError>)
    ensures
        ({
            let m = pair_views(command_config.command_mappings@);
            let path = test.source_path@ + "::"@ + test.class_name@;
            match command_spec(m, "duck"@, duck_data(path, test_name@)) {
                Some(c) => r is Ok && r->Ok_0.deep_view() == seq![c],
                None => r is Err,
            }
        }),
{
    let mut test_path = test.label();
    test_path.append(".");
    test_path.append(test_name);
    let mut vars: Vec<(String, String)> = Vec::new();
    vars.push(("test_path".to_owned(), test_path));
    vars.push(("test_args".to_owned(), "--repeat=1".to_owned()));
    assert(pair_views(vars@) =~= duck_data(test.source_path@ + "::"@ + test.class_name@, test_name@));
    let duck = match render_command(command_config, "duck", &vars) {
        Ok(c) => c,
        Err(e) => return Err(e),
    };
    let mut commands: Vec<String> = Vec::new();
    commands.push(duck);
    assert(commands.deep_view() =~= seq![commands@[0]@]);
    Ok(commands)
}

} // verus!
