//! Test declarations, named source sets and the evaluation context, with
//! the rules that resolve the placeholders in a declaration.
use vstd::prelude::*;

use crate::assoc::{
    keys_unique, lemma_pairs_map_absent, lemma_pairs_map_index, lemma_pairs_map_push,
    lemma_pairs_map_update, pairs_map,
};
use crate::lazy_binding::ValueMap;
use crate::text::{
    add_all, insert_unique, lemma_add_all, lemma_replace_all_absent, lemma_set_insert_no_dup,
    replace_all, replace_all_exec, set_insert,
};

verus! {

/// The three kinds of test that a declaration may name.
#[derive(Clone, Copy, Debug, PartialEq, Eq, Structural)]
pub enum TestKind {
    Unit,
    Fixture,
    Bench,
}

impl TestKind {
    /// The kind's display name.
    pub fn name(&self) -> (r: &'static str)
        ensures
            r@ == kind_name(*self),
    {
        proof {
            reveal_strlit("Unit");
            reveal_strlit("Fixture");
            reveal_strlit("Bench");
        }
        match self {
            TestKind::Unit => "Unit",
            TestKind::Fixture => "Fixture",
            TestKind::Bench => "Bench",
        }
    }
}

pub open spec fn kind_name(k: TestKind) -> Seq<char> {
    match k {
        TestKind::Unit => seq!['U', 'n', 'i', 't'],
        TestKind::Fixture => seq!['F', 'i', 'x', 't', 'u', 'r', 'e'],
        TestKind::Bench => seq!['B', 'e', 'n', 'c', 'h'],
    }
}

/// The constructs that the scanner recognizes, and the end of the input.
#[derive(Clone, Copy, Debug, PartialEq, Eq, Structural)]
pub enum ParsedTag {
    SetDecl,
    ForEach,
    EndForEach,
    RpTest,
    GetFileNameComponent,
    EOF,
}

/// Why a parse was abandoned.
#[derive(Debug)]
pub enum ParseError {
    /// The construct opened by the tag lacks a required part.
    Malformed(ParsedTag),
    /// A test declaration whose first token names no known kind.
    UnknownKind(String),
    /// A test declaration without the marker token given, or with nothing after it.
    MissingMarker(String),
    /// A tag that may not stand where it was found.
    UnexpectedTag(ParsedTag),
    /// A reference to a set or a variable that was never declared.
    UnknownSymbol(String),
}

/// The mathematical value of a [`ParseError`].
pub enum ErrorView {
    Malformed(ParsedTag),
    UnknownKind(Seq<char>),
    MissingMarker(Seq<char>),
    UnexpectedTag(ParsedTag),
    UnknownSymbol(Seq<char>),
}

impl View for ParseError {
    type V = ErrorView;

    open spec fn view(&self) -> ErrorView {
        match self {
            ParseError::Malformed(t) => ErrorView::Malformed(*t),
            ParseError::UnknownKind(s) => ErrorView::UnknownKind(s@),
            ParseError::MissingMarker(s) => ErrorView::MissingMarker(s@),
            ParseError::UnexpectedTag(t) => ErrorView::UnexpectedTag(*t),
            ParseError::UnknownSymbol(s) => ErrorView::UnknownSymbol(s@),
        }
    }
}

/// A test declaration: raw as parsed, or resolved.
#[derive(Clone, Debug)]
pub struct RpTest {
    pub name: String,
    pub sources: Vec<String>,
    pub kind: TestKind,
    pub tests: Vec<String>,
}

/// The mathematical value of an [`RpTest`]; `sources` and `tests` hold no
/// member twice.
pub struct TestView {
    pub name: Seq<char>,
    pub sources: Seq<Seq<char>>,
    pub kind: TestKind,
    pub tests: Seq<Seq<char>>,
}

impl View for RpTest {
    type V = TestView;

    open spec fn view(&self) -> TestView {
        TestView {
            name: self.name@,
            sources: self.sources.deep_view(),
            kind: self.kind,
            tests: self.tests.deep_view(),
        }
    }
}

/// A name is one token: it holds no line break. Sources and test cases are
/// sets: no member twice.
pub open spec fn test_wf(t: TestView) -> bool {
    &&& !t.name.contains('\n')
    &&& t.sources.no_duplicates()
    &&& t.tests.no_duplicates()
}

/// `s` has the exact shape `${NAME}`.
pub open spec fn is_placeholder(s: Seq<char>) -> bool {
    s.len() >= 3 && s[0] == '$' && s[1] == '{' && s[s.len() - 1] == '}'
}

/// The `NAME` of a placeholder `${NAME}`.
pub open spec fn placeholder_name(s: Seq<char>) -> Seq<char> {
    s.subrange(2, s.len() - 1)
}

/// The first index from `i` on where `${` starts, or -1.
pub open spec fn open_from(s: Seq<char>, i: int) -> int
    decreases s.len() - i,
{
    if i < 0 || i + 1 >= s.len() {
        -1
    } else if s[i] == '$' && s[i + 1] == '{' {
        i
    } else {
        open_from(s, i + 1)
    }
}

/// The last index before `j` that holds `}`, or -1.
pub open spec fn close_before(s: Seq<char>, j: int) -> int
    decreases j,
{
    if j <= 0 || j > s.len() {
        -1
    } else if s[j - 1] == '}' {
        j - 1
    } else {
        close_before(s, j - 1)
    }
}

/// `s` holds a `${` with a `}` after it: the greedy pattern `\$\{.*\}` matches.
pub open spec fn has_span(s: Seq<char>) -> bool {
    open_from(s, 0) >= 0 && close_before(s, s.len() as int) >= open_from(s, 0) + 2
}

/// What the greedy pattern matches on a line: from the first `${` to the last `}`.
pub open spec fn span(s: Seq<char>) -> Seq<char> {
    s.subrange(open_from(s, 0), close_before(s, s.len() as int) + 1)
}

pub proof fn lemma_open_from(s: Seq<char>, i: int)
    requires
        0 <= i,
    ensures
        open_from(s, i) == -1 || (i <= open_from(s, i) && open_from(s, i) + 1 < s.len() && s[open_from(s, i)] == '$' && s[open_from(s, i) + 1] == '{'),
    decreases s.len() - i,
{
    if i + 1 < s.len() && !(s[i] == '$' && s[i + 1] == '{') {
        lemma_open_from(s, i + 1);
    }
}

pub proof fn lemma_close_before(s: Seq<char>, j: int)
    ensures
        close_before(s, j) == -1 || (0 <= close_before(s, j) < j && j <= s.len() && s[close_before(s, j)] == '}'),
    decreases j,
{
    if 0 < j <= s.len() && s[j - 1] != '}' {
        lemma_close_before(s, j - 1);
    }
}

pub proof fn lemma_span(s: Seq<char>)
    requires
        has_span(s),
    ensures
        0 <= open_from(s, 0) < close_before(s, s.len() as int) < s.len(),
        is_placeholder(span(s)),
{
    lemma_open_from(s, 0);
    lemma_close_before(s, s.len() as int);
}

/// Relies on regex's `Regex::find_iter` with the pattern `\$\{.*\}`:
/// leftmost-first search in which `.` takes any character but a line feed and
/// `*` is greedy. On text without a line feed the one match, if any, runs
/// from the first `${` to the last `}`, and the search goes on after it,
/// where no `}` is left.
#[verifier::external_body]
fn placeholder_matches(s: &str) -> (r: Vec<String>)
    ensures
        !s@.contains('\n') ==> if has_span(s@) {
            r@.len() == 1 && r@[0]@ == span(s@)
        } else {
            r@.len() == 0
        },
{
    let expr = regex::Regex::new(r"\$\{.*\}").unwrap();
    expr.find_iter(s).map(|m| m.as_str().to_owned()).collect()
}

/// A name with its placeholder, if it has one, replaced by the value bound
/// to it; `Err` holds a placeholder's name that has no value.
pub open spec fn eval_name_spec(name: Seq<char>, vars: Map<Seq<char>, Seq<char>>) -> Result<
    Seq<char>,
    Seq<char>,
> {
    if !has_span(name) {
        Ok(name)
    } else if vars.contains_key(placeholder_name(span(name))) {
        Ok(replace_all(name, span(name), vars[placeholder_name(span(name))]))
    } else {
        Err(placeholder_name(span(name)))
    }
}

/// The sources with each whole-token placeholder replaced by the value bound
/// to its name, as a set; `Err` holds the first name that has no value.
pub open spec fn eval_sources_spec(srcs: Seq<Seq<char>>, vars: Map<Seq<char>, Seq<char>>) -> Result<
    Seq<Seq<char>>,
    Seq<char>,
>
    decreases srcs.len(),
{
    if srcs.len() == 0 {
        Ok(Seq::empty())
    } else {
        match eval_sources_spec(srcs.drop_last(), vars) {
            Err(e) => Err(e),
            Ok(acc) => {
                let s = srcs.last();
                if !is_placeholder(s) {
                    Ok(set_insert(acc, s))
                } else if vars.contains_key(placeholder_name(s)) {
                    Ok(set_insert(acc, vars[placeholder_name(s)]))
                } else {
                    Err(placeholder_name(s))
                }
            },
        }
    }
}

/// A declaration resolved under `vars`: its name first, then its sources.
pub open spec fn eval_spec(t: TestView, vars: Map<Seq<char>, Seq<char>>) -> Result<
    TestView,
    Seq<char>,
> {
    match eval_name_spec(t.name, vars) {
        Err(e) => Err(e),
        Ok(name) => match eval_sources_spec(t.sources, vars) {
            Err(e) => Err(e),
            Ok(sources) => Ok(TestView { name, sources, kind: t.kind, tests: t.tests }),
        },
    }
}

/// The sources with each whole-token placeholder replaced by every member of
/// the set it names, as a set; `Err` holds the first name that names no set.
pub open spec fn expand_spec(srcs: Seq<Seq<char>>, sets: Map<Seq<char>, Seq<Seq<char>>>) -> Result<
    Seq<Seq<char>>,
    Seq<char>,
>
    decreases srcs.len(),
{
    if srcs.len() == 0 {
        Ok(Seq::empty())
    } else {
        match expand_spec(srcs.drop_last(), sets) {
            Err(e) => Err(e),
            Ok(acc) => {
                let s = srcs.last();
                if !is_placeholder(s) {
                    Ok(set_insert(acc, s))
                } else if sets.contains_key(placeholder_name(s)) {
                    Ok(add_all(acc, sets[placeholder_name(s)]))
                } else {
                    Err(placeholder_name(s))
                }
            },
        }
    }
}

/// Some source holds a `$`.
pub open spec fn needs_expansion_spec(srcs: Seq<Seq<char>>) -> bool {
    exists|i: int| 0 <= i < srcs.len() && #[trigger] srcs[i].contains('$')
}

/// A copy of `v`.
pub fn copy_strings(v: &Vec<String>) -> (r: Vec<String>)
    ensures
        r.deep_view() == v.deep_view(),
{
    let mut out: Vec<String> = Vec::new();
    let mut i: usize = 0;
    while i < v.len()
        invariant
            i <= v@.len(),
            out@.len() == i,
            forall|j: int| 0 <= j < i ==> (#[trigger] out@[j])@ == v@[j]@,
        decreases v@.len() - i,
    {
        out.push(v[i].clone());
        i = i + 1;
    }
    assert(out.deep_view() =~= v.deep_view());
    out
}

/// The name inside a placeholder `${NAME}`.
fn placeholder_name_exec(s: &String) -> (r: String)
    requires
        is_placeholder(s@),
    ensures
        r@ == placeholder_name(s@),
{
    let n = s.as_str().unicode_len();
    s.as_str().substring_char(2, n - 1).to_owned()
}

/// Whether `s` has the shape `${NAME}`.
fn is_placeholder_exec(s: &String) -> (r: bool)
    ensures
        r == is_placeholder(s@),
{
    let t = s.as_str();
    let n = t.unicode_len();
    n >= 3 && t.get_char(0) == '$' && t.get_char(1) == '{' && t.get_char(n - 1) == '}'
}

/// Whether `s` holds a `$`.
fn holds_dollar(s: &String) -> (r: bool)
    ensures
        r == s@.contains('$'),
{
    let t = s.as_str();
    let n = t.unicode_len();
    let mut i: usize = 0;
    while i < n
        invariant
            n == t@.len(),
            t@ == s@,
            i <= n,
            forall|j: int| 0 <= j < i ==> t@[j] != '$',
        decreases n - i,
    {
        if t.get_char(i) == '$' {
            return true;
        }
        i = i + 1;
    }
    false
}

impl RpTest {
    /// The name with its placeholder replaced by its value in `vars`.
    pub fn eval_name(&self, variables: &ValueMap) -> (r: Result<String, ParseError>)
        requires
            !self.name@.contains('\n'),
            variables.wf(),
        ensures
            match eval_name_spec(self.name@, variables@) {
                Ok(n) => r is Ok && r->Ok_0@ == n,
                Err(e) => r is Err && r->Err_0@ == ErrorView::UnknownSymbol(e),
            },
    {
        let matches = placeholder_matches(self.name.as_str());
        if matches.len() == 0 {
            return Ok(self.name.clone());
        }
        proof {
            lemma_span(self.name@);
        }
        let m = &matches[0];
        let var = placeholder_name_exec(m);
        match variables.get(&var) {
            Some(value) => Ok(replace_all_exec(self.name.as_str(), m.as_str(), value.as_str())),
            None => Err(ParseError::UnknownSymbol(var)),
        }
    }

    /// The sources with each placeholder replaced by its value in `vars`.
    pub fn eval_source_list(&self, variables: &ValueMap) -> (r: Result<Vec<String>, ParseError>)
        requires
            variables.wf(),
        ensures
            match eval_sources_spec(self.sources.deep_view(), variables@) {
                Ok(s) => r is Ok && r->Ok_0.deep_view() == s,
                Err(e) => r is Err && r->Err_0@ == ErrorView::UnknownSymbol(e),
            },
    {
        let ghost srcs = self.sources.deep_view();
        let mut out: Vec<String> = Vec::new();
        let mut i: usize = 0;
        assert(srcs.subrange(0, 0) =~= Seq::<Seq<char>>::empty());
        assert(out.deep_view() =~= Seq::<Seq<char>>::empty());
        while i < self.sources.len()
            invariant
                variables.wf(),
                srcs == self.sources.deep_view(),
                i <= srcs.len(),
                eval_sources_spec(srcs.subrange(0, i as int), variables@) == Ok::<
                    Seq<Seq<char>>,
                    Seq<char>,
                >(out.deep_view()),
            decreases srcs.len() - i,
        {
            let src = &self.sources[i];
            assert(srcs.subrange(0, i + 1).drop_last() =~= srcs.subrange(0, i as int));
            if is_placeholder_exec(src) {
                let var = placeholder_name_exec(src);
                match variables.get(&var) {
                    Some(value) => insert_unique(&mut out, value.clone()),
                    None => {
                        proof {
                            lemma_eval_sources_err(srcs, i as int + 1, variables@);
                        }
                        return Err(ParseError::UnknownSymbol(var));
                    },
                }
            } else {
                insert_unique(&mut out, src.clone());
            }
            i = i + 1;
        }
        assert(srcs.subrange(0, i as int) =~= srcs);
        Ok(out)
    }

    /// This declaration resolved under `vars`.
    pub fn eval(&self, variables: &ValueMap) -> (r: Result<RpTest, ParseError>)
        requires
            !self.name@.contains('\n'),
            variables.wf(),
        ensures
            match eval_spec(self@, variables@) {
                Ok(t) => r is Ok && r->Ok_0@ == t,
                Err(e) => r is Err && r->Err_0@ == ErrorView::UnknownSymbol(e),
            },
    {
        let name = match self.eval_name(variables) {
            Ok(n) => n,
            Err(e) => return Err(e),
        };
        let sources = match self.eval_source_list(variables) {
            Ok(s) => s,
            Err(e) => return Err(e),
        };
        Ok(RpTest { name, sources, kind: self.kind, tests: copy_strings(&self.tests) })
    }

    /// Whether some source holds a `$` and so asks for expansion.
    pub fn needs_source_expansion(&self) -> (r: bool)
        ensures
            r == needs_expansion_spec(self.sources.deep_view()),
    {
        let mut i: usize = 0;
        while i < self.sources.len()
            invariant
                i <= self.sources@.len(),
                forall|j: int| 0 <= j < i ==> !(#[trigger] self.sources.deep_view()[j]).contains('$'),
            decreases self.sources@.len() - i,
        {
            if holds_dollar(&self.sources[i]) {
                assert(self.sources.deep_view()[i as int].contains('$'));
                return true;
            }
            i = i + 1;
        }
        false
    }
}

proof fn lemma_eval_sources_err(srcs: Seq<Seq<char>>, i: int, vars: Map<Seq<char>, Seq<char>>)
    requires
        0 < i <= srcs.len(),
        eval_sources_spec(srcs.subrange(0, i), vars) is Err,
    ensures
        eval_sources_spec(srcs, vars) == eval_sources_spec(srcs.subrange(0, i), vars),
    decreases srcs.len() - i,
{
    if i < srcs.len() {
        assert(srcs.subrange(0, i + 1).drop_last() =~= srcs.subrange(0, i));
        lemma_eval_sources_err(srcs, i + 1, vars);
    } else {
        assert(srcs.subrange(0, i) =~= srcs);
    }
}

/// A named set of source files: no member twice.
#[derive(Debug)]
pub struct SourceSet {
    pub name: String,
    pub files: Vec<String>,
}

impl SourceSet {
    /// The set whose name is the first token and whose members are the rest.
    pub fn new(keys: Vec<String>) -> (r: SourceSet)
        requires
            keys@.len() >= 1,
        ensures
            r.name@ == keys.deep_view()[0],
            r.files.deep_view() == add_all(Seq::empty(), keys.deep_view().drop_first()),
            r.files.deep_view().no_duplicates(),
    {
        let ghost ks = keys.deep_view();
        let name = keys[0].clone();
        let mut files: Vec<String> = Vec::new();
        let mut i: usize = 1;
        assert(ks.drop_first().subrange(0, 0) =~= Seq::<Seq<char>>::empty());
        assert(files.deep_view() =~= Seq::<Seq<char>>::empty());
        while i < keys.len()
            invariant
                ks == keys.deep_view(),
                1 <= i <= ks.len(),
                files.deep_view() == add_all(Seq::empty(), ks.drop_first().subrange(0, i - 1)),
            decreases ks.len() - i,
        {
            assert(ks.drop_first().subrange(0, i as int).drop_last() =~= ks.drop_first().subrange(
                0,
                i - 1,
            ));
            insert_unique(&mut files, keys[i].clone());
            i = i + 1;
        }
        assert(ks.drop_first().subrange(0, i - 1) =~= ks.drop_first());
        proof {
            lemma_add_all(Seq::empty(), ks.drop_first());
        }
        SourceSet { name, files }
    }
}

/// The set view of an entry of the set table.
pub open spec fn set_entry(s: SourceSet) -> (Seq<char>, Seq<Seq<char>>) {
    (s.name@, s.files.deep_view())
}

/// The views of a sequence of declarations.
pub open spec fn views_of(v: Seq<RpTest>) -> Seq<TestView> {
    v.map_values(|t: RpTest| t@)
}

/// A set's members: none twice, none with a line break.
pub open spec fn members_wf(files: Seq<Seq<char>>) -> bool {
    &&& files.no_duplicates()
    &&& forall|k: int| 0 <= k < files.len() ==> !(#[trigger] files[k]).contains('\n')
}

/// Every set of `m` is valid.
pub open spec fn sets_wf(m: Map<Seq<char>, Seq<Seq<char>>>) -> bool {
    forall|k: Seq<char>| #[trigger] m.contains_key(k) ==> members_wf(m[k])
}

/// Test names are unique.
pub open spec fn names_unique(ts: Seq<TestView>) -> bool {
    forall|i: int, j: int| 0 <= i < j < ts.len() ==> ts[i].name != ts[j].name
}

/// `ts` with `t` installed: it replaces the declaration of the same name, or
/// comes last.
pub open spec fn install_spec(ts: Seq<TestView>, t: TestView) -> Seq<TestView> {
    if exists|i: int| 0 <= i < ts.len() && ts[i].name == t.name {
        ts.update(choose|i: int| 0 <= i < ts.len() && ts[i].name == t.name, t)
    } else {
        ts.push(t)
    }
}

/// What one parse has gathered so far: the named sets and the resolved
/// declarations, by name, in order of discovery.
#[derive(Debug)]
pub struct ParseContext {
    source_sets: Vec<SourceSet>,
    tests: Vec<RpTest>,
}

impl ParseContext {
    pub closed spec fn set_pairs(&self) -> Seq<(Seq<char>, Seq<Seq<char>>)> {
        self.source_sets@.map_values(|s: SourceSet| set_entry(s))
    }

    /// The named sets.
    pub closed spec fn sets(&self) -> Map<Seq<char>, Seq<Seq<char>>> {
        pairs_map(self.set_pairs())
    }

    /// The declarations gathered.
    pub closed spec fn tests_view(&self) -> Seq<TestView> {
        views_of(self.tests@)
    }

    pub closed spec fn wf(&self) -> bool {
        &&& keys_unique(self.set_pairs())
        &&& names_unique(self.tests_view())
        &&& sets_wf(self.sets())
        &&& forall|i: int| 0 <= i < self.tests_view().len() ==> test_wf(#[trigger] self.tests_view()[i])
    }

    /// The sets and the declarations of a valid context are valid.
    pub proof fn lemma_wf(&self)
        requires
            self.wf(),
        ensures
            sets_wf(self.sets()),
            forall|i: int| 0 <= i < self.tests_view().len() ==> test_wf(#[trigger] self.tests_view()[i]),
    {
    }

    /// An empty context.
    pub fn new() -> (r: ParseContext)
        ensures
            r.wf(),
            r.sets() == Map::<Seq<char>, Seq<Seq<char>>>::empty(),
            r.tests_view() == Seq::<TestView>::empty(),
    {
        let r = ParseContext { source_sets: Vec::new(), tests: Vec::new() };
        assert(r.set_pairs() =~= Seq::<(Seq<char>, Seq<Seq<char>>)>::empty());
        assert(r.tests_view() =~= Seq::<TestView>::empty());
        r
    }

    /// The declarations gathered, in order of discovery.
    pub fn tests(&self) -> (r: &Vec<RpTest>)
        ensures
            views_of(r@) == self.tests_view(),
    {
        &self.tests
    }

    /// The index of the set declared under `name`.
    fn find_set(&self, name: &String) -> (r: Option<usize>)
        requires
            self.wf(),
        ensures
            match r {
                Some(i) => i < self.source_sets@.len() && self.set_pairs()[i as int].0 == name@
                    && self.sets().contains_key(name@) && self.sets()[name@]
                    == self.set_pairs()[i as int].1,
                None => !self.sets().contains_key(name@) && forall|k: int|
                    0 <= k < self.set_pairs().len() ==> self.set_pairs()[k].0 != name@,
            },
    {
        let mut j: usize = 0;
        while j < self.source_sets.len()
            invariant
                self.wf(),
                j <= self.source_sets@.len(),
                forall|k: int| 0 <= k < j ==> self.set_pairs()[k].0 != name@,
            decreases self.source_sets@.len() - j,
        {
            assert(self.set_pairs()[j as int] == set_entry(self.source_sets@[j as int]));
            if self.source_sets[j].name.eq(name) {
                proof {
                    lemma_pairs_map_index(self.set_pairs(), j as int);
                }
                return Some(j);
            }
            j = j + 1;
        }
        proof {
            lemma_pairs_map_absent(self.set_pairs(), name@);
        }
        None
    }

    /// The index of the declaration named `name`.
    fn find_test(&self, name: &String) -> (r: Option<usize>)
        ensures
            match r {
                Some(i) => i < self.tests@.len() && self.tests_view()[i as int].name == name@,
                None => forall|k: int|
                    0 <= k < self.tests_view().len() ==> self.tests_view()[k].name != name@,
            },
    {
        let mut j: usize = 0;
        while j < self.tests.len()
            invariant
                j <= self.tests@.len(),
                forall|k: int| 0 <= k < j ==> self.tests_view()[k].name != name@,
            decreases self.tests@.len() - j,
        {
            assert(self.tests_view()[j as int] == self.tests@[j as int]@);
            if self.tests[j].name.eq(name) {
                return Some(j);
            }
            j = j + 1;
        }
        None
    }

    /// The set declared under `name`, if any.
    pub fn source_set(&self, name: &String) -> (r: Option<&SourceSet>)
        requires
            self.wf(),
        ensures
            r is Some <==> self.sets().contains_key(name@),
            r is Some ==> r->0.name@ == name@ && r->0.files.deep_view() == self.sets()[name@],
    {
        match self.find_set(name) {
            Some(j) => {
                assert(self.set_pairs()[j as int] == set_entry(self.source_sets@[j as int]));
                Some(&self.source_sets[j])
            },
            None => None,
        }
    }

    /// Installs `s`; a set declared before under its name is replaced.
    pub fn install_set(&mut self, s: SourceSet)
        requires
            old(self).wf(),
            members_wf(s.files.deep_view()),
        ensures
            final(self).wf(),
            final(self).sets() == old(self).sets().insert(s.name@, s.files.deep_view()),
            final(self).tests_view() == old(self).tests_view(),
    {
        let ghost e = set_entry(s);
        match self.find_set(&s.name) {
            Some(j) => {
                proof {
                    lemma_pairs_map_update(old(self).set_pairs(), j as int, e.1);
                }
                self.source_sets.set(j, s);
                assert(self.set_pairs() =~= old(self).set_pairs().update(j as int, (e.0, e.1)));
            },
            None => {
                proof {
                    lemma_pairs_map_push(old(self).set_pairs(), e.0, e.1);
                }
                self.source_sets.push(s);
                assert(self.set_pairs() =~= old(self).set_pairs().push(e));
            },
        }
        assert(self.tests_view() =~= old(self).tests_view());
    }

    /// Installs `t`; a declaration gathered before under its name is replaced.
    pub fn install_test(&mut self, t: RpTest)
        requires
            old(self).wf(),
            test_wf(t@),
        ensures
            final(self).wf(),
            final(self).sets() == old(self).sets(),
            final(self).tests_view() == install_spec(old(self).tests_view(), t@),
    {
        let ghost tv = t@;
        let ghost ts = old(self).tests_view();
        match self.find_test(&t.name) {
            Some(j) => {
                let ghost c = choose|i: int| 0 <= i < ts.len() && ts[i].name == tv.name;
                assert(c == j);
                self.tests.set(j, t);
                assert(self.tests_view() =~= ts.update(j as int, tv));
            },
            None => {
                self.tests.push(t);
                assert(self.tests_view() =~= ts.push(tv));
            },
        }
        assert(self.set_pairs() =~= old(self).set_pairs());
    }
}

impl RpTest {
    /// Replaces each source that names a set by the set's members.
    pub fn expand_sources(&mut self, ctx: &ParseContext) -> (r: Result<(), ParseError>)
        requires
            ctx.wf(),
        ensures
            final(self).name == old(self).name,
            final(self).kind == old(self).kind,
            final(self).tests == old(self).tests,
            match expand_spec(old(self).sources.deep_view(), ctx.sets()) {
                Ok(s) => r is Ok && final(self).sources.deep_view() == s,
                Err(e) => r is Err && r->Err_0@ == ErrorView::UnknownSymbol(e)
                    && final(self).sources == old(self).sources,
            },
    {
        let ghost srcs = self.sources.deep_view();
        let mut out: Vec<String> = Vec::new();
        let mut i: usize = 0;
        assert(srcs.subrange(0, 0) =~= Seq::<Seq<char>>::empty());
        assert(out.deep_view() =~= Seq::<Seq<char>>::empty());
        while i < self.sources.len()
            invariant
                ctx.wf(),
                srcs == self.sources.deep_view(),
                i <= srcs.len(),
                expand_spec(srcs.subrange(0, i as int), ctx.sets()) == Ok::<
                    Seq<Seq<char>>,
                    Seq<char>,
                >(out.deep_view()),
            decreases srcs.len() - i,
        {
            let src = &self.sources[i];
            assert(srcs.subrange(0, i + 1).drop_last() =~= srcs.subrange(0, i as int));
            if is_placeholder_exec(src) {
                let var = placeholder_name_exec(src);
                match ctx.source_set(&var) {
                    Some(set) => add_members(&mut out, &set.files),
                    None => {
                        proof {
                            lemma_expand_err(srcs, i as int + 1, ctx.sets());
                        }
                        return Err(ParseError::UnknownSymbol(var));
                    },
                }
            } else {
                insert_unique(&mut out, src.clone());
            }
            i = i + 1;
        }
        assert(srcs.subrange(0, i as int) =~= srcs);
        self.sources = out;
        Ok(())
    }
}

/// Adds each member of `xs` to `v`, in order, skipping those already there.
pub fn add_members(v: &mut Vec<String>, xs: &Vec<String>)
    ensures
        final(v).deep_view() == add_all(old(v).deep_view(), xs.deep_view()),
{
    let ghost acc = v.deep_view();
    let ghost ys = xs.deep_view();
    let mut k: usize = 0;
    assert(ys.subrange(0, 0) =~= Seq::<Seq<char>>::empty());
    while k < xs.len()
        invariant
            ys == xs.deep_view(),
            k <= ys.len(),
            v.deep_view() == add_all(acc, ys.subrange(0, k as int)),
        decreases ys.len() - k,
    {
        assert(ys.subrange(0, k + 1).drop_last() =~= ys.subrange(0, k as int));
        insert_unique(v, xs[k].clone());
        k = k + 1;
    }
    assert(ys.subrange(0, k as int) =~= ys);
}

proof fn lemma_expand_err(srcs: Seq<Seq<char>>, i: int, sets: Map<Seq<char>, Seq<Seq<char>>>)
    requires
        0 < i <= srcs.len(),
        expand_spec(srcs.subrange(0, i), sets) is Err,
    ensures
        expand_spec(srcs, sets) == expand_spec(srcs.subrange(0, i), sets),
    decreases srcs.len() - i,
{
    if i < srcs.len() {
        assert(srcs.subrange(0, i + 1).drop_last() =~= srcs.subrange(0, i));
        lemma_expand_err(srcs, i + 1, sets);
    } else {
        assert(srcs.subrange(0, i) =~= srcs);
    }
}

/// Expanding gives no source twice.
pub proof fn lemma_expand_no_dup(srcs: Seq<Seq<char>>, sets: Map<Seq<char>, Seq<Seq<char>>>)
    requires
        expand_spec(srcs, sets) is Ok,
    ensures
        (expand_spec(srcs, sets)->Ok_0).no_duplicates(),
    decreases srcs.len(),
{
    if srcs.len() > 0 {
        lemma_expand_no_dup(srcs.drop_last(), sets);
        let acc = expand_spec(srcs.drop_last(), sets)->Ok_0;
        lemma_set_insert_no_dup(acc, srcs.last());
        if is_placeholder(srcs.last()) {
            lemma_add_all(acc, sets[placeholder_name(srcs.last())]);
        }
    }
}

/// Resolving gives no source twice.
pub proof fn lemma_eval_sources_no_dup(srcs: Seq<Seq<char>>, vars: Map<Seq<char>, Seq<char>>)
    requires
        eval_sources_spec(srcs, vars) is Ok,
    ensures
        (eval_sources_spec(srcs, vars)->Ok_0).no_duplicates(),
    decreases srcs.len(),
{
    if srcs.len() > 0 {
        lemma_eval_sources_no_dup(srcs.drop_last(), vars);
        let acc = eval_sources_spec(srcs.drop_last(), vars)->Ok_0;
        lemma_set_insert_no_dup(acc, srcs.last());
        if is_placeholder(srcs.last()) {
            lemma_set_insert_no_dup(acc, vars[placeholder_name(srcs.last())]);
        }
    }
}

/// Resolving a valid declaration under values without line breaks gives a
/// valid declaration.
pub proof fn lemma_eval_wf(t: TestView, vars: Map<Seq<char>, Seq<char>>)
    requires
        test_wf(t),
        forall|k: Seq<char>| #[trigger] vars.contains_key(k) ==> !vars[k].contains('\n'),
        eval_spec(t, vars) is Ok,
    ensures
        test_wf(eval_spec(t, vars)->Ok_0),
{
    lemma_eval_sources_no_dup(t.sources, vars);
    if has_span(t.name) {
        let v = vars[placeholder_name(span(t.name))];
        lemma_replace_all_absent(t.name, span(t.name), v, '\n');
    }
}

/// The literal sources of `srcs` together with the members of every set
/// that a source names.
pub open spec fn expansion_set(srcs: Seq<Seq<char>>, sets: Map<Seq<char>, Seq<Seq<char>>>) -> Set<
    Seq<char>,
>
    decreases srcs.len(),
{
    if srcs.len() == 0 {
        Set::empty()
    } else if is_placeholder(srcs.last()) {
        expansion_set(srcs.drop_last(), sets).union(sets[placeholder_name(srcs.last())].to_set())
    } else {
        expansion_set(srcs.drop_last(), sets).insert(srcs.last())
    }
}

/// Outside a loop, where every set named is declared, expanding succeeds and
/// gives exactly the literal sources and the members of the sets named, each
/// once: a path reached twice, through one set or several, appears once.
pub proof fn lemma_expand_union(srcs: Seq<Seq<char>>, sets: Map<Seq<char>, Seq<Seq<char>>>)
    requires
        forall|i: int|
            0 <= i < srcs.len() && is_placeholder(#[trigger] srcs[i]) ==> sets.contains_key(
                placeholder_name(srcs[i]),
            ),
    ensures
        expand_spec(srcs, sets) is Ok,
        (expand_spec(srcs, sets)->Ok_0).no_duplicates(),
        (expand_spec(srcs, sets)->Ok_0).to_set() == expansion_set(srcs, sets),
    decreases srcs.len(),
{
    if srcs.len() == 0 {
        assert(Seq::<Seq<char>>::empty().to_set() =~= Set::<Seq<char>>::empty());
    } else {
        let init = srcs.drop_last();
        assert forall|i: int|
            0 <= i < init.len() && is_placeholder(#[trigger] init[i]) implies sets.contains_key(
                placeholder_name(init[i]),
            ) by {
            assert(init[i] == srcs[i]);
        }
        lemma_expand_union(init, sets);
        let acc = expand_spec(init, sets)->Ok_0;
        let last = srcs.last();
        assert(is_placeholder(srcs[srcs.len() - 1]) ==> sets.contains_key(placeholder_name(srcs[srcs.len() - 1])));
        lemma_expand_no_dup(srcs, sets);
        if is_placeholder(last) {
            lemma_add_all(acc, sets[placeholder_name(last)]);
        } else {
            lemma_set_insert_no_dup(acc, last);
        }
    }
}

} // verus!
