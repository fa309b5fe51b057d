//! The test suites that the command line works with: declarations found in
//! build files and test classes found in Python sources.
use vstd::prelude::*;

use crate::structures::{kind_name, RpTest};
use crate::text::{contains_str, fields_from, split_fields};

verus! {

/// Which family of tests a command works on.
#[derive(Clone, Copy, Debug, PartialEq, Eq, Structural)]
pub enum TestKind {
    Cc,
    Py,
}

/// The family named by a comma-separated completion request: `cc` wins
/// over `py`.
pub open spec fn kind_of_request(line: Seq<char>) -> Option<TestKind> {
    if fields_from(line, 0, ',').contains("cc"@) {
        Some(TestKind::Cc)
    } else if fields_from(line, 0, ',').contains("py"@) {
        Some(TestKind::Py)
    } else {
        None
    }
}

/// The family of tests that a completion request asks for.
pub fn command_line_kind(command_line: &str) -> (r: Option<TestKind>)
    ensures
        r == kind_of_request(command_line@),
{
    let fields = split_fields(command_line, ',');
    if contains_str(&fields, &"cc".to_owned()) {
        Some(TestKind::Cc)
    } else if contains_str(&fields, &"py".to_owned()) {
        Some(TestKind::Py)
    } else {
        None
    }
}

/// The name of the file that caches the definitions of a family of tests.
pub fn get_db_file(kind: &TestKind) -> (r: &'static str)
    ensures
        r@ == match kind {
            TestKind::Cc => "cc.json"@,
            TestKind::Py => "py.json"@,
        },
{
    match kind {
        TestKind::Cc => "cc.json",
        TestKind::Py => "py.json",
    }
}

/// A Python test class and the test functions it holds.
#[derive(Clone, Debug)]
pub struct ClassWithTests {
    pub source_path: String,
    pub tests: Vec<String>,
    pub class_name: String,
}

impl ClassWithTests {
    /// How the class is shown to a user: `path::class`.
    pub fn label(&self) -> (r: String)
        ensures
            r@ == self.source_path@ + "::"@ + self.class_name@,
    {
        let mut r = self.source_path.clone();
        r.append("::");
        r.append(self.class_name.as_str());
        r
    }
}

impl RpTest {
    /// How the declaration is shown to a user: `name (Kind)`.
    pub fn label(&self) -> (r: String)
        ensures
            r@ == self.name@ + " ("@ + kind_name(self.kind) + ")"@,
    {
        let mut r = self.name.clone();
        r.append(" (");
        r.append(self.kind.name());
        r.append(")");
        r
    }
}

/// A test suite that a search may find.
#[derive(Clone, Debug)]
pub enum TestSuite {
    C(RpTest),
    P(ClassWithTests),
    NotFound,
}

impl TestSuite {
    /// Whether the suite holds a test case named `name`.
    pub fn matches(&self, name: &String) -> (r: bool)
        ensures
            r == match self {
                TestSuite::C(t) => t.tests.deep_view().contains(name@),
                TestSuite::P(t) => t.tests.deep_view().contains(name@),
                TestSuite::NotFound => false,
            },
    {
        match self {
            TestSuite::C(t) => contains_str(&t.tests, name),
            TestSuite::P(t) => contains_str(&t.tests, name),
            TestSuite::NotFound => false,
        }
    }

    /// How the suite is shown to a user.
    pub fn label(&self) -> (r: String)
        ensures
            match self {
                TestSuite::C(t) => r@ == t.name@ + " ("@ + kind_name(t.kind) + ")"@,
                TestSuite::P(t) => r@ == t.source_path@ + "::"@ + t.class_name@,
                TestSuite::NotFound => r@ == "None"@,
            },
    {
        match self {
            TestSuite::C(t) => t.label(),
            TestSuite::P(t) => t.label(),
            TestSuite::NotFound => "None".to_owned(),
        }
    }
}

/// The test case names that the suites hold, suite by suite.
pub open spec fn case_names(suites: Seq<TestSuite>) -> Seq<Seq<char>>
    decreases suites.len(),
{
    if suites.len() == 0 {
        Seq::empty()
    } else {
        case_names(suites.drop_last()) + match suites.last() {
            TestSuite::C(t) => t.tests.deep_view(),
            TestSuite::P(t) => t.tests.deep_view(),
            TestSuite::NotFound => Seq::empty(),
        }
    }
}

/// The suites of `suites` that hold a test case named `name`, in order.
pub open spec fn matching_spec(suites: Seq<TestSuite>, name: Seq<char>) -> Seq<TestSuite>
    decreases suites.len(),
{
    if suites.len() == 0 {
        Seq::empty()
    } else {
        let rest = matching_spec(suites.drop_last(), name);
        let holds = match suites.last() {
            TestSuite::C(t) => t.tests.deep_view().contains(name),
            TestSuite::P(t) => t.tests.deep_view().contains(name),
            TestSuite::NotFound => false,
        };
        if holds {
            rest.push(suites.last())
        } else {
            rest
        }
    }
}

/// The suites that hold a test case named `name`.
pub fn find_matching_tests(suites: Vec<TestSuite>, name: &String) -> (r: Vec<TestSuite>)
    ensures
        r@ == matching_spec(suites@, name@),
{
    let ghost all = suites@;
    let mut out: Vec<TestSuite> = Vec::new();
    let mut rest = suites;
    let mut i: usize = 0;
    let total = rest.len();
    assert(all.subrange(0, 0) =~= Seq::<TestSuite>::empty());
    assert(rest@ =~= all.subrange(0, all.len() as int));
    while rest.len() > 0
        invariant
            total == all.len(),
            i <= total,
            rest@ == all.subrange(i as int, all.len() as int),
            out@ == matching_spec(all.subrange(0, i as int), name@),
        decreases rest@.len(),
    {
        let ghost ro = rest@;
        let s = rest.remove(0);
        assert(s == all[i as int]);
        assert(rest@ =~= all.subrange(i + 1, all.len() as int));
        assert(all.subrange(0, i + 1).drop_last() =~= all.subrange(0, i as int));
        if s.matches(name) {
            out.push(s);
        }
        i = i + 1;
    }
    assert(all.subrange(0, i as int) =~= all);
    out
}

/// Every test case name that the suites hold, suite by suite.
pub fn collect_test_names(suites: &Vec<TestSuite>) -> (r: Vec<String>)
    ensures
        r.deep_view() == case_names(suites@),
{
    let mut out: Vec<String> = Vec::new();
    let mut i: usize = 0;
    assert(suites@.subrange(0, 0) =~= Seq::<TestSuite>::empty());
    assert(out.deep_view() =~= Seq::<Seq<char>>::empty());
    while i < suites.len()
        invariant
            i <= suites@.len(),
            out.deep_view() == case_names(suites@.subrange(0, i as int)),
        decreases suites@.len() - i,
    {
        assert(suites@.subrange(0, i + 1).drop_last() =~= suites@.subrange(0, i as int));
        match &suites[i] {
            TestSuite::C(t) => append_strings(&mut out, &t.tests),
            TestSuite::P(t) => append_strings(&mut out, &t.tests),
            TestSuite::NotFound => {
                assert(out.deep_view() + Seq::<Seq<char>>::empty() =~= out.deep_view());
            },
        }
        i = i + 1;
    }
    assert(suites@.subrange(0, i as int) =~= suites@);
    out
}

/// Adds copies of the strings of `xs` at the end of `v`.
fn append_strings(v: &mut Vec<String>, xs: &Vec<String>)
    ensures
        final(v).deep_view() == old(v).deep_view() + xs.deep_view(),
{
    let mut k: usize = 0;
    while k < xs.len()
        invariant
            k <= xs@.len(),
            v@.len() == old(v)@.len() + k,
            forall|j: int| 0 <= j < old(v)@.len() ==> (#[trigger] v@[j])@ == old(v)@[j]@,
            forall|j: int| 0 <= j < k ==> (#[trigger] v@[old(v)@.len() + j])@ == xs@[j]@,
        decreases xs@.len() - k,
    {
        v.push(xs[k].clone());
        k = k + 1;
    }
    assert forall|j: int| 0 <= j < v@.len() implies #[trigger] v.deep_view()[j] == (old(v).deep_view() + xs.deep_view())[j] by {
        if j >= old(v)@.len() {
            assert(v@[old(v)@.len() + (j - old(v)@.len())]@ == xs@[j - old(v)@.len()]@);
        }
    }
    assert(final(v).deep_view() =~= old(v).deep_view() + xs.deep_view());
}

/// A test case found in a C++ source: the macro that declares it and its name.
#[derive(Clone, Debug)]
pub struct CcTest {
    pub tag: String,
    pub name: String,
}

impl CcTest {
    pub fn new(tag: &str, name: &str) -> (r: CcTest)
        ensures
            r.tag@ == tag@,
            r.name@ == name@,
    {
        CcTest { tag: tag.to_owned(), name: name.to_owned() }
    }
}

/// The suffix of the binary of a declaration of kind `k`.
pub open spec fn object_suffix(k: crate::structures::TestKind) -> Seq<char> {
    match k {
        crate::structures::TestKind::Unit => "_rpunit"@,
        crate::structures::TestKind::Fixture => "_rpfixture"@,
        crate::structures::TestKind::Bench => "_rpbench"@,
    }
}

/// The file name under which a declaration's binary is built:
/// its name and a suffix for its kind.
pub fn cc_test_object(test: &RpTest) -> (r: String)
    ensures
        r@ == test.name@ + object_suffix(test.kind),
{
    let mut r = test.name.clone();
    match test.kind {
        crate::structures::TestKind::Unit => r.append("_rpunit"),
        crate::structures::TestKind::Fixture => r.append("_rpfixture"),
        crate::structures::TestKind::Bench => r.append("_rpbench"),
    }
    r
}

} // verus!
