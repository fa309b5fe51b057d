//! The construct parsers, the loop expander and the dispatcher that drives
//! them over a whole file.
use vstd::prelude::*;

use crate::lazy_binding::{
    apply_transform, cc_suffix, lemma_strip_absent, materialize, BindingView, LazyBinding,
    Transform,
};
use crate::scanner::{next_tag, substitution_at, Input};
use crate::structures::{
    close_before, has_span, open_from, span,
    eval_name_spec, eval_sources_spec, eval_spec, expand_spec, install_spec, is_placeholder,
    lemma_eval_wf, lemma_expand_no_dup, members_wf, needs_expansion_spec, placeholder_name,
    test_wf, views_of, ErrorView, ParseContext,
    ParseError, ParsedTag, RpTest, SourceSet, TestKind, TestView,
};
use crate::text::{
    add_all, chars_of, in_class, insert_unique, is_ident_char, lemma_add_all, lemma_add_all_from,
    lemma_replace_all_absent, lemma_run_end_bounds, replace_all, set_insert, occurs_at, occurs_at_exec, run_end, CharClass,
};

verus! {

/// The tokens of a set declaration from `p` to its closing parenthesis, and
/// the position after it. Each token may have space around it; a step that
/// reads nothing fails.
pub open spec fn set_tokens(s: Seq<char>, p: int) -> Option<(Seq<Seq<char>>, int)>
    decreases s.len() - p,
{
    if p < 0 || p > s.len() {
        None
    } else if p < s.len() && s[p] == ')' {
        Some((Seq::empty(), p + 1))
    } else {
        let a = run_end(s, p, CharClass::Space);
        let e = run_end(s, a, CharClass::Ident);
        let b = run_end(s, e, CharClass::Space);
        if b <= p || b > s.len() {
            None
        } else {
            match set_tokens(s, b) {
                Some((ts, q)) => Some((seq![s.subrange(a, e)] + ts, q)),
                None => None,
            }
        }
    }
}

/// The tokens of a test declaration from `p` on, separated by space, and the
/// position after the last one.
pub open spec fn rp_tokens(s: Seq<char>, p: int) -> (Seq<Seq<char>>, int)
    decreases s.len() - p,
{
    let e = run_end(s, p, CharClass::Ident);
    let w = run_end(s, e, CharClass::Space);
    if p < 0 || p > s.len() || e < p || w <= e || w > s.len() {
        (seq![s.subrange(p, e)], e)
    } else {
        let (ts, q) = rp_tokens(s, w);
        (seq![s.subrange(p, e)] + ts, q)
    }
}

/// The tokens of a test declaration at `p`, with space before them, the
/// closing parenthesis and space after it: the tokens and the position after.
pub open spec fn rp_test_at(s: Seq<char>, p: int) -> Option<(Seq<Seq<char>>, int)> {
    let a = run_end(s, p, CharClass::Space);
    let (ts, e) = rp_tokens(s, a);
    if 0 <= e < s.len() && s[e] == ')' {
        Some((ts, run_end(s, e + 1, CharClass::Space)))
    } else {
        None
    }
}

pub open spec fn unit_word() -> Seq<char> {
    seq!['U', 'N', 'I', 'T', '_', 'T', 'E', 'S', 'T']
}

pub open spec fn fixture_word() -> Seq<char> {
    seq!['F', 'I', 'X', 'T', 'U', 'R', 'E', '_', 'T', 'E', 'S', 'T']
}

pub open spec fn bench_word() -> Seq<char> {
    seq!['B', 'E', 'N', 'C', 'H', 'M', 'A', 'R', 'K', '_', 'T', 'E', 'S', 'T']
}

pub open spec fn binary_name_word() -> Seq<char> {
    seq!['B', 'I', 'N', 'A', 'R', 'Y', '_', 'N', 'A', 'M', 'E']
}

pub open spec fn sources_word() -> Seq<char> {
    seq!['S', 'O', 'U', 'R', 'C', 'E', 'S']
}

/// The kind that a declaration's first token names.
pub open spec fn kind_of_word(w: Seq<char>) -> Option<TestKind> {
    if w == fixture_word() {
        Some(TestKind::Fixture)
    } else if w == unit_word() {
        Some(TestKind::Unit)
    } else if w == bench_word() {
        Some(TestKind::Bench)
    } else {
        None
    }
}

/// The first index from `i` on where `w` stands in `ts`, or -1.
pub open spec fn index_from(ts: Seq<Seq<char>>, w: Seq<char>, i: int) -> int
    decreases ts.len() - i,
{
    if i < 0 || i >= ts.len() {
        -1
    } else if ts[i] == w {
        i
    } else {
        index_from(ts, w, i + 1)
    }
}

/// Whether Unicode gives `c` the Uppercase property.
pub uninterp spec fn is_upper(c: char) -> bool;

/// Relies on `char::is_uppercase`: the answer depends on the character alone.
#[verifier::external_body]
fn char_is_uppercase(c: char) -> (r: bool)
    ensures
        r == is_upper(c),
{
    c.is_uppercase()
}

/// A token made of uppercase letters and underscores alone opens the next
/// keyed group of a declaration.
pub open spec fn is_stop_word(w: Seq<char>) -> bool {
    forall|j: int| 0 <= j < w.len() ==> is_upper(#[trigger] w[j]) || w[j] == '_'
}

/// The tokens from `i` on, up to the first stop word.
pub open spec fn take_sources(ts: Seq<Seq<char>>, i: int) -> Seq<Seq<char>>
    decreases ts.len() - i,
{
    if i < 0 || i >= ts.len() || is_stop_word(ts[i]) {
        Seq::empty()
    } else {
        seq![ts[i]] + take_sources(ts, i + 1)
    }
}

/// The declaration that a token list describes: its kind from the first
/// token, its name after `BINARY_NAME`, its sources after `SOURCES`.
pub open spec fn decl_of_tokens(ts: Seq<Seq<char>>) -> Result<TestView, ErrorView> {
    if ts.len() == 0 || kind_of_word(ts[0]) is None {
        Err(ErrorView::UnknownKind(if ts.len() == 0 { Seq::empty() } else { ts[0] }))
    } else {
        let b = index_from(ts, binary_name_word(), 0);
        let s = index_from(ts, sources_word(), 0);
        if b < 0 || b + 1 >= ts.len() {
            Err(ErrorView::MissingMarker(binary_name_word()))
        } else if s < 0 {
            Err(ErrorView::MissingMarker(sources_word()))
        } else {
            Ok(
                TestView {
                    name: ts[b + 1],
                    sources: add_all(Seq::empty(), take_sources(ts, s + 1)),
                    kind: kind_of_word(ts[0])->0,
                    tests: Seq::empty(),
                },
            )
        }
    }
}

/// Whether `t` reads `w`.
fn equals_word(t: &String, w: &Vec<char>) -> (r: bool)
    ensures
        r == (t@ == w@),
{
    let cs = chars_of(t.as_str());
    if cs.len() != w.len() {
        return false;
    }
    let r = occurs_at_exec(&cs, 0, w);
    assert(cs@.subrange(0, w@.len() as int) =~= cs@);
    r
}

/// The first index where `w` stands in `ts`.
fn index_of_word(ts: &Vec<String>, w: &Vec<char>) -> (r: Option<usize>)
    ensures
        match r {
            Some(i) => i as int == index_from(ts.deep_view(), w@, 0) && i < ts.len(),
            None => index_from(ts.deep_view(), w@, 0) == -1,
        },
{
    let ghost d = ts.deep_view();
    let mut i: usize = 0;
    while i < ts.len()
        invariant
            d == ts.deep_view(),
            i <= d.len(),
            index_from(d, w@, 0) == index_from(d, w@, i as int),
        decreases d.len() - i,
    {
        if equals_word(&ts[i], w) {
            return Some(i);
        }
        i = i + 1;
    }
    None
}

fn is_stop_word_exec(t: &String) -> (r: bool)
    ensures
        r == is_stop_word(t@),
{
    let cs = chars_of(t.as_str());
    let mut j: usize = 0;
    while j < cs.len()
        invariant
            cs@ == t@,
            j <= cs@.len(),
            forall|k: int| 0 <= k < j ==> is_upper(#[trigger] cs@[k]) || cs@[k] == '_',
        decreases cs@.len() - j,
    {
        let c = cs[j];
        if !(char_is_uppercase(c) || c == '_') {
            return false;
        }
        j = j + 1;
    }
    true
}

/// The name token after `BINARY_NAME`.
fn find_test_name(tokens: &Vec<String>) -> (r: Result<String, ParseError>)
    ensures
        ({
            let b = index_from(tokens.deep_view(), binary_name_word(), 0);
            if b < 0 || b + 1 >= tokens@.len() {
                r is Err && r->Err_0@ == ErrorView::MissingMarker(binary_name_word())
            } else {
                r is Ok && r->Ok_0@ == tokens.deep_view()[b + 1]
            }
        }),
{
    let w = vec!['B', 'I', 'N', 'A', 'R', 'Y', '_', 'N', 'A', 'M', 'E'];
    assert(w@ =~= binary_name_word());
    match index_of_word(tokens, &w) {
        Some(b) => {
            if b < tokens.len() - 1 {
                Ok(tokens[b + 1].clone())
            } else {
                Err(ParseError::MissingMarker(marker_string(true)))
            }
        },
        None => Err(ParseError::MissingMarker(marker_string(true))),
    }
}

/// The marker word for the name (`true`) or for the sources (`false`).
fn marker_string(name: bool) -> (r: String)
    ensures
        r@ == if name {
            binary_name_word()
        } else {
            sources_word()
        },
{
    proof {
        reveal_strlit("BINARY_NAME");
        reveal_strlit("SOURCES");
    }
    if name {
        let r = "BINARY_NAME".to_owned();
        assert(r@ =~= binary_name_word());
        r
    } else {
        let r = "SOURCES".to_owned();
        assert(r@ =~= sources_word());
        r
    }
}

/// The source tokens after `SOURCES`, up to the first stop word, as a set.
fn find_test_sources(tokens: &Vec<String>) -> (r: Result<Vec<String>, ParseError>)
    ensures
        ({
            let s = index_from(tokens.deep_view(), sources_word(), 0);
            if s < 0 {
                r is Err && r->Err_0@ == ErrorView::MissingMarker(sources_word())
            } else {
                r is Ok && r->Ok_0.deep_view() == add_all(
                    Seq::empty(),
                    take_sources(tokens.deep_view(), s + 1),
                ) && r->Ok_0.deep_view().no_duplicates()
            }
        }),
{
    let ghost d = tokens.deep_view();
    let w = vec!['S', 'O', 'U', 'R', 'C', 'E', 'S'];
    assert(w@ =~= sources_word());
    let s = match index_of_word(tokens, &w) {
        Some(s) => s,
        None => return Err(ParseError::MissingMarker(marker_string(false))),
    };
    let mut out: Vec<String> = Vec::new();
    let mut i: usize = s + 1;
    let ghost taken: Seq<Seq<char>> = Seq::empty();
    assert(out.deep_view() =~= Seq::<Seq<char>>::empty());
    while i < tokens.len() && !is_stop_word_exec(&tokens[i])
        invariant
            d == tokens.deep_view(),
            s < i <= d.len(),
            take_sources(d, s + 1) == taken + take_sources(d, i as int),
            out.deep_view() == add_all(Seq::empty(), taken),
        decreases d.len() - i,
    {
        proof {
            assert(take_sources(d, i as int) == seq![d[i as int]] + take_sources(d, i + 1));
            assert(taken + (seq![d[i as int]] + take_sources(d, i + 1)) =~= taken.push(d[i as int])
                + take_sources(d, i + 1));
            assert(taken.push(d[i as int]).drop_last() =~= taken);
        }
        insert_unique(&mut out, tokens[i].clone());
        proof {
            taken = taken.push(d[i as int]);
        }
        i = i + 1;
    }
    assert(take_sources(d, i as int) =~= Seq::<Seq<char>>::empty());
    assert(taken + Seq::<Seq<char>>::empty() =~= taken);
    proof {
        lemma_add_all(Seq::empty(), taken);
    }
    Ok(out)
}

/// The kind that the first token names.
fn kind_of_token(t: &String) -> (r: Option<TestKind>)
    ensures
        r == kind_of_word(t@),
{
    let f = vec!['F', 'I', 'X', 'T', 'U', 'R', 'E', '_', 'T', 'E', 'S', 'T'];
    let u = vec!['U', 'N', 'I', 'T', '_', 'T', 'E', 'S', 'T'];
    let b = vec!['B', 'E', 'N', 'C', 'H', 'M', 'A', 'R', 'K', '_', 'T', 'E', 'S', 'T'];
    assert(f@ =~= fixture_word());
    assert(u@ =~= unit_word());
    assert(b@ =~= bench_word());
    if equals_word(t, &f) {
        Some(TestKind::Fixture)
    } else if equals_word(t, &u) {
        Some(TestKind::Unit)
    } else if equals_word(t, &b) {
        Some(TestKind::Bench)
    } else {
        None
    }
}

/// The declaration that a token list describes.
pub fn decl_from_tokens(tokens: &Vec<String>) -> (r: Result<RpTest, ParseError>)
    ensures
        match decl_of_tokens(tokens.deep_view()) {
            Ok(t) => r is Ok && r->Ok_0@ == t,
            Err(e) => r is Err && r->Err_0@ == e,
        },
{
    if tokens.len() == 0 {
        return Err(ParseError::UnknownKind(String::new()));
    }
    let kind = match kind_of_token(&tokens[0]) {
        Some(k) => k,
        None => return Err(ParseError::UnknownKind(tokens[0].clone())),
    };
    let name = match find_test_name(tokens) {
        Ok(n) => n,
        Err(e) => return Err(e),
    };
    let sources = match find_test_sources(tokens) {
        Ok(s) => s,
        Err(e) => return Err(e),
    };
    let r = RpTest { name, sources, kind, tests: Vec::new() };
    assert(r.tests.deep_view() =~= Seq::<Seq<char>>::empty());
    Ok(r)
}

/// `ks` put before the tokens of `o`.
pub open spec fn prepend(ks: Seq<Seq<char>>, o: Option<(Seq<Seq<char>>, int)>) -> Option<
    (Seq<Seq<char>>, int),
> {
    match o {
        Some((ts, q)) => Some((ks + ts, q)),
        None => None,
    }
}

/// Reads a set declaration at `p`: the first token names the set, the others
/// are its members.
pub fn parse_set_sources(input: &Input, p: usize) -> (r: Result<(usize, SourceSet), ParseError>)
    requires
        input.wf(),
        p <= input.view().len(),
    ensures
        match set_tokens(input.view(), p as int) {
            Some((ts, q)) => if ts.len() >= 1 {
                r is Ok && (r->Ok_0).0 == q && (r->Ok_0).1.name@ == ts[0] && (
                r->Ok_0).1.files.deep_view() == add_all(Seq::empty(), ts.drop_first()) && (
                r->Ok_0).1.files.deep_view().no_duplicates()
            } else {
                r is Err && r->Err_0@ == ErrorView::Malformed(ParsedTag::SetDecl)
            },
            None => r is Err && r->Err_0@ == ErrorView::Malformed(ParsedTag::SetDecl),
        },
{
    let ghost s = input.view();
    let n = input.len();
    let mut keys: Vec<String> = Vec::new();
    let mut q = p;
    assert(keys.deep_view() + Seq::<Seq<char>>::empty() =~= Seq::<Seq<char>>::empty());
    assert(prepend(keys.deep_view(), set_tokens(s, q as int)) =~= set_tokens(s, p as int)) by {
        match set_tokens(s, q as int) {
            Some((ts, e)) => {
                assert(keys.deep_view() + ts =~= ts);
            },
            None => {},
        }
    }
    loop
        invariant_except_break
            set_tokens(s, p as int) == prepend(keys.deep_view(), set_tokens(s, q as int)),
        invariant
            input.wf(),
            s == input.view(),
            n == s.len(),
            p <= q <= n,
        ensures
            set_tokens(s, p as int) == Some((keys.deep_view(), q as int)),
        decreases n - q,
    {
        if q < n && input.char_at(q) == ')' {
            assert(set_tokens(s, q as int) == Some((Seq::<Seq<char>>::empty(), q + 1)));
            assert(keys.deep_view() + Seq::<Seq<char>>::empty() =~= keys.deep_view());
            q = q + 1;
            break;
        }
        let a = input.run(q, CharClass::Space);
        let (e, tok) = input.parse_identifier(a);
        let b = input.run(e, CharClass::Space);
        if b <= q {
            return Err(ParseError::Malformed(ParsedTag::SetDecl));
        }
        let ghost before = keys.deep_view();
        let ghost tv = tok@;
        keys.push(tok);
        assert(keys.deep_view() =~= before.push(tv));
        proof {
            assert(set_tokens(s, q as int) == prepend(seq![tv], set_tokens(s, b as int)));
            match set_tokens(s, b as int) {
                Some((ts, e2)) => {
                    assert(before + (seq![tv] + ts) =~= before.push(tv) + ts);
                },
                None => {},
            }
        }
        q = b;
    }
    if keys.len() == 0 {
        return Err(ParseError::Malformed(ParsedTag::SetDecl));
    }
    Ok((q, SourceSet::new(keys)))
}

/// Reads a test declaration at `p`.
pub fn parse_rp_test(input: &Input, p: usize) -> (r: Result<(usize, RpTest), ParseError>)
    requires
        input.wf(),
        p <= input.view().len(),
    ensures
        match rp_test_at(input.view(), p as int) {
            Some((ts, q)) => match decl_of_tokens(ts) {
                Ok(t) => r is Ok && (r->Ok_0).0 == q && (r->Ok_0).1@ == t,
                Err(e) => r is Err && r->Err_0@ == e,
            },
            None => r is Err && r->Err_0@ == ErrorView::Malformed(ParsedTag::RpTest),
        },
        r is Ok ==> p <= (r->Ok_0).0 <= input.view().len() && test_wf((r->Ok_0).1@),
{
    let ghost s = input.view();
    let n = input.len();
    let a = input.run(p, CharClass::Space);
    let mut tokens: Vec<String> = Vec::new();
    let mut q = a;
    assert(tokens.deep_view() + rp_tokens(s, q as int).0 =~= rp_tokens(s, a as int).0);
    let mut e: usize = a;
    loop
        invariant_except_break
            rp_tokens(s, a as int) == (tokens.deep_view() + rp_tokens(s, q as int).0, rp_tokens(
                s,
                q as int,
            ).1),
        invariant
            input.wf(),
            s == input.view(),
            n == s.len(),
            p <= a <= q <= n,
        ensures
            rp_tokens(s, a as int) == (tokens.deep_view(), e as int),
            a <= e <= n,
        decreases n - q,
    {
        let (e1, tok) = input.parse_identifier(q);
        let w = input.run(e1, CharClass::Space);
        proof {
            lemma_rp_tokens_step(s, q as int);
        }
        let ghost before = tokens.deep_view();
        let ghost tv = tok@;
        tokens.push(tok);
        assert(tokens.deep_view() =~= before.push(tv));
        if w == e1 {
            e = e1;
            assert(tokens.deep_view() =~= before + seq![tv]);
            break;
        }
        assert(before + (seq![tv] + rp_tokens(s, w as int).0) =~= before.push(tv) + rp_tokens(
            s,
            w as int,
        ).0);
        q = w;
    }
    if !(e < n && input.char_at(e) == ')') {
        return Err(ParseError::Malformed(ParsedTag::RpTest));
    }
    let q2 = input.run(e + 1, CharClass::Space);
    assert(rp_tokens(s, a as int).0 == tokens.deep_view());
    assert(rp_test_at(s, p as int) == Some((tokens.deep_view(), q2 as int)));
    match decl_from_tokens(&tokens) {
        Ok(t) => {
            proof {
                lemma_decl_wf(s, a as int);
            }
            assert(t@ == decl_of_tokens(tokens.deep_view())->Ok_0);
            assert(test_wf(t@));
            Ok((q2, t))
        },
        Err(err) => Err(err),
    }
}

/// Every token of a test declaration is made of identifier characters.
pub proof fn lemma_rp_tokens_ident(s: Seq<char>, p: int)
    requires
        0 <= p <= s.len(),
    ensures
        forall|k: int, j: int|
            0 <= k < rp_tokens(s, p).0.len() && 0 <= j < rp_tokens(s, p).0[k].len() ==> is_ident_char(
                #[trigger] rp_tokens(s, p).0[k][j],
            ),
    decreases s.len() - p,
{
    lemma_run_end_bounds(s, p, CharClass::Ident);
    let e = run_end(s, p, CharClass::Ident);
    lemma_run_end_bounds(s, e, CharClass::Space);
    let w = run_end(s, e, CharClass::Space);
    let ts = rp_tokens(s, p).0;
    let first = s.subrange(p, e);
    assert forall|j: int| 0 <= j < first.len() implies is_ident_char(#[trigger] first[j]) by {
        assert(in_class(CharClass::Ident, s[p + j]));
    }
    if w > e {
        lemma_rp_tokens_ident(s, w);
        assert forall|k: int, j: int| 0 <= k < ts.len() && 0 <= j < ts[k].len() implies is_ident_char(#[trigger] ts[k][j]) by {
            if k > 0 {
                assert(ts[k] == rp_tokens(s, w).0[k - 1]);
            }
        }
    }
}

proof fn lemma_rp_tokens_step(s: Seq<char>, q: int)
    requires
        0 <= q <= s.len(),
    ensures
        ({
            let e = run_end(s, q, CharClass::Ident);
            let w = run_end(s, e, CharClass::Space);
            &&& q <= e <= w <= s.len()
            &&& w == e ==> rp_tokens(s, q) == (seq![s.subrange(q, e)], e)
            &&& w != e ==> rp_tokens(s, q) == (seq![s.subrange(q, e)] + rp_tokens(s, w).0, rp_tokens(
                s,
                w,
            ).1)
        }),
{
    lemma_run_end_bounds(s, q, CharClass::Ident);
    lemma_run_end_bounds(s, run_end(s, q, CharClass::Ident), CharClass::Space);
}

/// A declaration read from the text is well formed: its name is one token.
proof fn lemma_decl_wf(s: Seq<char>, a: int)
    requires
        0 <= a <= s.len(),
        decl_of_tokens(rp_tokens(s, a).0) is Ok,
    ensures
        test_wf(decl_of_tokens(rp_tokens(s, a).0)->Ok_0),
{
    let d = rp_tokens(s, a).0;
    lemma_add_all(Seq::empty(), take_sources(d, index_from(d, sources_word(), 0) + 1));
    lemma_rp_tokens_ident(s, a);
    let b = index_from(d, binary_name_word(), 0);
    let nm = d[b + 1];
    if nm.contains('\n') {
        let j = choose|j: int| 0 <= j < nm.len() && #[trigger] nm[j] == '\n';
        assert(is_ident_char(rp_tokens(s, a).0[b + 1][j]));
    }
}

/// The values bound in one pass of a loop over member `m`: the loop variable
/// holds `m`, and a derived name, if there is one, holds `m` stripped.
pub open spec fn loop_bindings(var: Seq<char>, derived: Option<Seq<char>>, m: Seq<char>) -> Map<
    Seq<char>,
    Seq<char>,
> {
    if derived is Some && derived->0 != var {
        Map::empty().insert(var, m).insert(
            derived->0,
            apply_transform(Transform::StripCcSuffix, m),
        )
    } else {
        Map::empty().insert(var, m)
    }
}

/// One declaration per member, in order: the template resolved under that
/// member's bindings.
pub open spec fn expand_loop_spec(
    template: TestView,
    members: Seq<Seq<char>>,
    var: Seq<char>,
    derived: Option<Seq<char>>,
) -> Result<Seq<TestView>, Seq<char>>
    decreases members.len(),
{
    if members.len() == 0 {
        Ok(Seq::empty())
    } else {
        match expand_loop_spec(template, members.drop_last(), var, derived) {
            Err(e) => Err(e),
            Ok(ts) => match eval_spec(template, loop_bindings(var, derived, members.last())) {
                Err(e) => Err(e),
                Ok(t) => Ok(ts.push(t)),
            },
        }
    }
}

pub open spec fn opt_view(o: Option<String>) -> Option<Seq<char>> {
    match o {
        Some(s) => Some(s@),
        None => None,
    }
}

/// The table of a loop whose variable is `var`, with `derived` declared
/// after it, once the variable is bound to `m`.
pub open spec fn loop_table(var: Seq<char>, derived: Option<Seq<char>>) -> Map<Seq<char>, BindingView> {
    match derived {
        Some(d) => Map::empty().insert(var, BindingView::Nothing).insert(
            d,
            BindingView::Derived(var, Transform::StripCcSuffix),
        ),
        None => Map::empty().insert(var, BindingView::Nothing),
    }
}

proof fn lemma_loop_table(var: Seq<char>, derived: Option<Seq<char>>, m: Seq<char>)
    ensures
        crate::lazy_binding::resolvable(loop_table(var, derived).insert(var, BindingView::Text(m))),
        materialize(loop_table(var, derived).insert(var, BindingView::Text(m))) == loop_bindings(
            var,
            derived,
            m,
        ),
{
    let t = loop_table(var, derived).insert(var, BindingView::Text(m));
    assert(materialize(t) =~= loop_bindings(var, derived, m));
}

/// Expands a loop: one declaration per member of the iterated set.
pub fn expand_foreach(
    template: &RpTest,
    members: &Vec<String>,
    loop_var: &String,
    derived: &Option<String>,
) -> (r: Result<Vec<RpTest>, ParseError>)
    requires
        !template.name@.contains('\n'),
    ensures
        match expand_loop_spec(template@, members.deep_view(), loop_var@, opt_view(*derived)) {
            Ok(ts) => r is Ok && views_of(r->Ok_0@) == ts,
            Err(e) => r is Err && r->Err_0@ == ErrorView::UnknownSymbol(e),
        },
        r is Ok && test_wf(template@) && (forall|k: int|
            0 <= k < members@.len() ==> !(#[trigger] members.deep_view()[k]).contains('\n'))
            ==> forall|i: int| 0 <= i < r->Ok_0@.len() ==> test_wf(#[trigger] views_of(r->Ok_0@)[i]),
{
    let ghost var = loop_var@;
    let ghost dv = opt_view(*derived);
    let ghost ms = members.deep_view();
    let mut table = LazyBinding::new();
    table.add(loop_var.as_str());
    match derived {
        Some(d) => table.add_transformed(d.as_str(), loop_var.as_str(), Transform::StripCcSuffix),
        None => {},
    }
    let ghost t0 = table@;
    assert(t0 =~= loop_table(var, dv));
    let mut out: Vec<RpTest> = Vec::new();
    let mut i: usize = 0;
    assert(ms.subrange(0, 0) =~= Seq::<Seq<char>>::empty());
    assert(views_of(out@) =~= Seq::<TestView>::empty());
    while i < members.len()
        invariant
            !template.name@.contains('\n'),
            ms == members.deep_view(),
            var == loop_var@,
            dv == opt_view(*derived),
            t0 == loop_table(var, dv),
            table.wf(),
            table@.contains_key(var),
            forall|m: Seq<char>|
                #[trigger] table@.insert(var, BindingView::Text(m)) == t0.insert(
                    var,
                    BindingView::Text(m),
                ),
            i <= ms.len(),
            expand_loop_spec(template@, ms.subrange(0, i as int), var, dv) == Ok::<
                Seq<TestView>,
                Seq<char>,
            >(views_of(out@)),
        decreases ms.len() - i,
    {
        let ghost before = table@;
        table.populate(loop_var.as_str(), members[i].as_str());
        proof {
            assert(before.insert(var, BindingView::Text(ms[i as int])) == t0.insert(
                var,
                BindingView::Text(ms[i as int]),
            ));
            lemma_loop_table(var, dv, ms[i as int]);
            assert forall|m: Seq<char>| #[trigger]
                table@.insert(var, BindingView::Text(m)) == t0.insert(var, BindingView::Text(m)) by {
                assert(table@.insert(var, BindingView::Text(m)) =~= before.insert(
                    var,
                    BindingView::Text(m),
                ));
            }
        }
        let vars = table.to_map();
        assert(table@ == t0.insert(var, BindingView::Text(ms[i as int])));
        assert(vars@ == loop_bindings(var, dv, ms[i as int]));
        assert(ms.subrange(0, i + 1).drop_last() =~= ms.subrange(0, i as int));
        assert(ms.subrange(0, i + 1).last() == ms[i as int]);
        match template.eval(&vars) {
            Ok(t) => {
                let ghost vb = views_of(out@);
                out.push(t);
                assert(views_of(out@) =~= vb.push(t@));
            },
            Err(e) => {
                let ghost ev = eval_spec(template@, loop_bindings(var, dv, ms[i as int]));
                assert(ev is Err);
                assert(expand_loop_spec(template@, ms.subrange(0, i + 1), var, dv) == Err::<Seq<TestView>, Seq<char>>(ev->Err_0));
                proof {
                    lemma_expand_loop_err(template@, ms, i as int + 1, var, dv);
                }
                return Err(e);
            },
        }
        i = i + 1;
    }
    assert(ms.subrange(0, i as int) =~= ms);
    proof {
        if test_wf(template@) && (forall|k: int|
            0 <= k < members@.len() ==> !(#[trigger] members.deep_view()[k]).contains('\n')) {
            lemma_expand_loop_wf(template@, ms, var, dv);
            let ts = expand_loop_spec(template@, ms, var, dv)->Ok_0;
            assert(ts == views_of(out@));
            assert forall|i: int| 0 <= i < out@.len() implies test_wf(#[trigger] views_of(out@)[i]) by {
                assert(test_wf(ts[i]));
            }
        }
    }
    Ok(out)
}

proof fn lemma_expand_loop_err(
    template: TestView,
    ms: Seq<Seq<char>>,
    i: int,
    var: Seq<char>,
    dv: Option<Seq<char>>,
)
    requires
        0 < i <= ms.len(),
        expand_loop_spec(template, ms.subrange(0, i), var, dv) is Err,
    ensures
        expand_loop_spec(template, ms, var, dv) == expand_loop_spec(
            template,
            ms.subrange(0, i),
            var,
            dv,
        ),
    decreases ms.len() - i,
{
    if i < ms.len() {
        assert(ms.subrange(0, i + 1).drop_last() =~= ms.subrange(0, i));
        lemma_expand_loop_err(template, ms, i + 1, var, dv);
    } else {
        assert(ms.subrange(0, i) =~= ms);
    }
}

/// A loop header at `p`: the loop variable, the name of the iterated set,
/// and the position after the closing parenthesis.
pub open spec fn foreach_header(s: Seq<char>, p: int) -> Option<(Seq<char>, Seq<char>, int)> {
    let e = run_end(s, p, CharClass::Ident);
    let w = run_end(s, e, CharClass::Space);
    if w == e {
        None
    } else {
        match substitution_at(s, w) {
            Some((q, name)) => if 0 <= q < s.len() && s[q] == ')' {
                Some((s.subrange(p, e), name, q + 1))
            } else {
                None
            },
            None => None,
        }
    }
}

/// The first tag of a loop body, with the derived-name declaration that may
/// stand before it read: the derived name, the tag after it, and the position
/// after that tag.
pub open spec fn after_derived(s: Seq<char>, q: int) -> Result<
    (Option<Seq<char>>, ParsedTag, int),
    ErrorView,
> {
    let (t1, q1) = next_tag(s, q);
    if t1 == ParsedTag::GetFileNameComponent {
        let e = run_end(s, q1, CharClass::Ident);
        let c = run_end(s, e, CharClass::NotClose);
        if c >= s.len() {
            Err(ErrorView::Malformed(ParsedTag::GetFileNameComponent))
        } else {
            let (t2, q2) = next_tag(s, c + 1);
            Ok((Some(s.subrange(q1, e)), t2, q2))
        }
    } else {
        Ok((None, t1, q1))
    }
}

/// A loop at `p`, after its keyword, over a set of `sets`: the declarations
/// it yields and the position after its end.
pub open spec fn foreach_spec(s: Seq<char>, p: int, sets: Map<Seq<char>, Seq<Seq<char>>>) -> Result<
    (Seq<TestView>, int),
    ErrorView,
> {
    match foreach_header(s, p) {
        None => Err(ErrorView::Malformed(ParsedTag::ForEach)),
        Some((var, set_name, q)) => if !sets.contains_key(set_name) {
            Err(ErrorView::UnknownSymbol(set_name))
        } else {
            match after_derived(s, q) {
                Err(e) => Err(e),
                Ok((derived, t2, q2)) => if t2 != ParsedTag::RpTest {
                    Err(ErrorView::UnexpectedTag(t2))
                } else {
                    match rp_test_at(s, q2) {
                        None => Err(ErrorView::Malformed(ParsedTag::RpTest)),
                        Some((ts, q3)) => match decl_of_tokens(ts) {
                            Err(e) => Err(e),
                            Ok(template) => if next_tag(s, q3).0 != ParsedTag::EndForEach {
                                Err(ErrorView::UnexpectedTag(next_tag(s, q3).0))
                            } else {
                                match expand_loop_spec(template, sets[set_name], var, derived) {
                                    Err(e) => Err(ErrorView::UnknownSymbol(e)),
                                    Ok(tests) => Ok((tests, next_tag(s, q3).1)),
                                }
                            },
                        },
                    }
                },
            }
        },
    }
}

/// Reads a loop at `p` and expands it over the set it names.
pub fn parse_foreach(input: &Input, p: usize, ctx: &ParseContext) -> (r: Result<
    (usize, Vec<RpTest>),
    ParseError,
>)
    requires
        input.wf(),
        ctx.wf(),
        p <= input.view().len(),
    ensures
        match foreach_spec(input.view(), p as int, ctx.sets()) {
            Ok((ts, q)) => r is Ok && (r->Ok_0).0 == q && views_of((r->Ok_0).1@) == ts,
            Err(e) => r is Err && r->Err_0@ == e,
        },
        r is Ok ==> p <= (r->Ok_0).0 <= input.view().len(),
        r is Ok ==> forall|i: int|
            0 <= i < (r->Ok_0).1@.len() ==> test_wf(#[trigger] views_of((r->Ok_0).1@)[i]),
{
    let ghost s = input.view();
    let n = input.len();
    let (e, loop_var) = input.parse_identifier(p);
    let w = input.run(e, CharClass::Space);
    if w == e {
        return Err(ParseError::Malformed(ParsedTag::ForEach));
    }
    let (q, set_name) = match input.parse_substitution(w) {
        Some(x) => x,
        None => return Err(ParseError::Malformed(ParsedTag::ForEach)),
    };
    if !(q < n && input.char_at(q) == ')') {
        return Err(ParseError::Malformed(ParsedTag::ForEach));
    }
    let set = match ctx.source_set(&set_name) {
        Some(set) => set,
        None => return Err(ParseError::UnknownSymbol(set_name)),
    };
    proof {
        scanner_bounds(s, q as int + 1);
    }
    let (q1, t1) = input.skip_to_next_tag(q + 1);
    let mut derived: Option<String> = None;
    let mut t2 = t1;
    let mut q2 = q1;
    if t1 == ParsedTag::GetFileNameComponent {
        let (e2, name) = input.parse_identifier(q1);
        let c = input.run(e2, CharClass::NotClose);
        if c >= n {
            return Err(ParseError::Malformed(ParsedTag::GetFileNameComponent));
        }
        proof {
            scanner_bounds(s, c as int + 1);
        }
        let (q3, t3) = input.skip_to_next_tag(c + 1);
        derived = Some(name);
        t2 = t3;
        q2 = q3;
    }
    assert(after_derived(s, q + 1) == Ok::<(Option<Seq<char>>, ParsedTag, int), ErrorView>(
        (opt_view(derived), t2, q2 as int),
    ));
    if t2 != ParsedTag::RpTest {
        return Err(ParseError::UnexpectedTag(t2));
    }
    assert(p < q2);
    proof {
        scanner_bounds(s, q2 as int);
    }
    let (q4, template) = match parse_rp_test(input, q2) {
        Ok(x) => x,
        Err(err) => return Err(err),
    };
    let (q5, t5) = input.skip_to_next_tag(q4);
    if t5 != ParsedTag::EndForEach {
        return Err(ParseError::UnexpectedTag(t5));
    }
    proof {
        scanner_bounds(s, q4 as int);
    }
    assert(q4 < q5);
    proof {
        ctx.lemma_wf();
        assert(members_wf(set.files.deep_view()));
    }
    match expand_foreach(&template, &set.files, &loop_var, &derived) {
        Ok(tests) => Ok((q5, tests)),
        Err(err) => Err(err),
    }
}

/// The scanner never moves back, and stays within the text.
proof fn scanner_bounds(s: Seq<char>, p: int)
    requires
        0 <= p,
    ensures
        next_tag(s, p).1 <= s.len(),
        next_tag(s, p).0 != ParsedTag::EOF ==> p < next_tag(s, p).1,
{
    crate::scanner::lemma_next_tag(s, p);
}

/// The mathematical value of an evaluation context.
pub struct CtxView {
    pub sets: Map<Seq<char>, Seq<Seq<char>>>,
    pub tests: Seq<TestView>,
}

/// `ts` with each of `new` installed in turn.
pub open spec fn install_all(ts: Seq<TestView>, new: Seq<TestView>) -> Seq<TestView>
    decreases new.len(),
{
    if new.len() == 0 {
        ts
    } else {
        install_spec(install_all(ts, new.drop_last()), new.last())
    }
}

/// What handling the construct that `tag` opened, at `p`, makes of `c`, and
/// the position after the construct.
pub open spec fn dispatch_spec(s: Seq<char>, p: int, tag: ParsedTag, c: CtxView) -> Result<
    (CtxView, int),
    ErrorView,
> {
    match tag {
        ParsedTag::SetDecl => match set_tokens(s, p) {
            Some((ts, q)) => if ts.len() >= 1 {
                Ok(
                    (
                        CtxView {
                            sets: c.sets.insert(ts[0], add_all(Seq::empty(), ts.drop_first())),
                            tests: c.tests,
                        },
                        q,
                    ),
                )
            } else {
                Err(ErrorView::Malformed(ParsedTag::SetDecl))
            },
            None => Err(ErrorView::Malformed(ParsedTag::SetDecl)),
        },
        ParsedTag::ForEach => match foreach_spec(s, p, c.sets) {
            Err(e) => Err(e),
            Ok((tests, q)) => Ok((CtxView { sets: c.sets, tests: install_all(c.tests, tests) }, q)),
        },
        ParsedTag::EndForEach => Err(ErrorView::UnexpectedTag(ParsedTag::EndForEach)),
        ParsedTag::RpTest => match rp_test_at(s, p) {
            None => Err(ErrorView::Malformed(ParsedTag::RpTest)),
            Some((ts, q)) => match decl_of_tokens(ts) {
                Err(e) => Err(e),
                Ok(t) => if !needs_expansion_spec(t.sources) {
                    Ok((CtxView { sets: c.sets, tests: install_spec(c.tests, t) }, q))
                } else {
                    match expand_spec(t.sources, c.sets) {
                        Err(e) => Err(ErrorView::UnknownSymbol(e)),
                        Ok(srcs) => Ok(
                            (
                                CtxView {
                                    sets: c.sets,
                                    tests: install_spec(
                                        c.tests,
                                        TestView { name: t.name, sources: srcs, kind: t.kind, tests: t.tests },
                                    ),
                                },
                                q,
                            ),
                        ),
                    }
                },
            },
        },
        _ => Ok((c, p)),
    }
}

/// What parsing the text from `p` on makes of `c`: each tag handled in turn
/// until the end of the text.
pub open spec fn parse_from(s: Seq<char>, p: int, c: CtxView) -> Result<CtxView, ErrorView>
    decreases s.len() - p,
{
    if p < 0 || p >= s.len() {
        Ok(c)
    } else {
        let (t, q) = next_tag(s, p);
        if t == ParsedTag::EOF {
            Ok(c)
        } else {
            match dispatch_spec(s, q, t, c) {
                Err(e) => Err(e),
                Ok((c2, q2)) => if q2 <= p || q2 > s.len() {
                    Ok(c2)
                } else {
                    parse_from(s, q2, c2)
                },
            }
        }
    }
}

/// What parsing a whole text gives, from an empty context.
pub open spec fn parse_spec(s: Seq<char>) -> Result<CtxView, ErrorView> {
    parse_from(s, 0, CtxView { sets: Map::empty(), tests: Seq::empty() })
}

/// Handles the construct that `tag` opened, at `p`.
pub fn dispatch_tag_parse(input: &Input, p: usize, ctx: &mut ParseContext, tag: ParsedTag) -> (r:
    Result<usize, ParseError>)
    requires
        input.wf(),
        old(ctx).wf(),
        p <= input.view().len(),
    ensures
        final(ctx).wf(),
        match dispatch_spec(
            input.view(),
            p as int,
            tag,
            CtxView { sets: old(ctx).sets(), tests: old(ctx).tests_view() },
        ) {
            Ok((c, q)) => r is Ok && r->Ok_0 == q && final(ctx).sets() == c.sets
                && final(ctx).tests_view() == c.tests,
            Err(e) => r is Err && r->Err_0@ == e,
        },
        r is Ok ==> p <= r->Ok_0 <= input.view().len(),
{
    match tag {
        ParsedTag::SetDecl => {
            let (q, set) = match parse_set_sources(input, p) {
                Ok(x) => x,
                Err(e) => return Err(e),
            };
            proof {
                lemma_set_tokens_bounds(input.view(), p as int);
                lemma_set_members_wf(input.view(), p as int);
            }
            ctx.install_set(set);
            Ok(q)
        },
        ParsedTag::ForEach => {
            let (q, tests) = match parse_foreach(input, p, ctx) {
                Ok(x) => x,
                Err(e) => return Err(e),
            };
            let ghost start = ctx.tests_view();
            let ghost new = views_of(tests@);
            let total = tests.len();
            let mut rest = tests;
            let mut i: usize = 0;
            assert(new.subrange(0, 0) =~= Seq::<TestView>::empty());
            assert(views_of(rest@) =~= new.subrange(0, new.len() as int));
            while rest.len() > 0
                invariant
                    ctx.wf(),
                    ctx.sets() == old(ctx).sets(),
                    i <= new.len(),
                    new.len() == total,
                    views_of(rest@) == new.subrange(i as int, new.len() as int),
                    ctx.tests_view() == install_all(start, new.subrange(0, i as int)),
                    forall|k: int| 0 <= k < new.len() ==> test_wf(#[trigger] new[k]),
                decreases rest@.len(),
            {
                let ghost ro = rest@;
                let ghost rv = views_of(ro);
                assert(rv.len() == ro.len());
                assert(rv == new.subrange(i as int, new.len() as int));
                assert(rv[0] == ro[0]@);
                let t = rest.remove(0);
                assert(rest@ =~= ro.subrange(1, ro.len() as int));
                assert(t == ro[0]);
                assert(t@ == new[i as int]);
                assert(views_of(rest@) =~= new.subrange(i + 1, new.len() as int)) by {
                    assert forall|k: int| 0 <= k < rest@.len() implies views_of(rest@)[k] == new.subrange(i + 1, new.len() as int)[k] by {
                        assert(views_of(rest@)[k] == rest@[k]@);
                        assert(rest@[k] == ro[k + 1]);
                        assert(rv[k + 1] == ro[k + 1]@);
                    }
                }
                assert(new.subrange(0, i + 1).drop_last() =~= new.subrange(0, i as int));
                ctx.install_test(t);
                i = i + 1;
            }
            assert(i == new.len());
            assert(new.subrange(0, i as int) =~= new);
            Ok(q)
        },
        ParsedTag::EndForEach => Err(ParseError::UnexpectedTag(ParsedTag::EndForEach)),
        ParsedTag::RpTest => {
            let (q, mut test) = match parse_rp_test(input, p) {
                Ok(x) => x,
                Err(e) => return Err(e),
            };
            if test.needs_source_expansion() {
                let ghost before = test@;
                match test.expand_sources(ctx) {
                    Ok(()) => {},
                    Err(e) => return Err(e),
                }
                proof {
                    lemma_expand_no_dup(before.sources, ctx.sets());
                }
            }
            ctx.install_test(test);
            Ok(q)
        },
        _ => Ok(p),
    }
}

proof fn lemma_set_tokens_bounds(s: Seq<char>, p: int)
    requires
        0 <= p <= s.len(),
    ensures
        set_tokens(s, p) is Some ==> p < (set_tokens(s, p)->0).1 <= s.len(),
    decreases s.len() - p,
{
    if p < s.len() && s[p] == ')' {
    } else {
        let a = run_end(s, p, CharClass::Space);
        let e = run_end(s, a, CharClass::Ident);
        let b = run_end(s, e, CharClass::Space);
        if b > p && b <= s.len() {
            lemma_set_tokens_bounds(s, b);
        }
    }
}

/// Parses a whole build-description file: every set it declares and every
/// test declaration it holds, resolved.
pub fn parse_unit(text: &str) -> (r: Result<ParseContext, ParseError>)
    ensures
        match parse_spec(text@) {
            Ok(c) => r is Ok && (r->Ok_0).wf() && (r->Ok_0).sets() == c.sets && (
            r->Ok_0).tests_view() == c.tests,
            Err(e) => r is Err && r->Err_0@ == e,
        },
{
    let input = Input::new(text);
    let ghost s = text@;
    let n = input.len();
    let mut ctx = ParseContext::new();
    let mut p: usize = 0;
    assert(ctx.sets() =~= Map::<Seq<char>, Seq<Seq<char>>>::empty());
    loop
        invariant_except_break
            parse_spec(s) == parse_from(s, p as int, CtxView { sets: ctx.sets(), tests: ctx.tests_view() }),
        invariant
            input.wf(),
            s == input.view(),
            s == text@,
            n == s.len(),
            p <= n,
            ctx.wf(),
        ensures
            parse_spec(s) == Ok::<CtxView, ErrorView>(CtxView { sets: ctx.sets(), tests: ctx.tests_view() }),
        decreases n - p,
    {
        if p >= n {
            break;
        }
        let (q, tag) = input.skip_to_next_tag(p);
        proof {
            scanner_bounds(s, p as int);
        }
        let ghost c = CtxView { sets: ctx.sets(), tests: ctx.tests_view() };
        proof {
            lemma_parse_from_step(s, p as int, c);
        }
        if tag == ParsedTag::EOF {
            break;
        }
        let res = dispatch_tag_parse(&input, q, &mut ctx, tag);
        match res {
            Ok(q2) => {
                p = q2;
            },
            Err(e) => return Err(e),
        }
    }
    Ok(ctx)
}

proof fn lemma_parse_from_step(s: Seq<char>, p: int, c: CtxView)
    requires
        0 <= p < s.len(),
    ensures
        next_tag(s, p).0 == ParsedTag::EOF ==> parse_from(s, p, c) == Ok::<CtxView, ErrorView>(c),
        next_tag(s, p).0 != ParsedTag::EOF ==> parse_from(s, p, c) == match dispatch_spec(
            s,
            next_tag(s, p).1,
            next_tag(s, p).0,
            c,
        ) {
            Err(e) => Err(e),
            Ok((c2, q2)) => if q2 <= p || q2 > s.len() {
                Ok(c2)
            } else {
                parse_from(s, q2, c2)
            },
        },
{
}

proof fn lemma_add_all_unique(xs: Seq<Seq<char>>)
    requires
        xs.no_duplicates(),
    ensures
        add_all(Seq::empty(), xs) == xs,
    decreases xs.len(),
{
    if xs.len() > 0 {
        let init = xs.drop_last();
        assert(init.no_duplicates());
        lemma_add_all_unique(init);
        if init.contains(xs.last()) {
            let j = choose|j: int| 0 <= j < init.len() && init[j] == xs.last();
            assert(xs[j] == xs[xs.len() - 1]);
        }
        assert(init.push(xs.last()) =~= xs);
    }
}

proof fn lemma_add_all_absorbed(acc: Seq<Seq<char>>, xs: Seq<Seq<char>>)
    requires
        forall|i: int| 0 <= i < xs.len() ==> acc.contains(#[trigger] xs[i]),
    ensures
        add_all(acc, xs) == acc,
    decreases xs.len(),
{
    if xs.len() > 0 {
        lemma_add_all_absorbed(acc, xs.drop_last());
        assert(acc.contains(xs[xs.len() - 1]));
    }
}

proof fn lemma_eval_literal_sources(srcs: Seq<Seq<char>>, vars: Map<Seq<char>, Seq<char>>)
    requires
        forall|i: int| 0 <= i < srcs.len() ==> !is_placeholder(#[trigger] srcs[i]),
    ensures
        eval_sources_spec(srcs, vars) == Ok::<Seq<Seq<char>>, Seq<char>>(add_all(Seq::empty(), srcs)),
    decreases srcs.len(),
{
    if srcs.len() > 0 {
        lemma_eval_literal_sources(srcs.drop_last(), vars);
        assert(!is_placeholder(srcs[srcs.len() - 1]));
    }
}

/// A loop over a set yields one declaration per member, and each keeps the
/// template's sources that are not placeholders exactly as they are. (The
/// template's name may only refer to the names the loop binds.)
pub proof fn lemma_loop_keeps_literal_sources(
    template: TestView,
    members: Seq<Seq<char>>,
    var: Seq<char>,
    derived: Option<Seq<char>>,
)
    requires
        test_wf(template),
        forall|i: int| 0 <= i < template.sources.len() ==> !is_placeholder(#[trigger] template.sources[i]),
        forall|m: Seq<char>| #[trigger] eval_name_spec(template.name, loop_bindings(var, derived, m)) is Ok,
    ensures
        expand_loop_spec(template, members, var, derived) is Ok,
        expand_loop_spec(template, members, var, derived)->Ok_0.len() == members.len(),
        forall|i: int| 0 <= i < members.len() ==> (#[trigger] expand_loop_spec(template, members, var, derived)->Ok_0[i]).sources == template.sources,
    decreases members.len(),
{
    if members.len() > 0 {
        lemma_loop_keeps_literal_sources(template, members.drop_last(), var, derived);
        let vars = loop_bindings(var, derived, members.last());
        assert(eval_name_spec(template.name, vars) is Ok);
        lemma_eval_literal_sources(template.sources, vars);
        lemma_add_all_unique(template.sources);
        let prev = expand_loop_spec(template, members.drop_last(), var, derived)->Ok_0;
        let all = expand_loop_spec(template, members, var, derived)->Ok_0;
        assert forall|i: int| 0 <= i < members.len() implies (#[trigger] all[i]).sources == template.sources by {
            if i < members.len() - 1 {
                assert(all[i] == prev[i]);
            }
        }
    }
}

/// In each pass of a loop with a derived name, the derived name holds the
/// member with every `.cc` removed, and the member itself where it holds none.
pub proof fn lemma_derived_value(var: Seq<char>, d: Seq<char>, m: Seq<char>)
    requires
        d != var,
    ensures
        loop_bindings(var, Some(d), m)[var] == m,
        loop_bindings(var, Some(d), m)[d] == apply_transform(Transform::StripCcSuffix, m),
        (forall|i: int| !occurs_at(m, i, cc_suffix())) ==> loop_bindings(var, Some(d), m)[d] == m,
{
    if forall|i: int| !occurs_at(m, i, cc_suffix()) {
        lemma_strip_absent(m);
    }
}

/// `k` copies of `src`.
pub open spec fn repeat(src: Seq<char>, k: nat) -> Seq<Seq<char>>
    decreases k,
{
    if k == 0 {
        Seq::empty()
    } else {
        repeat(src, (k - 1) as nat).push(src)
    }
}

/// Outside a loop, a source that names a declared set of N members expands
/// to exactly those N members; naming the set again adds nothing.
pub proof fn lemma_expand_set_reference(
    src: Seq<char>,
    k: nat,
    sets: Map<Seq<char>, Seq<Seq<char>>>,
)
    requires
        is_placeholder(src),
        sets.contains_key(placeholder_name(src)),
        sets[placeholder_name(src)].no_duplicates(),
        k >= 1,
    ensures
        expand_spec(repeat(src, k), sets) == Ok::<Seq<Seq<char>>, Seq<char>>(
            sets[placeholder_name(src)],
        ),
        expand_spec(repeat(src, k), sets)->Ok_0.len() == sets[placeholder_name(src)].len(),
    decreases k,
{
    let members = sets[placeholder_name(src)];
    let srcs = repeat(src, k);
    if k == 1 {
        assert(srcs.drop_last() =~= Seq::<Seq<char>>::empty());
        assert(srcs.last() == src);
        lemma_add_all_unique(members);
    } else {
        lemma_expand_set_reference(src, (k - 1) as nat, sets);
        assert(srcs.drop_last() =~= repeat(src, (k - 1) as nat));
        lemma_add_all_absorbed(members, members);
    }
}

/// A set declared a second time under the same name holds the second
/// declaration's members alone, and the declarations already gathered are
/// left as they were.
pub proof fn lemma_set_redeclared(s: Seq<char>, at_first: int, at_second: int, c: CtxView)
    requires
        set_tokens(s, at_first) is Some,
        set_tokens(s, at_second) is Some,
        (set_tokens(s, at_first)->0).0.len() >= 1,
        (set_tokens(s, at_second)->0).0.len() >= 1,
        (set_tokens(s, at_first)->0).0[0] == (set_tokens(s, at_second)->0).0[0],
    ensures
        ({
            let first = dispatch_spec(s, at_first, ParsedTag::SetDecl, c)->Ok_0.0;
            let second = dispatch_spec(s, at_second, ParsedTag::SetDecl, first)->Ok_0.0;
            let name = (set_tokens(s, at_second)->0).0[0];
            &&& second.sets[name] == add_all(Seq::empty(), (set_tokens(s, at_second)->0).0.drop_first())
            &&& second.tests == c.tests
            &&& second.sets.dom() == c.sets.dom().insert(name)
        }),
{
    let name = (set_tokens(s, at_second)->0).0[0];
    let first = dispatch_spec(s, at_first, ParsedTag::SetDecl, c)->Ok_0.0;
    let second = dispatch_spec(s, at_second, ParsedTag::SetDecl, first)->Ok_0.0;
    assert(second.sets.dom() =~= c.sets.dom().insert(name));
}

/// Every token of a set declaration is made of identifier characters.
proof fn lemma_set_tokens_ident(s: Seq<char>, p: int)
    requires
        set_tokens(s, p) is Some,
    ensures
        forall|k: int, j: int|
            0 <= k < (set_tokens(s, p)->0).0.len() && 0 <= j < (set_tokens(s, p)->0).0[k].len()
                ==> is_ident_char(#[trigger] (set_tokens(s, p)->0).0[k][j]),
    decreases s.len() - p,
{
    if p < s.len() && s[p] == ')' {
    } else {
        let a = run_end(s, p, CharClass::Space);
        let e = run_end(s, a, CharClass::Ident);
        let b = run_end(s, e, CharClass::Space);
        lemma_run_end_bounds(s, p, CharClass::Space);
        lemma_run_end_bounds(s, a, CharClass::Ident);
        lemma_set_tokens_ident(s, b);
        let ts = (set_tokens(s, p)->0).0;
        let first = s.subrange(a, e);
        assert forall|k: int, j: int| 0 <= k < ts.len() && 0 <= j < ts[k].len() implies is_ident_char(#[trigger] ts[k][j]) by {
            if k == 0 {
                assert(ts[0] == first);
                assert(in_class(CharClass::Ident, s[a + j]));
            } else {
                assert(ts[k] == (set_tokens(s, b)->0).0[k - 1]);
            }
        }
    }
}

/// The members of a set read from the text are valid.
proof fn lemma_set_members_wf(s: Seq<char>, p: int)
    requires
        set_tokens(s, p) is Some,
        (set_tokens(s, p)->0).0.len() >= 1,
    ensures
        members_wf(add_all(Seq::empty(), (set_tokens(s, p)->0).0.drop_first())),
{
    let ts = (set_tokens(s, p)->0).0;
    let ms = add_all(Seq::empty(), ts.drop_first());
    lemma_add_all(Seq::empty(), ts.drop_first());
    lemma_set_tokens_ident(s, p);
    assert forall|k: int| 0 <= k < ms.len() implies !(#[trigger] ms[k]).contains('\n') by {
        assert(ms.contains(ms[k]));
        lemma_add_all_from(Seq::empty(), ts.drop_first(), ms[k]);
        let x = choose|x: int| 0 <= x < ts.drop_first().len() && ts.drop_first()[x] == ms[k];
        if ms[k].contains('\n') {
            let j = choose|j: int| 0 <= j < ms[k].len() && #[trigger] ms[k][j] == '\n';
            assert(is_ident_char(ts[x + 1][j]));
        }
    }
}

/// A loop binds only values without line breaks to members without them.
proof fn lemma_loop_bindings_clean(var: Seq<char>, derived: Option<Seq<char>>, m: Seq<char>)
    requires
        !m.contains('\n'),
    ensures
        forall|k: Seq<char>| #[trigger] loop_bindings(var, derived, m).contains_key(k)
            ==> !loop_bindings(var, derived, m)[k].contains('\n'),
{
    lemma_replace_all_absent(m, cc_suffix(), Seq::empty(), '\n');
}

/// A loop over members without line breaks yields valid declarations.
proof fn lemma_expand_loop_wf(
    template: TestView,
    members: Seq<Seq<char>>,
    var: Seq<char>,
    derived: Option<Seq<char>>,
)
    requires
        test_wf(template),
        forall|k: int| 0 <= k < members.len() ==> !(#[trigger] members[k]).contains('\n'),
        expand_loop_spec(template, members, var, derived) is Ok,
    ensures
        forall|i: int|
            0 <= i < (expand_loop_spec(template, members, var, derived)->Ok_0).len() ==> test_wf(
                #[trigger] (expand_loop_spec(template, members, var, derived)->Ok_0)[i],
            ),
    decreases members.len(),
{
    if members.len() > 0 {
        lemma_expand_loop_wf(template, members.drop_last(), var, derived);
        let m = members.last();
        assert(!members[members.len() - 1].contains('\n'));
        lemma_loop_bindings_clean(var, derived, m);
        lemma_eval_wf(template, loop_bindings(var, derived, m));
        let prev = expand_loop_spec(template, members.drop_last(), var, derived)->Ok_0;
        let all = expand_loop_spec(template, members, var, derived)->Ok_0;
        assert forall|i: int| 0 <= i < all.len() implies test_wf(#[trigger] all[i]) by {
            if i < prev.len() {
                assert(all[i] == prev[i]);
            }
        }
    }
}

/// `${name}`.
pub open spec fn placeholder_for(name: Seq<char>) -> Seq<char> {
    seq!['$', '{'] + name + seq!['}']
}

proof fn lemma_replace_whole(s: Seq<char>, rep: Seq<char>)
    requires
        s.len() > 0,
    ensures
        replace_all(s, s, rep) == rep,
{
    assert(s.subrange(0, s.len() as int) =~= s);
    assert(s.subrange(s.len() as int, s.len() as int) =~= Seq::<char>::empty());
    assert(replace_all(Seq::<char>::empty(), s, rep) == Seq::<char>::empty());
    assert(rep + Seq::<char>::empty() =~= rep);
}

proof fn lemma_placeholder_for(name: Seq<char>)
    requires
        forall|j: int| 0 <= j < name.len() ==> name[j] != '}',
    ensures
        has_span(placeholder_for(name)),
        span(placeholder_for(name)) == placeholder_for(name),
        is_placeholder(placeholder_for(name)),
        placeholder_name(placeholder_for(name)) == name,
{
    let s = placeholder_for(name);
    assert(open_from(s, 0) == 0);
    assert(close_before(s, s.len() as int) == s.len() - 1);
    assert(s.subrange(0, s.len() as int) =~= s);
    assert(s.subrange(2, s.len() - 1) =~= name);
}

/// A loop whose declaration is named by the derived name alone and has the
/// loop variable as its one source yields, for each member, a declaration
/// named by the member with every `.cc` removed whose one source is the
/// member.
pub proof fn lemma_loop_derived_names(
    template: TestView,
    members: Seq<Seq<char>>,
    var: Seq<char>,
    d: Seq<char>,
)
    requires
        d != var,
        forall|j: int| 0 <= j < d.len() ==> d[j] != '}',
        forall|j: int| 0 <= j < var.len() ==> var[j] != '}',
        template.name == placeholder_for(d),
        template.sources == seq![placeholder_for(var)],
    ensures
        expand_loop_spec(template, members, var, Some(d)) is Ok,
        (expand_loop_spec(template, members, var, Some(d))->Ok_0).len() == members.len(),
        forall|i: int| 0 <= i < members.len() ==> {
            let t = #[trigger] (expand_loop_spec(template, members, var, Some(d))->Ok_0)[i];
            &&& t.name == apply_transform(Transform::StripCcSuffix, members[i])
            &&& t.sources == seq![members[i]]
            &&& t.kind == template.kind
        },
    decreases members.len(),
{
    if members.len() > 0 {
        lemma_loop_derived_names(template, members.drop_last(), var, d);
        let m = members.last();
        let vars = loop_bindings(var, Some(d), m);
        lemma_placeholder_for(d);
        lemma_placeholder_for(var);
        lemma_replace_whole(template.name, vars[d]);
        let srcs = template.sources;
        assert(srcs.drop_last() =~= Seq::<Seq<char>>::empty());
        assert(set_insert(Seq::empty(), m) =~= seq![m]);
        assert(vars.contains_key(d) && vars[d] == apply_transform(Transform::StripCcSuffix, m));
        assert(vars.contains_key(var) && vars[var] == m);
        assert(eval_name_spec(template.name, vars) == Ok::<Seq<char>, Seq<char>>(vars[d]));
        assert(eval_sources_spec(Seq::<Seq<char>>::empty(), vars) == Ok::<Seq<Seq<char>>, Seq<char>>(Seq::empty()));
        assert(eval_sources_spec(srcs, vars) == Ok::<Seq<Seq<char>>, Seq<char>>(seq![m]));
        let t = TestView { name: vars[d], sources: seq![m], kind: template.kind, tests: template.tests };
        assert(eval_spec(template, vars) == Ok::<TestView, Seq<char>>(t));
        assert(expand_loop_spec(template, members, var, Some(d)) == Ok::<Seq<TestView>, Seq<char>>(
            (expand_loop_spec(template, members.drop_last(), var, Some(d))->Ok_0).push(t),
        ));
        let prev = expand_loop_spec(template, members.drop_last(), var, Some(d))->Ok_0;
        let all = expand_loop_spec(template, members, var, Some(d))->Ok_0;
        assert forall|i: int| 0 <= i < members.len() implies {
            let t = #[trigger] all[i];
            &&& t.name == apply_transform(Transform::StripCcSuffix, members[i])
            &&& t.sources == seq![members[i]]
            &&& t.kind == template.kind
        } by {
            if i < members.len() - 1 {
                assert(all[i] == prev[i]);
                assert(members[i] == members.drop_last()[i]);
            }
        }
    }
}

} // verus!
