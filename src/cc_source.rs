//! Finding the names of the test cases that a C++ source declares, by the
//! macros that declare them.
use vstd::prelude::*;

use crate::suite::CcTest;
use crate::text::{chars_of, is_white, occurs_at, occurs_at_exec, run_end, scan_run, CharClass};

verus! {

/// How the arguments of a declaring macro are separated.
#[derive(Clone, Copy, Debug)]
pub enum SplitOn {
    Delim(&'static str),
}

/// Why a source could not be scanned.
#[derive(Debug)]
pub enum ScanError {
    /// A declaring macro whose argument list never closes.
    MissingClosingParen,
}

/// The lines of `s` from `i` on: split at line feeds, a carriage return
/// before a line feed dropped, no empty line after a final line feed.
pub open spec fn lines_from(s: Seq<char>, i: int) -> Seq<Seq<char>>
    decreases s.len() - i,
{
    if i < 0 || i >= s.len() {
        Seq::empty()
    } else {
        let j = run_end(s, i, CharClass::NotNewline);
        let piece = s.subrange(i, j);
        let line = if j < s.len() && piece.len() > 0 && piece.last() == '\r' {
            piece.drop_last()
        } else {
            piece
        };
        if j < i || j >= s.len() {
            seq![line]
        } else {
            seq![line] + lines_from(s, j + 1)
        }
    }
}

/// The end of the run of white space that ends at `j`, looking back.
pub open spec fn back_run(s: Seq<char>, j: int) -> int
    decreases j,
{
    if j <= 0 || j > s.len() || !is_white(s[j - 1]) {
        j
    } else {
        back_run(s, j - 1)
    }
}

/// `s` without white space at either end.
pub open spec fn trim(s: Seq<char>) -> Seq<char> {
    let a = run_end(s, 0, CharClass::White);
    let b = back_run(s, s.len() as int);
    if a >= b {
        Seq::empty()
    } else {
        s.subrange(a, b)
    }
}

/// `s` with every `(` left out.
pub open spec fn drop_open(s: Seq<char>) -> Seq<char>
    decreases s.len(),
{
    if s.len() == 0 {
        s
    } else if s.last() == '(' {
        drop_open(s.drop_last())
    } else {
        drop_open(s.drop_last()).push(s.last())
    }
}

/// The first index from `i` on where `d` stands in `s`, or the length of `s`.
pub open spec fn delim_from(s: Seq<char>, d: Seq<char>, i: int) -> int
    decreases s.len() - i,
{
    if i < 0 || i >= s.len() || occurs_at(s, i, d) {
        i
    } else {
        delim_from(s, d, i + 1)
    }
}

/// The first argument of the macro call in `buf`: the text after the first
/// `(` with the other `(` left out, up to the first `)`, up to the first
/// separator, trimmed.
pub open spec fn first_arg(buf: Seq<char>, d: Seq<char>) -> Seq<char> {
    let o = run_end(buf, 0, CharClass::NotOpen);
    let after = if o >= buf.len() {
        Seq::empty()
    } else {
        drop_open(buf.subrange(o + 1, buf.len() as int))
    };
    let upto = after.subrange(0, run_end(after, 0, CharClass::NotClose));
    trim(upto.subrange(0, delim_from(upto, d, 0)))
}

/// `buf` with lines from `next` on added until it holds a `)`: the text and
/// the index of the first line not taken.
pub open spec fn gather(ls: Seq<Seq<char>>, next: int, buf: Seq<char>) -> Option<(Seq<char>, int)>
    decreases ls.len() - next,
{
    if buf.contains(')') {
        Some((buf, next))
    } else if next < 0 || next >= ls.len() {
        None
    } else {
        gather(ls, next + 1, buf + ls[next])
    }
}

/// The test cases that the macros of `tags`, from `ti` on, declare in a line
/// that starts with them, and the index of the first line not taken.
pub open spec fn scan_tags(
    ls: Seq<Seq<char>>,
    next: int,
    line: Seq<char>,
    tags: Seq<Seq<char>>,
    ti: int,
    d: Seq<char>,
) -> Option<(Seq<(Seq<char>, Seq<char>)>, int)>
    decreases tags.len() - ti,
{
    if ti < 0 || ti >= tags.len() {
        Some((Seq::empty(), next))
    } else if occurs_at(line, 0, tags[ti]) {
        match gather(ls, next, line) {
            None => None,
            Some((buf, n2)) => match scan_tags(ls, n2, line, tags, ti + 1, d) {
                None => None,
                Some((found, n3)) => Some((seq![(tags[ti], first_arg(buf, d))] + found, n3)),
            },
        }
    } else {
        scan_tags(ls, next, line, tags, ti + 1, d)
    }
}

/// The test cases declared from line `k` on.
pub open spec fn scan_lines(ls: Seq<Seq<char>>, k: int, tags: Seq<Seq<char>>, d: Seq<char>) -> Option<
    Seq<(Seq<char>, Seq<char>)>,
>
    decreases ls.len() - k,
{
    if k < 0 || k >= ls.len() {
        Some(Seq::empty())
    } else {
        match scan_tags(ls, k + 1, trim(ls[k]), tags, 0, d) {
            None => None,
            Some((found, k2)) => if k2 <= k || k2 > ls.len() {
                Some(found)
            } else {
                match scan_lines(ls, k2, tags, d) {
                    None => None,
                    Some(rest) => Some(found + rest),
                }
            },
        }
    }
}

pub open spec fn cc_test_view(t: CcTest) -> (Seq<char>, Seq<char>) {
    (t.tag@, t.name@)
}

/// The lines of `s`.
pub fn split_lines_of(s: &str) -> (r: Vec<String>)
    ensures
        r.deep_view() == lines_from(s@, 0),
{
    let cs = chars_of(s);
    let n = cs.len();
    let mut out: Vec<String> = Vec::new();
    let mut i: usize = 0;
    assert(out.deep_view() + lines_from(s@, 0) =~= lines_from(s@, 0));
    while i < n
        invariant
            cs@ == s@,
            n == s@.len(),
            i <= n,
            out.deep_view() + lines_from(s@, i as int) == lines_from(s@, 0),
        decreases n - i,
    {
        let j = scan_run(&cs, i, CharClass::NotNewline);
        let mut end = j;
        if j < n && j > i && cs[j - 1] == '\r' {
            end = j - 1;
        }
        let line = s.substring_char(i, end).to_owned();
        assert(line@ =~= {
            let piece = s@.subrange(i as int, j as int);
            if j < s@.len() && piece.len() > 0 && piece.last() == '\r' {
                piece.drop_last()
            } else {
                piece
            }
        });
        let ghost before = out.deep_view();
        out.push(line);
        assert(out.deep_view() =~= before.push(line@));
        if j < n {
            i = j + 1;
            assert(before + (seq![line@] + lines_from(s@, j + 1)) =~= before.push(line@) + lines_from(s@, j + 1));
        } else {
            i = n;
            assert(lines_from(s@, i as int) =~= Seq::<Seq<char>>::empty());
            assert(out.deep_view() + lines_from(s@, i as int) =~= out.deep_view());
        }
    }
    assert(lines_from(s@, i as int) =~= Seq::<Seq<char>>::empty());
    assert(out.deep_view() + lines_from(s@, i as int) =~= out.deep_view());
    out
}

/// `s` without white space at either end.
pub fn trim_string(s: &str) -> (r: String)
    ensures
        r@ == trim(s@),
{
    let cs = chars_of(s);
    let n = cs.len();
    let a = scan_run(&cs, 0, CharClass::White);
    let mut b = n;
    while b > 0 && char_is_white(cs[b - 1])
        invariant
            cs@ == s@,
            n == s@.len(),
            b <= n,
            back_run(s@, n as int) == back_run(s@, b as int),
        decreases b,
    {
        b = b - 1;
    }
    if a >= b {
        proof {
            reveal_strlit("");
        }
        "".to_owned()
    } else {
        s.substring_char(a, b).to_owned()
    }
}

fn char_is_white(c: char) -> (r: bool)
    ensures
        r == is_white(c),
{
    crate::text::char_in_class(CharClass::White, c)
}

/// Whether `s` holds `c`.
fn holds_char(s: &String, c: char) -> (r: bool)
    ensures
        r == s@.contains(c),
{
    let cs = chars_of(s.as_str());
    let mut i: usize = 0;
    while i < cs.len()
        invariant
            cs@ == s@,
            i <= cs@.len(),
            forall|j: int| 0 <= j < i ==> cs@[j] != c,
        decreases cs@.len() - i,
    {
        if cs[i] == c {
            return true;
        }
        i = i + 1;
    }
    false
}

/// The first argument of the macro call in `buf`.
fn first_arg_exec(buf: &String, d: &str) -> (r: String)
    ensures
        r@ == first_arg(buf@, d@),
{
    let ghost b = buf@;
    let bc = chars_of(buf.as_str());
    let n = bc.len();
    let o = scan_run(&bc, 0, CharClass::NotOpen);
    let mut after = String::new();
    if o < n {
        let mut k: usize = o + 1;
        assert(b.subrange(o + 1, k as int) =~= Seq::<char>::empty());
        while k < n
            invariant
                bc@ == b,
                buf@ == b,
                n == b.len(),
                o < k <= n,
                after@ == drop_open(b.subrange(o + 1, k as int)),
            decreases n - k,
        {
            assert(b.subrange(o + 1, k + 1).drop_last() =~= b.subrange(o + 1, k as int));
            if bc[k] != '(' {
                let piece = buf.as_str().substring_char(k, k + 1);
                after.append(piece);
                assert(piece@ =~= seq![b[k as int]]);
                assert(after@ =~= drop_open(b.subrange(o + 1, k as int)).push(b[k as int]));
            }
            k = k + 1;
        }
    }
    let ghost a = after@;
    let ac = chars_of(after.as_str());
    let c = scan_run(&ac, 0, CharClass::NotClose);
    let upto = after.as_str().substring_char(0, c);
    let uc = chars_of(upto);
    let dc = chars_of(d);
    let mut i: usize = 0;
    while i < uc.len() && !occurs_at_exec(&uc, i, &dc)
        invariant
            uc@ == upto@,
            dc@ == d@,
            i <= uc@.len(),
            delim_from(upto@, d@, 0) == delim_from(upto@, d@, i as int),
        decreases uc@.len() - i,
    {
        i = i + 1;
    }
    let field = upto.substring_char(0, i);
    trim_string(field)
}

/// `line` with lines from `next` on added until it holds a `)`.
fn gather_exec(ls: &Vec<String>, next: usize, line: &String) -> (r: Option<(String, usize)>)
    requires
        next <= ls@.len(),
    ensures
        match gather(ls.deep_view(), next as int, line@) {
            Some((buf, n2)) => r is Some && (r->0).0@ == buf && (r->0).1 as int == n2,
            None => r is None,
        },
        r is Some ==> next <= (r->0).1 <= ls@.len(),
{
    let ghost d = ls.deep_view();
    let mut buf = line.clone();
    let mut k = next;
    loop
        invariant
            d == ls.deep_view(),
            next <= k <= ls@.len(),
            gather(d, next as int, line@) == gather(d, k as int, buf@),
        decreases ls@.len() - k,
    {
        if holds_char(&buf, ')') {
            return Some((buf, k));
        }
        if k >= ls.len() {
            return None;
        }
        buf.append(ls[k].as_str());
        assert(ls[k as int]@ == d[k as int]);
        k = k + 1;
    }
}

/// `found` put before the test cases of `o`.
pub open spec fn prepend_found(
    found: Seq<(Seq<char>, Seq<char>)>,
    o: Option<(Seq<(Seq<char>, Seq<char>)>, int)>,
) -> Option<(Seq<(Seq<char>, Seq<char>)>, int)> {
    match o {
        Some((f, n)) => Some((found + f, n)),
        None => None,
    }
}

pub open spec fn cc_views(v: Seq<CcTest>) -> Seq<(Seq<char>, Seq<char>)> {
    v.map_values(|t: CcTest| cc_test_view(t))
}

/// The test cases that the macros of `tags` declare in `line`.
fn scan_tags_exec(ls: &Vec<String>, next: usize, line: &String, tags: &Vec<String>, d: &str) -> (r:
    Option<(Vec<CcTest>, usize)>)
    requires
        next <= ls@.len(),
    ensures
        match scan_tags(ls.deep_view(), next as int, line@, tags.deep_view(), 0, d@) {
            Some((f, n2)) => r is Some && cc_views((r->0).0@) == f && (r->0).1 as int == n2,
            None => r is None,
        },
        r is Some ==> next <= (r->0).1 <= ls@.len(),
{
    let ghost lv = ls.deep_view();
    let ghost tv = tags.deep_view();
    let mut found: Vec<CcTest> = Vec::new();
    let mut k = next;
    let mut ti: usize = 0;
    assert(prepend_found(cc_views(found@), scan_tags(lv, k as int, line@, tv, 0, d@)) =~= scan_tags(lv, next as int, line@, tv, 0, d@)) by {
        match scan_tags(lv, k as int, line@, tv, 0, d@) {
            Some((f, n)) => {
                assert(cc_views(found@) + f =~= f);
            },
            None => {},
        }
    }
    while ti < tags.len()
        invariant
            lv == ls.deep_view(),
            tv == tags.deep_view(),
            next <= k <= ls@.len(),
            ti <= tv.len(),
            scan_tags(lv, next as int, line@, tv, 0, d@) == prepend_found(
                cc_views(found@),
                scan_tags(lv, k as int, line@, tv, ti as int, d@),
            ),
        decreases tv.len() - ti,
    {
        let tc = chars_of(tags[ti].as_str());
        let lc = chars_of(line.as_str());
        if occurs_at_exec(&lc, 0, &tc) {
            match gather_exec(ls, k, line) {
                None => return None,
                Some((buf, k2)) => {
                    let name = first_arg_exec(&buf, d);
                    let ghost before = cc_views(found@);
                    let item = CcTest { tag: tags[ti].clone(), name };
                    let ghost iv = cc_test_view(item);
                    found.push(item);
                    assert(cc_views(found@) =~= before.push(iv));
                    proof {
                        match scan_tags(lv, k2 as int, line@, tv, ti + 1, d@) {
                            Some((f, n3)) => {
                                assert(before + (seq![iv] + f) =~= before.push(iv) + f);
                            },
                            None => {},
                        }
                    }
                    k = k2;
                },
            }
        }
        ti = ti + 1;
    }
    assert(cc_views(found@) + Seq::<(Seq<char>, Seq<char>)>::empty() =~= cc_views(found@));
    Some((found, k))
}

/// The names of the test cases that `data` declares with the macros of
/// `tags`, each with the macro that declares it, in order of lines and then
/// of `tags`.
pub fn parse_test_name_from_source(data: &str, tags: &Vec<String>, split_args_on: SplitOn) -> (r:
    Result<Vec<CcTest>, ScanError>)
    ensures
        ({
            let d = match split_args_on {
                SplitOn::Delim(d) => d@,
            };
            match scan_lines(lines_from(data@, 0), 0, tags.deep_view(), d) {
                Some(f) => r is Ok && cc_views(r->Ok_0@) == f,
                None => r is Err,
            }
        }),
{
    let d = match split_args_on {
        SplitOn::Delim(d) => d,
    };
    let ls = split_lines_of(data);
    let ghost lv = ls.deep_view();
    let mut out: Vec<CcTest> = Vec::new();
    let mut k: usize = 0;
    assert(cc_views(out@) =~= Seq::<(Seq<char>, Seq<char>)>::empty());
    loop
        invariant_except_break
            match scan_lines(lv, k as int, tags.deep_view(), d@) {
                Some(f) => scan_lines(lv, 0, tags.deep_view(), d@) == Some(cc_views(out@) + f),
                None => scan_lines(lv, 0, tags.deep_view(), d@) is None,
            },
        invariant
            lv == ls.deep_view(),
            lv == lines_from(data@, 0),
            d@ == match split_args_on {
                SplitOn::Delim(x) => x@,
            },
            k <= lv.len(),
        ensures
            scan_lines(lv, 0, tags.deep_view(), d@) == Some(cc_views(out@)),
        decreases lv.len() - k,
    {
        if k >= ls.len() {
            assert(cc_views(out@) + Seq::<(Seq<char>, Seq<char>)>::empty() =~= cc_views(out@));
            break;
        }
        let line = trim_string(ls[k].as_str());
        assert(ls[k as int]@ == lv[k as int]);
        let res = scan_tags_exec(&ls, k + 1, &line, tags, d);
        assert(scan_lines(lv, k as int, tags.deep_view(), d@) == match scan_tags(lv, k + 1, trim(lv[k as int]), tags.deep_view(), 0, d@) {
            None => None,
            Some((found, k2)) => if k2 <= k || k2 > lv.len() {
                Some(found)
            } else {
                match scan_lines(lv, k2, tags.deep_view(), d@) {
                    None => None,
                    Some(rest) => Some(found + rest),
                }
            },
        });
        match res {
            None => return Err(ScanError::MissingClosingParen),
            Some((found, k2)) => {
                let ghost before = cc_views(out@);
                let ghost fv = cc_views(found@);
                let mut rest = found;
                let mut j: usize = 0;
                let total = rest.len();
                assert(rest@ =~= found@.subrange(0, total as int));
                while rest.len() > 0
                    invariant
                        j <= total,
                        total == fv.len(),
                        fv == cc_views(found@),
                        cc_views(rest@) == fv.subrange(j as int, total as int),
                        cc_views(out@) == before + fv.subrange(0, j as int),
                    decreases rest@.len(),
                {
                    let ghost ro = rest@;
                    let ghost rv = cc_views(ro);
                    assert(rv.len() == ro.len());
                    assert(rv == fv.subrange(j as int, total as int));
                    assert(rv[0] == cc_test_view(ro[0]));
                    let item = rest.remove(0);
                    assert(rest@ =~= ro.subrange(1, ro.len() as int));
                    assert(item == ro[0]);
                    assert(cc_test_view(item) == fv[j as int]);
                    assert(cc_views(rest@) =~= fv.subrange(j + 1, total as int)) by {
                        assert forall|x: int| 0 <= x < rest@.len() implies cc_views(rest@)[x] == fv.subrange(j + 1, total as int)[x] by {
                            assert(rest@[x] == ro[x + 1]);
                            assert(rv[x + 1] == cc_test_view(ro[x + 1]));
                        }
                    }
                    let ghost ob = cc_views(out@);
                    out.push(item);
                    assert(cc_views(out@) =~= ob.push(fv[j as int]));
                    assert(before + fv.subrange(0, j + 1) =~= (before + fv.subrange(0, j as int)).push(fv[j as int]));
                    j = j + 1;
                }
                assert(fv.subrange(0, j as int) =~= fv);
                proof {
                    match scan_lines(lv, k2 as int, tags.deep_view(), d@) {
                        Some(g) => {
                            assert(before + (fv + g) =~= (before + fv) + g);
                        },
                        None => {},
                    }
                }
                k = k2;
            },
        }
    }
    Ok(out)
}

} // verus!
