//! Character-level helpers shared by the scanner, the parsers and the
//! evaluator: the views they are specified over, and the string operations
//! they rely on.
use vstd::prelude::*;
use vstd::std_specs::iter::IteratorSpec;
use vstd::string::*;

verus! {

/// The character classes that the dialect's token rules are made of.
#[derive(Clone, Copy, Debug, PartialEq, Eq, Structural)]
pub enum CharClass {
    /// Space, tab, carriage return or line feed.
    Space,
    /// A character that may stand in an identifier token.
    Ident,
    /// A character that may stand in the name of a `${NAME}` reference.
    RefName,
    /// Any character but a closing parenthesis.
    NotClose,
    /// Any character but an opening parenthesis.
    NotOpen,
    /// Any character but a line feed.
    NotNewline,
    /// White space as Unicode defines it.
    White,
}

pub open spec fn is_ascii_alnum(c: char) -> bool {
    ('a' <= c && c <= 'z') || ('A' <= c && c <= 'Z') || ('0' <= c && c <= '9')
}

pub open spec fn is_space(c: char) -> bool {
    c == ' ' || c == '\t' || c == '\r' || c == '\n'
}

/// Identifiers take ASCII letters and digits and the punctuation `#${}_:."-/=`.
pub open spec fn is_ident_char(c: char) -> bool {
    is_ascii_alnum(c) || c == '#' || c == '$' || c == '{' || c == '}' || c == '_' || c == ':'
        || c == '.' || c == '"' || c == '-' || c == '/' || c == '='
}

pub open spec fn is_ref_name_char(c: char) -> bool {
    is_ascii_alnum(c) || c == '_'
}

pub open spec fn in_class(k: CharClass, c: char) -> bool {
    match k {
        CharClass::Space => is_space(c),
        CharClass::Ident => is_ident_char(c),
        CharClass::RefName => is_ref_name_char(c),
        CharClass::NotClose => c != ')',
        CharClass::NotOpen => c != '(',
        CharClass::NotNewline => c != '\n',
        CharClass::White => is_white(c),
    }
}

/// The characters that Unicode gives the White_Space property.
pub open spec fn is_white(c: char) -> bool {
    c == ' ' || ('\t' <= c && c <= '\r') || c == '\u{85}' || c == '\u{a0}' || c == '\u{1680}'
        || ('\u{2000}' <= c && c <= '\u{200a}') || c == '\u{2028}' || c == '\u{2029}'
        || c == '\u{202f}' || c == '\u{205f}' || c == '\u{3000}'
}

/// The end of the longest run of characters of class `k` that starts at `p`.
pub open spec fn run_end(s: Seq<char>, p: int, k: CharClass) -> int
    decreases s.len() - p,
{
    if p < 0 || p >= s.len() || !in_class(k, s[p]) {
        p
    } else {
        run_end(s, p + 1, k)
    }
}

/// `w` stands in `s` at position `p`.
pub open spec fn occurs_at(s: Seq<char>, p: int, w: Seq<char>) -> bool {
    0 <= p && p + w.len() <= s.len() && s.subrange(p, p + w.len()) == w
}

/// Every non-overlapping occurrence of `pat`, taken from the left, replaced by `rep`.
pub open spec fn replace_all(s: Seq<char>, pat: Seq<char>, rep: Seq<char>) -> Seq<char>
    decreases s.len(),
{
    if pat.len() == 0 || s.len() < pat.len() {
        s
    } else if s.subrange(0, pat.len() as int) == pat {
        rep + replace_all(s.subrange(pat.len() as int, s.len() as int), pat, rep)
    } else {
        seq![s[0]] + replace_all(s.subrange(1, s.len() as int), pat, rep)
    }
}

/// `xs` with `x` added at its end unless it is already there.
pub open spec fn set_insert(xs: Seq<Seq<char>>, x: Seq<char>) -> Seq<Seq<char>> {
    if xs.contains(x) {
        xs
    } else {
        xs.push(x)
    }
}

/// The members of `xs` added one by one, in order, to `acc`.
pub open spec fn add_all(acc: Seq<Seq<char>>, xs: Seq<Seq<char>>) -> Seq<Seq<char>>
    decreases xs.len(),
{
    if xs.len() == 0 {
        acc
    } else {
        set_insert(add_all(acc, xs.drop_last()), xs.last())
    }
}

pub proof fn lemma_run_end(s: Seq<char>, p: int, q: int, k: CharClass)
    requires
        0 <= p <= q <= s.len(),
        forall|j: int| p <= j < q ==> in_class(k, #[trigger] s[j]),
        q == s.len() || !in_class(k, s[q]),
    ensures
        run_end(s, p, k) == q,
    decreases q - p,
{
    if p < q {
        lemma_run_end(s, p + 1, q, k);
    }
}

pub proof fn lemma_run_end_bounds(s: Seq<char>, p: int, k: CharClass)
    requires
        0 <= p <= s.len(),
    ensures
        p <= run_end(s, p, k) <= s.len(),
        forall|j: int| p <= j < run_end(s, p, k) ==> in_class(k, #[trigger] s[j]),
    decreases s.len() - p,
{
    if p < s.len() && in_class(k, s[p]) {
        lemma_run_end_bounds(s, p + 1, k);
    }
}

pub proof fn lemma_set_insert_no_dup(xs: Seq<Seq<char>>, x: Seq<char>)
    requires
        xs.no_duplicates(),
    ensures
        set_insert(xs, x).no_duplicates(),
        set_insert(xs, x).to_set() == xs.to_set().insert(x),
{
    if !xs.contains(x) {
        assert forall|i: int, j: int|
            0 <= i < j < xs.push(x).len() implies xs.push(x)[i] != xs.push(x)[j] by {
            if j == xs.len() {
                assert(xs.contains(xs[i]));
            }
        }
        lemma_push_to_set(xs, x);
    } else {
        assert(xs.to_set() =~= xs.to_set().insert(x));
    }
}

pub proof fn lemma_push_to_set(xs: Seq<Seq<char>>, x: Seq<char>)
    ensures
        xs.push(x).to_set() == xs.to_set().insert(x),
{
    assert forall|y| #[trigger] xs.push(x).to_set().contains(y) implies xs.to_set().insert(x).contains(y) by {
        let i = choose|i: int| 0 <= i < xs.push(x).len() && xs.push(x)[i] == y;
        if i < xs.len() {
            assert(xs[i] == y);
        }
    }
    assert forall|y| #[trigger] xs.to_set().insert(x).contains(y) implies xs.push(x).to_set().contains(y) by {
        if y == x {
            assert(xs.push(x)[xs.len() as int] == y);
        } else {
            let i = choose|i: int| 0 <= i < xs.len() && xs[i] == y;
            assert(xs.push(x)[i] == y);
        }
    }
    assert(xs.push(x).to_set() =~= xs.to_set().insert(x));
}

pub proof fn lemma_add_all(acc: Seq<Seq<char>>, xs: Seq<Seq<char>>)
    requires
        acc.no_duplicates(),
    ensures
        add_all(acc, xs).no_duplicates(),
        add_all(acc, xs).to_set() == acc.to_set().union(xs.to_set()),
    decreases xs.len(),
{
    if xs.len() == 0 {
        assert(xs.to_set() =~= Set::empty());
        assert(acc.to_set().union(xs.to_set()) =~= acc.to_set());
    } else {
        lemma_add_all(acc, xs.drop_last());
        lemma_set_insert_no_dup(add_all(acc, xs.drop_last()), xs.last());
        assert(xs =~= xs.drop_last().push(xs.last()));
        lemma_push_to_set(xs.drop_last(), xs.last());
        assert(add_all(acc, xs).to_set() =~= acc.to_set().union(xs.to_set()));
    }
}

/// The characters of `s`, one by one.
pub fn chars_of(s: &str) -> (r: Vec<char>)
    ensures
        r@ == s@,
{
    broadcast use vstd::string::axiom_spec_iter, vstd::string::next_postcondition;

    let mut out: Vec<char> = Vec::new();
    let mut it = s.chars();
    assert(out@ + it.remaining() =~= s@);
    loop
        invariant
            it.obeys_prophetic_iter_laws(),
            out@ + it.remaining() == s@,
        ensures
            out@ == s@,
        decreases s@.len() - out@.len(),
    {
        match it.next() {
            Some(c) => {
                let ghost before = out@;
                out.push(c);
                assert(out@ =~= before.push(c));
                assert(before + seq![c] + it.remaining() =~= before + (seq![c] + it.remaining()));
            },
            None => {
                assert(out@ + it.remaining() =~= out@);
                break;
            },
        }
    }
    out
}

/// The end of the run of characters of class `k` in `s` that starts at `p`.
pub fn scan_run(s: &Vec<char>, p: usize, k: CharClass) -> (r: usize)
    requires
        p <= s@.len(),
    ensures
        r == run_end(s@, p as int, k),
        p <= r <= s@.len(),
{
    let mut q = p;
    while q < s.len() && char_in_class(k, s[q])
        invariant
            p <= q <= s@.len(),
            forall|j: int| p <= j < q ==> in_class(k, #[trigger] s@[j]),
        decreases s@.len() - q,
    {
        q = q + 1;
    }
    proof {
        lemma_run_end(s@, p as int, q as int, k);
    }
    q
}

pub fn char_in_class(k: CharClass, c: char) -> (r: bool)
    ensures
        r == in_class(k, c),
{
    let alnum = ('a' <= c && c <= 'z') || ('A' <= c && c <= 'Z') || ('0' <= c && c <= '9');
    match k {
        CharClass::Space => c == ' ' || c == '\t' || c == '\r' || c == '\n',
        CharClass::Ident => alnum || c == '#' || c == '$' || c == '{' || c == '}' || c == '_'
            || c == ':' || c == '.' || c == '"' || c == '-' || c == '/' || c == '=',
        CharClass::RefName => alnum || c == '_',
        CharClass::NotClose => c != ')',
        CharClass::NotOpen => c != '(',
        CharClass::NotNewline => c != '\n',
        CharClass::White => c == ' ' || ('\t' <= c && c <= '\r') || c == '\u{85}' || c == '\u{a0}'
            || c == '\u{1680}' || ('\u{2000}' <= c && c <= '\u{200a}') || c == '\u{2028}'
            || c == '\u{2029}' || c == '\u{202f}' || c == '\u{205f}' || c == '\u{3000}',
    }
}

/// Whether `w` stands in `s` at position `p`.
pub fn occurs_at_exec(s: &Vec<char>, p: usize, w: &Vec<char>) -> (r: bool)
    ensures
        r == occurs_at(s@, p as int, w@),
{
    if p > s.len() || w.len() > s.len() - p {
        return false;
    }
    let mut k: usize = 0;
    while k < w.len()
        invariant
            p + w@.len() <= s.len(),
            k <= w@.len(),
            forall|j: int| 0 <= j < k ==> s@[p + j] == w@[j],
        decreases w@.len() - k,
    {
        assert(p + k < s@.len());
        if s[p + k] != w[k] {
            assert(s@.subrange(p as int, p + w@.len())[k as int] != w@[k as int]);
            return false;
        }
        k = k + 1;
    }
    assert(s@.subrange(p as int, p + w@.len()) =~= w@);
    true
}


proof fn lemma_replace_all_step(s: Seq<char>, i: int, pat: Seq<char>, rep: Seq<char>)
    requires
        pat.len() > 0,
        0 <= i,
        i + pat.len() <= s.len(),
    ensures
        occurs_at(s, i, pat) ==> replace_all(s.subrange(i, s.len() as int), pat, rep) == rep
            + replace_all(s.subrange(i + pat.len(), s.len() as int), pat, rep),
        !occurs_at(s, i, pat) ==> replace_all(s.subrange(i, s.len() as int), pat, rep) == seq![
            s[i],
        ] + replace_all(s.subrange(i + 1, s.len() as int), pat, rep),
{
    let t = s.subrange(i, s.len() as int);
    assert(t.subrange(0, pat.len() as int) =~= s.subrange(i, i + pat.len()));
    assert(t.subrange(pat.len() as int, t.len() as int) =~= s.subrange(
        i + pat.len(),
        s.len() as int,
    ));
    assert(t.subrange(1, t.len() as int) =~= s.subrange(i + 1, s.len() as int));
}

/// `s` with every non-overlapping occurrence of `pat`, taken from the left,
/// replaced by `rep`.
pub fn replace_all_exec(s: &str, pat: &str, rep: &str) -> (r: String)
    requires
        pat@.len() > 0,
    ensures
        r@ == replace_all(s@, pat@, rep@),
{
    let sc = chars_of(s);
    let pc = chars_of(pat);
    let n = sc.len();
    let m = pc.len();
    let mut out = String::new();
    let mut start: usize = 0;
    let mut i: usize = 0;
    assert(s@.subrange(0, n as int) =~= s@);
    assert(s@.subrange(0, 0) =~= Seq::<char>::empty());
    while i < n && m <= n - i
        invariant
            sc@ == s@,
            pc@ == pat@,
            n == s@.len(),
            m == pat@.len(),
            m > 0,
            start <= i <= n,
            out@ + s@.subrange(start as int, i as int) + replace_all(
                s@.subrange(i as int, n as int),
                pat@,
                rep@,
            ) == replace_all(s@, pat@, rep@),
        decreases n - i,
    {
        proof {
            lemma_replace_all_step(s@, i as int, pat@, rep@);
        }
        if occurs_at_exec(&sc, i, &pc) {
            let chunk = s.substring_char(start, i);
            out.append(chunk);
            out.append(rep);
            i = i + m;
            start = i;
            assert(s@.subrange(start as int, i as int) =~= Seq::<char>::empty());
        } else {
            assert(s@.subrange(start as int, i as int) + seq![s@[i as int]] =~= s@.subrange(
                start as int,
                i + 1,
            ));
            i = i + 1;
        }
    }
    proof {
        assert(s@.subrange(0, n as int) =~= s@);
        let rest = s@.subrange(i as int, n as int);
        assert(rest.len() < m);
        assert(replace_all(rest, pat@, rep@) == rest);
        assert(s@.subrange(start as int, i as int) + rest =~= s@.subrange(start as int, n as int));
    }
    let tail = s.substring_char(start, n);
    out.append(tail);
    out
}

/// Whether `v` holds a string equal to `x`.
pub fn contains_str(v: &Vec<String>, x: &String) -> (r: bool)
    ensures
        r == v.deep_view().contains(x@),
{
    let mut j: usize = 0;
    while j < v.len()
        invariant
            j <= v@.len(),
            forall|k: int| 0 <= k < j ==> v.deep_view()[k] != x@,
        decreases v@.len() - j,
    {
        assert(v.deep_view()[j as int] == v@[j as int]@);
        if v[j].eq(x) {
            return true;
        }
        j = j + 1;
    }
    false
}

/// Adds `x` at the end of `v` unless `v` already holds it.
pub fn insert_unique(v: &mut Vec<String>, x: String)
    ensures
        final(v).deep_view() == set_insert(old(v).deep_view(), x@),
{
    if !contains_str(v, &x) {
        v.push(x);
        assert(final(v).deep_view() =~= old(v).deep_view().push(x@));
    }
}

/// The first index from `i` on that holds `c`, or the length of `s`.
pub open spec fn char_from(s: Seq<char>, i: int, c: char) -> int
    decreases s.len() - i,
{
    if i < 0 || i >= s.len() || s[i] == c {
        i
    } else {
        char_from(s, i + 1, c)
    }
}

/// The fields of `s` from `i` on, separated by `c`; there is always at least one.
pub open spec fn fields_from(s: Seq<char>, i: int, c: char) -> Seq<Seq<char>>
    decreases s.len() - i,
{
    if i < 0 || i > s.len() {
        Seq::empty()
    } else {
        let j = char_from(s, i, c);
        if j < i || j >= s.len() {
            seq![s.subrange(i, s.len() as int)]
        } else {
            seq![s.subrange(i, j)] + fields_from(s, j + 1, c)
        }
    }
}

/// The fields of `s` separated by `c`.
pub fn split_fields(s: &str, c: char) -> (r: Vec<String>)
    ensures
        r.deep_view() == fields_from(s@, 0, c),
{
    let cs = chars_of(s);
    let n = cs.len();
    let mut out: Vec<String> = Vec::new();
    let mut i: usize = 0;
    assert(out.deep_view() + fields_from(s@, 0, c) =~= fields_from(s@, 0, c));
    loop
        invariant_except_break
            out.deep_view() + fields_from(s@, i as int, c) == fields_from(s@, 0, c),
        invariant
            cs@ == s@,
            n == s@.len(),
            i <= n,
        ensures
            out.deep_view() == fields_from(s@, 0, c),
        decreases n - i,
    {
        let mut j = i;
        while j < n && cs[j] != c
            invariant
                cs@ == s@,
                n == s@.len(),
                i <= j <= n,
                char_from(s@, i as int, c) == char_from(s@, j as int, c),
            decreases n - j,
        {
            j = j + 1;
        }
        let field = s.substring_char(i, j).to_owned();
        let ghost before = out.deep_view();
        out.push(field);
        assert(out.deep_view() =~= before.push(field@));
        if j >= n {
            assert(before + seq![field@] =~= out.deep_view());
            break;
        }
        assert(before + (seq![field@] + fields_from(s@, j + 1, c)) =~= before.push(field@)
            + fields_from(s@, j + 1, c));
        i = j + 1;
    }
    out
}
/// Replacing brings in no character that neither the text nor the
/// replacement holds.
pub proof fn lemma_replace_all_absent(s: Seq<char>, pat: Seq<char>, rep: Seq<char>, c: char)
    requires
        !s.contains(c),
        !rep.contains(c),
    ensures
        !replace_all(s, pat, rep).contains(c),
    decreases s.len(),
{
    if pat.len() == 0 || s.len() < pat.len() {
    } else if s.subrange(0, pat.len() as int) == pat {
        let rest = s.subrange(pat.len() as int, s.len() as int);
        assert(!rest.contains(c)) by {
            if rest.contains(c) {
                let k = choose|k: int| 0 <= k < rest.len() && rest[k] == c;
                assert(s[k + pat.len()] == c);
            }
        }
        lemma_replace_all_absent(rest, pat, rep, c);
        let r = rep + replace_all(rest, pat, rep);
        if r.contains(c) {
            let k = choose|k: int| 0 <= k < r.len() && r[k] == c;
            if k < rep.len() {
                assert(rep[k] == c);
            } else {
                assert(replace_all(rest, pat, rep)[k - rep.len()] == c);
            }
        }
    } else {
        let rest = s.subrange(1, s.len() as int);
        assert(!rest.contains(c)) by {
            if rest.contains(c) {
                let k = choose|k: int| 0 <= k < rest.len() && rest[k] == c;
                assert(s[k + 1] == c);
            }
        }
        lemma_replace_all_absent(rest, pat, rep, c);
        let r = seq![s[0]] + replace_all(rest, pat, rep);
        if r.contains(c) {
            let k = choose|k: int| 0 <= k < r.len() && r[k] == c;
            if k == 0 {
                assert(s[0] == c);
            } else {
                assert(replace_all(rest, pat, rep)[k - 1] == c);
            }
        }
    }
}

/// What adding members gives holds only what was there and what was added.
pub proof fn lemma_add_all_from(acc: Seq<Seq<char>>, xs: Seq<Seq<char>>, y: Seq<char>)
    requires
        add_all(acc, xs).contains(y),
    ensures
        acc.contains(y) || xs.contains(y),
    decreases xs.len(),
{
    if xs.len() > 0 {
        let prev = add_all(acc, xs.drop_last());
        if prev.contains(y) {
            lemma_add_all_from(acc, xs.drop_last(), y);
            if xs.drop_last().contains(y) {
                let k = choose|k: int| 0 <= k < xs.drop_last().len() && xs.drop_last()[k] == y;
                assert(xs[k] == y);
            }
        } else {
            let r = set_insert(prev, xs.last());
            let k = choose|k: int| 0 <= k < r.len() && r[k] == y;
            assert(xs[xs.len() - 1] == y);
        }
    }
}

} // verus!
