//! The tag scanner: skips text until the next construct keyword, and reads
//! the tokens that the constructs are made of.
use vstd::prelude::*;

use crate::structures::ParsedTag;
use crate::text::{chars_of, occurs_at, occurs_at_exec, run_end, scan_run, CharClass};

verus! {

/// The number of keywords that the scanner knows.
pub const N_KEYWORDS: usize = 10;

/// The keywords, each with and without a space before its parenthesis.
pub open spec fn keyword(i: int) -> Seq<char> {
    if i == 0 {
        seq!['s', 'e', 't', '(']
    } else if i == 1 {
        seq!['s', 'e', 't', ' ', '(']
    } else if i == 2 {
        seq!['f', 'o', 'r', 'e', 'a', 'c', 'h', '(']
    } else if i == 3 {
        seq!['f', 'o', 'r', 'e', 'a', 'c', 'h', ' ', '(']
    } else if i == 4 {
        seq!['e', 'n', 'd', 'f', 'o', 'r', 'e', 'a', 'c', 'h', '(', ')']
    } else if i == 5 {
        seq!['e', 'n', 'd', 'f', 'o', 'r', 'e', 'a', 'c', 'h', ' ', '(', ')']
    } else if i == 6 {
        seq!['r', 'p', '_', 't', 'e', 's', 't', '(']
    } else if i == 7 {
        seq!['r', 'p', '_', 't', 'e', 's', 't', ' ', '(']
    } else if i == 8 {
        gfc_word() + seq!['(']
    } else {
        gfc_word() + seq![' ', '(']
    }
}

pub open spec fn gfc_word() -> Seq<char> {
    seq![
        'g', 'e', 't', '_', 'f', 'i', 'l', 'e', 'n', 'a', 'm', 'e', '_', 'c', 'o', 'm', 'p', 'o',
        'n', 'e', 'n', 't',
    ]
}

/// The construct that keyword `i` opens.
pub open spec fn keyword_tag(i: int) -> ParsedTag {
    if i < 2 {
        ParsedTag::SetDecl
    } else if i < 4 {
        ParsedTag::ForEach
    } else if i < 6 {
        ParsedTag::EndForEach
    } else if i < 8 {
        ParsedTag::RpTest
    } else {
        ParsedTag::GetFileNameComponent
    }
}

/// The first keyword from `i` on that stands at `p`: its tag and the
/// position after it.
pub open spec fn tag_from(s: Seq<char>, p: int, i: int) -> Option<(ParsedTag, int)>
    decreases 10 - i,
{
    if i < 0 || i >= 10 {
        None
    } else if occurs_at(s, p, keyword(i)) {
        Some((keyword_tag(i), p + keyword(i).len()))
    } else {
        tag_from(s, p, i + 1)
    }
}

/// The first keyword at or after `p`, and the position after it; at the end
/// of the text, `EOF`.
pub open spec fn next_tag(s: Seq<char>, p: int) -> (ParsedTag, int)
    decreases s.len() - p,
{
    if p < 0 || p >= s.len() {
        (ParsedTag::EOF, s.len() as int)
    } else {
        match tag_from(s, p, 0) {
            Some(r) => r,
            None => next_tag(s, p + 1),
        }
    }
}

/// The tag that a keyword's exact text names; the empty text names `EOF`.
pub open spec fn tag_of_text(w: Seq<char>) -> Option<ParsedTag> {
    if w.len() == 0 {
        Some(ParsedTag::EOF)
    } else if exists|i: int| 0 <= i < 10 && keyword(i) == w {
        Some(keyword_tag(choose|i: int| 0 <= i < 10 && keyword(i) == w))
    } else {
        None
    }
}

pub proof fn lemma_tag_from(s: Seq<char>, p: int, i: int)
    requires
        0 <= p,
        0 <= i,
    ensures
        match tag_from(s, p, i) {
            Some((_, q)) => p < q <= s.len(),
            None => true,
        },
    decreases 10 - i,
{
    if i < 10 && !occurs_at(s, p, keyword(i)) {
        lemma_tag_from(s, p, i + 1);
    }
}

pub proof fn lemma_next_tag(s: Seq<char>, p: int)
    requires
        0 <= p,
    ensures
        next_tag(s, p).0 != ParsedTag::EOF ==> p < next_tag(s, p).1 <= s.len(),
        next_tag(s, p).0 == ParsedTag::EOF ==> next_tag(s, p).1 == s.len(),
    decreases s.len() - p,
{
    if p < s.len() {
        lemma_tag_from(s, p, 0);
        lemma_tag_from_not_eof(s, p, 0);
        if tag_from(s, p, 0) is None {
            lemma_next_tag(s, p + 1);
        }
    }
}

proof fn lemma_tag_from_not_eof(s: Seq<char>, p: int, i: int)
    ensures
        tag_from(s, p, i) is Some ==> (tag_from(s, p, i)->0).0 != ParsedTag::EOF,
    decreases 10 - i,
{
    if 0 <= i < 10 && !occurs_at(s, p, keyword(i)) {
        lemma_tag_from_not_eof(s, p, i + 1);
    }
}

/// The keywords, in the order in which they are tried.
pub fn keyword_table() -> (r: Vec<Vec<char>>)
    ensures
        r@.len() == N_KEYWORDS,
        forall|i: int| 0 <= i < N_KEYWORDS ==> (#[trigger] r@[i])@ == keyword(i),
{
    let gfc = vec![
        'g', 'e', 't', '_', 'f', 'i', 'l', 'e', 'n', 'a', 'm', 'e', '_', 'c', 'o', 'm', 'p', 'o',
        'n', 'e', 'n', 't', '(',
    ];
    let gfc_spaced = vec![
        'g', 'e', 't', '_', 'f', 'i', 'l', 'e', 'n', 'a', 'm', 'e', '_', 'c', 'o', 'm', 'p', 'o',
        'n', 'e', 'n', 't', ' ', '(',
    ];
    let r = vec![
        vec!['s', 'e', 't', '('],
        vec!['s', 'e', 't', ' ', '('],
        vec!['f', 'o', 'r', 'e', 'a', 'c', 'h', '('],
        vec!['f', 'o', 'r', 'e', 'a', 'c', 'h', ' ', '('],
        vec!['e', 'n', 'd', 'f', 'o', 'r', 'e', 'a', 'c', 'h', '(', ')'],
        vec!['e', 'n', 'd', 'f', 'o', 'r', 'e', 'a', 'c', 'h', ' ', '(', ')'],
        vec!['r', 'p', '_', 't', 'e', 's', 't', '('],
        vec!['r', 'p', '_', 't', 'e', 's', 't', ' ', '('],
        gfc,
        gfc_spaced,
    ];
    assert(r@[8]@ =~= keyword(8));
    assert(r@[9]@ =~= keyword(9));
    assert forall|i: int| 0 <= i < N_KEYWORDS implies (#[trigger] r@[i])@ == keyword(i) by {
        if i == 0 {
            assert(r@[0]@ =~= keyword(0));
        } else if i == 1 {
            assert(r@[1]@ =~= keyword(1));
        } else if i == 2 {
            assert(r@[2]@ =~= keyword(2));
        } else if i == 3 {
            assert(r@[3]@ =~= keyword(3));
        } else if i == 4 {
            assert(r@[4]@ =~= keyword(4));
        } else if i == 5 {
            assert(r@[5]@ =~= keyword(5));
        } else if i == 6 {
            assert(r@[6]@ =~= keyword(6));
        } else if i == 7 {
            assert(r@[7]@ =~= keyword(7));
        }
    }
    r
}

/// The tag for the index of a keyword in [`keyword_table`].
fn tag_for_index(i: usize) -> (r: ParsedTag)
    ensures
        r == keyword_tag(i as int),
{
    if i < 2 {
        ParsedTag::SetDecl
    } else if i < 4 {
        ParsedTag::ForEach
    } else if i < 6 {
        ParsedTag::EndForEach
    } else if i < 8 {
        ParsedTag::RpTest
    } else {
        ParsedTag::GetFileNameComponent
    }
}

/// The text of one build-description file, ready to be scanned.
pub struct Input<'a> {
    text: &'a str,
    chars: Vec<char>,
    keywords: Vec<Vec<char>>,
}

impl<'a> Input<'a> {
    pub closed spec fn wf(&self) -> bool {
        &&& self.chars@ == self.text@
        &&& self.keywords@.len() == N_KEYWORDS
        &&& forall|i: int| 0 <= i < N_KEYWORDS ==> (#[trigger] self.keywords@[i])@ == keyword(i)
    }

    /// The characters of the text.
    pub closed spec fn view(&self) -> Seq<char> {
        self.text@
    }

    pub fn new(text: &'a str) -> (r: Input<'a>)
        ensures
            r.wf(),
            r.view() == text@,
    {
        Input { text, chars: chars_of(text), keywords: keyword_table() }
    }

    pub fn len(&self) -> (r: usize)
        requires
            self.wf(),
        ensures
            r == self.view().len(),
    {
        self.chars.len()
    }

    pub fn char_at(&self, p: usize) -> (r: char)
        requires
            self.wf(),
            p < self.view().len(),
        ensures
            r == self.view()[p as int],
    {
        self.chars[p]
    }

    /// The text from `a` to `b`.
    pub fn token(&self, a: usize, b: usize) -> (r: String)
        requires
            self.wf(),
            a <= b <= self.view().len(),
        ensures
            r@ == self.view().subrange(a as int, b as int),
    {
        self.text.substring_char(a, b).to_owned()
    }

    /// The end of the run of class `k` that starts at `p`.
    pub fn run(&self, p: usize, k: CharClass) -> (r: usize)
        requires
            self.wf(),
            p <= self.view().len(),
        ensures
            r == run_end(self.view(), p as int, k),
            p <= r <= self.view().len(),
    {
        scan_run(&self.chars, p, k)
    }

    /// Whether `w` stands at `p`.
    pub fn occurs(&self, p: usize, w: &Vec<char>) -> (r: bool)
        requires
            self.wf(),
        ensures
            r == occurs_at(self.view(), p as int, w@),
    {
        occurs_at_exec(&self.chars, p, w)
    }

    /// The first keyword that stands at `p`.
    fn tag_at(&self, p: usize) -> (r: Option<(ParsedTag, usize)>)
        requires
            self.wf(),
            p < self.view().len(),
        ensures
            match tag_from(self.view(), p as int, 0) {
                Some((t, q)) => r is Some && (r->0).0 == t && (r->0).1 as int == q,
                None => r is None,
            },
    {
        let mut i: usize = 0;
        while i < N_KEYWORDS
            invariant
                self.wf(),
                p < self.view().len(),
                i <= N_KEYWORDS,
                tag_from(self.view(), p as int, 0) == tag_from(self.view(), p as int, i as int),
            decreases N_KEYWORDS - i,
        {
            if self.occurs(p, &self.keywords[i]) {
                let n = self.chars.len();
                assert(p + self.keywords@[i as int]@.len() <= n);
                let q = p + self.keywords[i].len();
                return Some((tag_for_index(i), q));
            }
            i = i + 1;
        }
        None
    }

    /// The next keyword at or after `p`, and the position after it.
    pub fn skip_to_next_tag(&self, p: usize) -> (r: (usize, ParsedTag))
        requires
            self.wf(),
        ensures
            (r.1, r.0 as int) == next_tag(self.view(), p as int),
    {
        let n = self.len();
        let mut q = p;
        while q < n
            invariant
                self.wf(),
                n == self.view().len(),
                p <= q,
                next_tag(self.view(), p as int) == next_tag(self.view(), q as int),
            decreases n - q,
        {
            match self.tag_at(q) {
                Some((t, e)) => {
                    return (e, t);
                },
                None => {},
            }
            q = q + 1;
        }
        (n, ParsedTag::EOF)
    }

    /// The identifier token that starts at `p`, which may be empty.
    pub fn parse_identifier(&self, p: usize) -> (r: (usize, String))
        requires
            self.wf(),
            p <= self.view().len(),
        ensures
            r.0 == run_end(self.view(), p as int, CharClass::Ident),
            p <= r.0 <= self.view().len(),
            r.1@ == self.view().subrange(p as int, r.0 as int),
    {
        let e = self.run(p, CharClass::Ident);
        (e, self.token(p, e))
    }

    /// The name of the `${NAME}` reference that starts at `p`, and the
    /// position after it.
    pub fn parse_substitution(&self, p: usize) -> (r: Option<(usize, String)>)
        requires
            self.wf(),
            p <= self.view().len(),
        ensures
            match substitution_at(self.view(), p as int) {
                Some((q, name)) => r is Some && (r->0).0 == q && (r->0).1@ == name,
                None => r is None,
            },
            r is Some ==> p < (r->0).0 <= self.view().len(),
    {
        let n = self.len();
        if n - p < 2 || self.char_at(p) != '$' || self.char_at(p + 1) != '{' {
            return None;
        }
        let e = self.run(p + 2, CharClass::RefName);
        if e < n && self.char_at(e) == '}' {
            Some((e + 1, self.token(p + 2, e)))
        } else {
            None
        }
    }
}

/// A `${NAME}` reference at `p`: the position after it and the name.
pub open spec fn substitution_at(s: Seq<char>, p: int) -> Option<(int, Seq<char>)> {
    if 0 <= p && p + 2 <= s.len() && s[p] == '$' && s[p + 1] == '{' {
        let e = run_end(s, p + 2, CharClass::RefName);
        if e < s.len() && s[e] == '}' {
            Some((e + 1, s.subrange(p + 2, e)))
        } else {
            None
        }
    } else {
        None
    }
}

impl ParsedTag {
    /// The tag named by the exact text of a keyword; the empty text is `EOF`.
    pub fn from_str(s: &str) -> (r: ParsedTag)
        requires
            tag_of_text(s@) is Some,
        ensures
            Some(r) == tag_of_text(s@),
    {
        let cs = chars_of(s);
        if cs.len() == 0 {
            return ParsedTag::EOF;
        }
        let kws = keyword_table();
        let mut i: usize = 0;
        while i < N_KEYWORDS
            invariant
                cs@ == s@,
                kws@.len() == N_KEYWORDS,
                forall|j: int| 0 <= j < N_KEYWORDS ==> (#[trigger] kws@[j])@ == keyword(j),
                i <= N_KEYWORDS,
                forall|j: int| 0 <= j < i ==> keyword(j) != s@,
            decreases N_KEYWORDS - i,
        {
            if kws[i].len() == cs.len() && occurs_at_exec(&cs, 0, &kws[i]) {
                assert(cs@.subrange(0, cs@.len() as int) =~= cs@);
                proof {
                    lemma_keywords_distinct(i as int);
                }
                return tag_for_index(i);
            }
            proof {
                if kws@[i as int]@.len() == cs@.len() {
                    assert(cs@.subrange(0, cs@.len() as int) =~= cs@);
                }
            }
            i = i + 1;
        }
        proof {
            assert(false);
        }
        ParsedTag::EOF
    }
}

proof fn lemma_keywords_distinct(i: int)
    requires
        0 <= i < 10,
    ensures
        forall|j: int| 0 <= j < 10 && keyword(j) == keyword(i) ==> j == i,
{
    assert forall|j: int| 0 <= j < 10 && keyword(j) == keyword(i) implies j == i by {
        if j != i {
            let a = keyword(i);
            let b = keyword(j);
            if a.len() == b.len() {
                assert(a[3] != b[3] || a[0] != b[0] || a[22] != b[22]);
            }
        }
    }
}

} // verus!
