//! The deferred binding table: symbolic names that are declared before their
//! values are known, bound later, and then resolved all at once.
use vstd::prelude::*;

use crate::assoc::{
    keys_unique, lemma_pairs_map_absent, lemma_pairs_map_index, lemma_pairs_map_len,
    lemma_pairs_map_map_second, lemma_pairs_map_push, lemma_pairs_map_update, map_second,
    pairs_map,
};
use crate::text::{occurs_at, replace_all, replace_all_exec};

verus! {

/// The named string transforms that a derived binding may apply.
#[derive(Clone, Copy, Debug, PartialEq, Eq, Structural)]
pub enum Transform {
    /// Removes every occurrence of the source suffix `.cc`.
    StripCcSuffix,
}

/// The suffix that [`Transform::StripCcSuffix`] removes.
pub open spec fn cc_suffix() -> Seq<char> {
    seq!['.', 'c', 'c']
}

/// What a transform makes of the value it is applied to.
pub open spec fn apply_transform(f: Transform, v: Seq<char>) -> Seq<char> {
    match f {
        Transform::StripCcSuffix => replace_all(v, cc_suffix(), Seq::empty()),
    }
}

impl Transform {
    pub fn apply(&self, v: &str) -> (r: String)
        ensures
            r@ == apply_transform(*self, v@),
    {
        proof {
            reveal_strlit(".cc");
            reveal_strlit("");
        }
        assert(".cc"@ =~= cc_suffix());
        assert(""@ =~= Seq::<char>::empty());
        match self {
            Transform::StripCcSuffix => replace_all_exec(v, ".cc", ""),
        }
    }
}

/// A transform leaves a value that holds no occurrence of its suffix as it is.
pub proof fn lemma_strip_absent(v: Seq<char>)
    requires
        forall|i: int| !occurs_at(v, i, cc_suffix()),
    ensures
        apply_transform(Transform::StripCcSuffix, v) == v,
    decreases v.len(),
{
    if v.len() >= 3 {
        assert(!occurs_at(v, 0, cc_suffix()));
        let t = v.subrange(1, v.len() as int);
        assert forall|i: int| !occurs_at(t, i, cc_suffix()) by {
            if occurs_at(t, i, cc_suffix()) {
                assert(v.subrange(i + 1, i + 1 + 3) =~= t.subrange(i, i + 3));
                assert(occurs_at(v, i + 1, cc_suffix()));
            }
        }
        lemma_strip_absent(t);
        assert(v.subrange(0, 3) != cc_suffix());
        assert(seq![v[0]] + t =~= v);
    }
}

/// The value of one entry of the table.
#[derive(Debug)]
pub enum BindingValue {
    /// Declared, not bound yet.
    Nothing,
    /// Bound to a concrete string.
    Text(String),
    /// The value of `target`, once bound, passed through `transform`.
    Derived { target: String, transform: Transform },
}

/// The mathematical value of a [`BindingValue`].
pub enum BindingView {
    Nothing,
    Text(Seq<char>),
    Derived(Seq<char>, Transform),
}

impl View for BindingValue {
    type V = BindingView;

    open spec fn view(&self) -> BindingView {
        match self {
            BindingValue::Nothing => BindingView::Nothing,
            BindingValue::Text(s) => BindingView::Text(s@),
            BindingValue::Derived { target, transform } => BindingView::Derived(target@, *transform),
        }
    }
}

/// Every entry of `m` can be resolved: it is bound, or it is derived from an
/// entry that is bound.
pub open spec fn resolvable(m: Map<Seq<char>, BindingView>) -> bool {
    forall|k: Seq<char>| #[trigger] m.contains_key(k) ==> match m[k] {
        BindingView::Nothing => false,
        BindingView::Text(_) => true,
        BindingView::Derived(t, _) => m.contains_key(t) && m[t] is Text,
    }
}

/// The concrete value of one entry of `m`.
pub open spec fn resolve(m: Map<Seq<char>, BindingView>, v: BindingView) -> Seq<char> {
    match v {
        BindingView::Text(s) => s,
        BindingView::Derived(t, f) => apply_transform(f, m[t]->Text_0),
        BindingView::Nothing => Seq::empty(),
    }
}

pub open spec fn resolver(m: Map<Seq<char>, BindingView>) -> spec_fn(BindingView) -> Seq<char> {
    |v: BindingView| resolve(m, v)
}

/// The concrete map that materializing `m` gives.
pub open spec fn materialize(m: Map<Seq<char>, BindingView>) -> Map<Seq<char>, Seq<char>> {
    m.map_values(resolver(m))
}

/// Concrete string values by name: the result of materializing a table.
#[derive(Debug)]
pub struct ValueMap {
    entries: Vec<(String, String)>,
}

pub open spec fn text_pair_view(p: (String, String)) -> (Seq<char>, Seq<char>) {
    (p.0@, p.1@)
}

pub open spec fn text_pairs(v: Seq<(String, String)>) -> Seq<(Seq<char>, Seq<char>)> {
    v.map_values(|p: (String, String)| text_pair_view(p))
}

impl ValueMap {
    pub closed spec fn pairs(&self) -> Seq<(Seq<char>, Seq<char>)> {
        text_pairs(self.entries@)
    }

    pub closed spec fn wf(&self) -> bool {
        keys_unique(self.pairs())
    }

    /// The value bound to `key`, if any.
    pub fn get(&self, key: &String) -> (r: Option<&String>)
        requires
            self.wf(),
        ensures
            r is Some <==> self@.contains_key(key@),
            r is Some ==> r->0@ == self@[key@],
    {
        let mut j: usize = 0;
        while j < self.entries.len()
            invariant
                self.wf(),
                j <= self.entries@.len(),
                forall|k: int| 0 <= k < j ==> self.pairs()[k].0 != key@,
            decreases self.entries@.len() - j,
        {
            assert(self.pairs()[j as int] == text_pair_view(self.entries@[j as int]));
            if self.entries[j].0.eq(key) {
                proof {
                    lemma_pairs_map_index(self.pairs(), j as int);
                }
                return Some(&self.entries[j].1);
            }
            j = j + 1;
        }
        proof {
            lemma_pairs_map_absent(self.pairs(), key@);
        }
        None
    }

    /// The number of names bound.
    pub fn len(&self) -> (r: usize)
        requires
            self.wf(),
        ensures
            r == self@.len(),
    {
        proof {
            self.lemma_len();
        }
        self.entries.len()
    }

    proof fn lemma_len(&self)
        requires
            self.wf(),
        ensures
            self@.len() == self.entries@.len(),
    {
        lemma_pairs_map_len(self.pairs());
    }
}

impl View for ValueMap {
    type V = Map<Seq<char>, Seq<char>>;

    closed spec fn view(&self) -> Map<Seq<char>, Seq<char>> {
        pairs_map(self.pairs())
    }
}

/// The table of deferred bindings.
#[derive(Debug)]
pub struct LazyBinding {
    bindings: Vec<(String, BindingValue)>,
}

pub open spec fn binding_pair_view(p: (String, BindingValue)) -> (Seq<char>, BindingView) {
    (p.0@, p.1@)
}

impl View for LazyBinding {
    type V = Map<Seq<char>, BindingView>;

    closed spec fn view(&self) -> Map<Seq<char>, BindingView> {
        pairs_map(self.entries())
    }
}

impl LazyBinding {
    pub closed spec fn entries(&self) -> Seq<(Seq<char>, BindingView)> {
        self.bindings@.map_values(|p: (String, BindingValue)| binding_pair_view(p))
    }

    pub closed spec fn wf(&self) -> bool {
        keys_unique(self.entries())
    }

    /// An empty table.
    pub fn new() -> (r: LazyBinding)
        ensures
            r.wf(),
            r@ == Map::<Seq<char>, BindingView>::empty(),
    {
        let r = LazyBinding { bindings: Vec::new() };
        assert(r.entries() =~= Seq::<(Seq<char>, BindingView)>::empty());
        r
    }

    /// The index of the entry for `key`.
    fn find(&self, key: &String) -> (r: Option<usize>)
        requires
            self.wf(),
        ensures
            match r {
                Some(i) => i < self.bindings@.len() && self.entries()[i as int].0 == key@
                    && self@.contains_key(key@) && self@[key@] == self.entries()[i as int].1,
                None => !self@.contains_key(key@) && forall|i: int|
                    0 <= i < self.entries().len() ==> self.entries()[i].0 != key@,
            },
    {
        let mut j: usize = 0;
        while j < self.bindings.len()
            invariant
                self.wf(),
                j <= self.bindings@.len(),
                forall|k: int| 0 <= k < j ==> self.entries()[k].0 != key@,
            decreases self.bindings@.len() - j,
        {
            assert(self.entries()[j as int] == binding_pair_view(self.bindings@[j as int]));
            if self.bindings[j].0.eq(key) {
                proof {
                    lemma_pairs_map_index(self.entries(), j as int);
                }
                return Some(j);
            }
            j = j + 1;
        }
        proof {
            lemma_pairs_map_absent(self.entries(), key@);
        }
        None
    }

    /// Sets the entry for `key`, adding it if it is new.
    fn put(&mut self, key: &str, v: BindingValue)
        requires
            old(self).wf(),
        ensures
            final(self).wf(),
            final(self)@ == old(self)@.insert(key@, v@),
    {
        let k = key.to_owned();
        match self.find(&k) {
            Some(i) => {
                proof {
                    lemma_pairs_map_update(old(self).entries(), i as int, v@);
                }
                self.bindings.set(i, (k, v));
                assert(self.entries() =~= old(self).entries().update(
                    i as int,
                    (old(self).entries()[i as int].0, v@),
                ));
            },
            None => {
                proof {
                    lemma_pairs_map_push(old(self).entries(), k@, v@);
                }
                self.bindings.push((k, v));
                assert(self.entries() =~= old(self).entries().push((key@, v@)));
            },
        }
    }

    /// Declares `key`, with no value yet.
    pub fn add(&mut self, key: &str)
        requires
            old(self).wf(),
        ensures
            final(self).wf(),
            final(self)@ == old(self)@.insert(key@, BindingView::Nothing),
    {
        self.put(key, BindingValue::Nothing);
    }

    /// Declares `key` as `f` applied to the value of `target`, which must
    /// already be declared.
    pub fn add_transformed(&mut self, key: &str, target: &str, f: Transform)
        requires
            old(self).wf(),
            old(self)@.contains_key(target@),
        ensures
            final(self).wf(),
            final(self)@ == old(self)@.insert(key@, BindingView::Derived(target@, f)),
    {
        let t = target.to_owned();
        self.put(key, BindingValue::Derived { target: t, transform: f });
    }

    /// Binds the declared `key` to `val`.
    pub fn populate(&mut self, key: &str, val: &str)
        requires
            old(self).wf(),
            old(self)@.contains_key(key@),
        ensures
            final(self).wf(),
            final(self)@ == old(self)@.insert(key@, BindingView::Text(val@)),
    {
        let v = val.to_owned();
        self.put(key, BindingValue::Text(v));
    }

    /// The concrete value of every entry. Reading does not change the table.
    pub fn to_map(&self) -> (r: ValueMap)
        requires
            self.wf(),
            resolvable(self@),
        ensures
            r.wf(),
            r@ == materialize(self@),
    {
        let ghost m = self@;
        let ghost es = self.entries();
        let mut out: Vec<(String, String)> = Vec::new();
        let mut i: usize = 0;
        while i < self.bindings.len()
            invariant
                m == self@,
                es == self.entries(),
                keys_unique(es),
                resolvable(m),
                i <= self.bindings@.len(),
                text_pairs(out@) == map_second(
                    es.subrange(0, i as int),
                    resolver(m),
                ),
            decreases self.bindings@.len() - i,
        {
            proof {
                lemma_pairs_map_index(es, i as int);
            }
            assert(es[i as int] == binding_pair_view(self.bindings@[i as int]));
            let k = self.bindings[i].0.clone();
            let v = match &self.bindings[i].1 {
                BindingValue::Nothing => {
                    assert(m.contains_key(es[i as int].0));
                    proof {
                        assert(false);
                    }
                    String::new()
                },
                BindingValue::Text(s) => s.clone(),
                BindingValue::Derived { target, transform } => {
                    assert(m.contains_key(es[i as int].0));
                    match self.find(target) {
                        Some(j) => {
                            assert(es[j as int] == binding_pair_view(self.bindings@[j as int]));
                            match &self.bindings[j].1 {
                                BindingValue::Text(s) => transform.apply(s.as_str()),
                                _ => {
                                    proof {
                                        assert(false);
                                    }
                                    String::new()
                                },
                            }
                        },
                        None => {
                            proof {
                                assert(false);
                            }
                            String::new()
                        },
                    }
                },
            };
            let ghost pv = text_pair_view((k, v));
            assert(pv == (es[i as int].0, resolve(m, es[i as int].1)));
            let ghost before = out@;
            out.push((k, v));
            i = i + 1;
            assert(text_pairs(out@) =~= text_pairs(before).push(pv));
            assert(es.subrange(0, i as int) =~= es.subrange(0, i - 1).push(es[i - 1]));
            assert(map_second(es.subrange(0, i as int), resolver(m)) =~= map_second(
                es.subrange(0, i - 1),
                resolver(m),
            ).push(pv));
            assert(text_pairs(out@) =~= map_second(
                es.subrange(0, i as int),
                resolver(m),
            ));
        }
        assert(es.subrange(0, i as int) =~= es);
        proof {
            lemma_pairs_map_map_second(es, resolver(m));
        }
        let r = ValueMap { entries: out };
        assert(r.pairs() =~= map_second(es, resolver(m)));
        r
    }
}

/// Materializing is a function of the table's contents alone: two tables
/// with the same bindings give the same concrete map, however often it is
/// asked for.
pub proof fn lemma_materialize_deterministic(a: &LazyBinding, b: &LazyBinding)
    requires
        a@ == b@,
    ensures
        materialize(a@) == materialize(b@),
{
}

} // verus!
