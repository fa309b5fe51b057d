//! The `KEY = value` rows of an environment file, and the build type they
//! select.
use vstd::prelude::*;

use crate::cc_source::{lines_from, trim, trim_string};
use crate::text::{fields_from, split_fields};

verus! {

/// One row: the trimmed text before the first `=` and between it and the
/// next `=`; a row without `=` has no entry.
pub open spec fn env_entry(row: Seq<char>) -> Option<(Seq<char>, Seq<char>)> {
    let f = fields_from(row, 0, '=');
    if f.len() < 2 {
        None
    } else {
        Some((trim(f[0]), trim(f[1])))
    }
}

/// The entries of the rows, in order; `None` if some row has none.
pub open spec fn env_entries(rows: Seq<Seq<char>>) -> Option<Seq<(Seq<char>, Seq<char>)>>
    decreases rows.len(),
{
    if rows.len() == 0 {
        Some(Seq::empty())
    } else {
        match (env_entries(rows.drop_last()), env_entry(rows.last())) {
            (Some(es), Some(e)) => Some(es.push(e)),
            _ => None,
        }
    }
}

pub open spec fn entry_views(v: Seq<(String, String)>) -> Seq<(Seq<char>, Seq<char>)> {
    v.map_values(|p: (String, String)| (p.0@, p.1@))
}

/// The entries of an environment file, row by row.
pub fn parse_env_rows(data: &str) -> (r: Option<Vec<(String, String)>>)
    ensures
        match env_entries(lines_from(data@, 0)) {
            Some(es) => r is Some && entry_views(r->0@) == es,
            None => r is None,
        },
{
    let rows = crate::cc_source::split_lines_of(data);
    let ghost rv = rows.deep_view();
    let mut out: Vec<(String, String)> = Vec::new();
    let mut i: usize = 0;
    assert(rv.subrange(0, 0) =~= Seq::<Seq<char>>::empty());
    assert(entry_views(out@) =~= Seq::<(Seq<char>, Seq<char>)>::empty());
    while i < rows.len()
        invariant
            rv == rows.deep_view(),
            rv == lines_from(data@, 0),
            i <= rv.len(),
            env_entries(rv.subrange(0, i as int)) == Some(entry_views(out@)),
        decreases rv.len() - i,
    {
        assert(rv.subrange(0, i + 1).drop_last() =~= rv.subrange(0, i as int));
        assert(rows@[i as int]@ == rv[i as int]);
        let f = split_fields(rows[i].as_str(), '=');
        if f.len() < 2 {
            proof {
                lemma_env_entries_none(rv, i as int + 1);
            }
            return None;
        }
        let k = trim_string(f[0].as_str());
        let v = trim_string(f[1].as_str());
        assert(f.deep_view()[0] == f@[0]@ && f.deep_view()[1] == f@[1]@);
        let ghost before = entry_views(out@);
        let ghost e = (k@, v@);
        out.push((k, v));
        assert(entry_views(out@) =~= before.push(e));
        i = i + 1;
    }
    assert(rv.subrange(0, i as int) =~= rv);
    Some(out)
}

proof fn lemma_env_entries_none(rows: Seq<Seq<char>>, i: int)
    requires
        0 < i <= rows.len(),
        env_entries(rows.subrange(0, i)) is None,
    ensures
        env_entries(rows) is None,
    decreases rows.len() - i,
{
    if i < rows.len() {
        assert(rows.subrange(0, i + 1).drop_last() =~= rows.subrange(0, i));
        lemma_env_entries_none(rows, i + 1);
    } else {
        assert(rows.subrange(0, i) =~= rows);
    }
}

/// The value of the last `BUILD_TYPE` entry, or `DEBUG` where there is none.
pub open spec fn build_type_spec(es: Seq<(Seq<char>, Seq<char>)>) -> Seq<char>
    decreases es.len(),
{
    if es.len() == 0 {
        "DEBUG"@
    } else if es.last().0 == "BUILD_TYPE"@ {
        es.last().1
    } else {
        build_type_spec(es.drop_last())
    }
}

/// The build type that the entries select.
pub fn build_type_of(entries: &Vec<(String, String)>) -> (r: String)
    ensures
        r@ == build_type_spec(entry_views(entries@)),
{
    let ghost es = entry_views(entries@);
    let key = "BUILD_TYPE".to_owned();
    let mut i = entries.len();
    assert(es.subrange(0, i as int) =~= es);
    while i > 0
        invariant
            es == entry_views(entries@),
            key@ == "BUILD_TYPE"@,
            i <= es.len(),
            build_type_spec(es) == build_type_spec(es.subrange(0, i as int)),
        decreases i,
    {
        assert(es.subrange(0, i as int).drop_last() =~= es.subrange(0, i - 1));
        assert(es[i - 1] == (entries@[i - 1].0@, entries@[i - 1].1@));
        if entries[i - 1].0.eq(&key) {
            return entries[i - 1].1.clone();
        }
        i = i - 1;
    }
    "DEBUG".to_owned()
}

} // verus!
