//! The state of the view that compares the names of rows across languages: which sheet to show next,
//! and the names of each row gathered from every region and language.
use std::collections::HashMap;
use vstd::prelude::*;

use crate::ex::exd_map::Language;

verus! {

broadcast use vstd::std_specs::hash::group_hash_axioms;

/// A message to the comparison view.
pub enum Msg {
    /// Show the named sheet.
    OnDisplay(&'static str),
    /// The names of the sheet's rows, by row id, are ready.
    OnDataReady(HashMap<u32, Vec<String>>),
}

/// The names shown, once loaded.
pub struct AppState {
    pub data: Option<HashMap<u32, Vec<String>>>,
}

impl AppState {
    /// The view before anything was loaded.
    pub fn create() -> (r: Self)
        ensures
            r.data is None,
    {
        AppState { data: None }
    }

    /// Handles a message: returns whether to render again, and the sheet whose
    /// names must now be gathered, if any.
    pub fn update(&mut self, msg: Msg) -> (r: (bool, Option<&'static str>))
        ensures
            match msg {
                Msg::OnDisplay(x) => r == (true, Some(x)) && final(self).data == old(self).data,
                Msg::OnDataReady(x) => r == (true, None::<&'static str>) && final(self).data == Some(x),
            },
    {
        match msg {
            Msg::OnDisplay(x) => (true, Some(x)),
            Msg::OnDataReady(x) => {
                self.data = Some(x);
                (true, None)
            },
        }
    }
}

/// The one sheet whose names can be gathered.
pub open spec fn displayable_sheet() -> Seq<char> {
    "classjob"@
}

/// Whether the names of the named sheet can be gathered.
pub fn is_displayable(name: &str) -> (r: bool)
    ensures
        r == (name@ == displayable_sheet()),
{
    let wanted = "classjob".to_owned();
    name.to_owned() == wanted
}

/// The regions whose names are gathered, each with its data set and the
/// languages it holds, in the order their names are put together.
pub open spec fn spec_regions() -> Seq<(Seq<char>, Seq<Language>)> {
    seq![
        ("global_525"@, seq![Language::Japanese, Language::English, Language::Deutsch, Language::French]),
        ("chn_511"@, seq![Language::ChineseSimplified]),
        ("kor_510"@, seq![Language::Korean]),
    ]
}

/// The names are gathered from three regions in this order: the global
/// data set in Japanese, English, German and French, then the Chinese data
/// set in simplified Chinese, then the Korean one in Korean.
pub proof fn lemma_regions()
    ensures
        spec_regions().len() == 3,
        spec_regions()[0] == ("global_525"@, seq![Language::Japanese, Language::English, Language::Deutsch, Language::French]),
        spec_regions()[1] == ("chn_511"@, seq![Language::ChineseSimplified]),
        spec_regions()[2] == ("kor_510"@, seq![Language::Korean]),
{
}

/// The view of a list of regions.
pub open spec fn regions_view(r: Seq<(&'static str, Vec<Language>)>) -> Seq<(Seq<char>, Seq<Language>)> {
    r.map_values(|e: (&'static str, Vec<Language>)| (e.0@, e.1@))
}

/// The regions to read for a display of the named sheet, which must be one
/// whose names can be gathered.
pub fn display_result(name: &str) -> (r: Vec<(&'static str, Vec<Language>)>)
    requires
        name@ == displayable_sheet(),
    ensures
        regions_view(r@) == spec_regions(),
{
    let mut global: Vec<Language> = Vec::new();
    global.push(Language::Japanese);
    global.push(Language::English);
    global.push(Language::Deutsch);
    global.push(Language::French);
    let mut chn: Vec<Language> = Vec::new();
    chn.push(Language::ChineseSimplified);
    let mut kor: Vec<Language> = Vec::new();
    kor.push(Language::Korean);
    assert(global@ =~= seq![Language::Japanese, Language::English, Language::Deutsch, Language::French]);
    assert(chn@ =~= seq![Language::ChineseSimplified]);
    assert(kor@ =~= seq![Language::Korean]);
    let mut r: Vec<(&'static str, Vec<Language>)> = Vec::new();
    r.push(("global_525", global));
    r.push(("chn_511", chn));
    r.push(("kor_510", kor));
    assert(regions_view(r@)[0] == spec_regions()[0]);
    assert(regions_view(r@)[1] == spec_regions()[1]);
    assert(regions_view(r@)[2] == spec_regions()[2]);
    assert(regions_view(r@) =~= spec_regions());
    r
}

/// The names of each row of `m`.
pub open spec fn names_view(m: Map<u32, Vec<String>>) -> Map<u32, Seq<String>> {
    m.map_values(|v: Vec<String>| v@)
}

/// `m` with the names of each entry of `names` added, in order, after those
/// already held for its row.
pub open spec fn merged(m: Map<u32, Seq<String>>, names: Seq<(u32, Seq<String>)>) -> Map<u32, Seq<String>>
    decreases names.len(),
{
    if names.len() == 0 {
        m
    } else {
        let m1 = merged(m, names.drop_last());
        let (k, v) = names.last();
        let before = if m1.contains_key(k) {
            m1[k]
        } else {
            seq![]
        };
        m1.insert(k, before + v)
    }
}

/// The names held for row `k` of `m`; none where `m` has no such row.
pub open spec fn row(m: Map<u32, Seq<String>>, k: u32) -> Seq<String> {
    if m.contains_key(k) {
        m[k]
    } else {
        seq![]
    }
}

/// The names that the entries for row `k` carry, in order.
pub open spec fn names_for(names: Seq<(u32, Seq<String>)>, k: u32) -> Seq<String>
    decreases names.len(),
{
    if names.len() == 0 {
        seq![]
    } else {
        names_for(names.drop_last(), k) + (if names.last().0 == k {
            names.last().1
        } else {
            seq![]
        })
    }
}

/// Merging two lists one after the other is merging the two joined.
pub proof fn lemma_merged_concat(
    m: Map<u32, Seq<String>>,
    a: Seq<(u32, Seq<String>)>,
    b: Seq<(u32, Seq<String>)>,
)
    ensures
        merged(merged(m, a), b) == merged(m, a + b),
    decreases b.len(),
{
    if b.len() == 0 {
        assert(a + b =~= a);
    } else {
        lemma_merged_concat(m, a, b.drop_last());
        assert((a + b).drop_last() =~= a + b.drop_last());
        assert((a + b).last() == b.last());
    }
}

/// After a merge, each row holds the names it held before, then the names
/// of the merged entries for it, in the order of the entries. Merging the
/// regions' names one region after another therefore joins them per row in
/// region order.
pub proof fn lemma_merged_row(m: Map<u32, Seq<String>>, names: Seq<(u32, Seq<String>)>, k: u32)
    ensures
        row(merged(m, names), k) == row(m, k) + names_for(names, k),
        merged(m, names).contains_key(k) <== m.contains_key(k),
    decreases names.len(),
{
    if names.len() == 0 {
        assert(row(m, k) + Seq::<String>::empty() =~= row(m, k));
    } else {
        lemma_merged_row(m, names.drop_last(), k);
        let m1 = merged(m, names.drop_last());
        let (k2, v) = names.last();
        if k2 == k {
            assert(row(m1, k) + v =~= row(m, k) + names_for(names, k));
        } else {
            assert(row(m, k) + names_for(names.drop_last(), k) + Seq::<String>::empty() =~= row(m, k) + names_for(names, k));
        }
    }
}

/// Adds the names of each entry after those already held for its row.
pub fn merge_names(result: &mut HashMap<u32, Vec<String>>, names: Vec<(u32, Vec<String>)>)
    ensures
        names_view(final(result)@) == merged(
            names_view(old(result)@),
            names@.map_values(|e: (u32, Vec<String>)| (e.0, e.1@)),
        ),
{
    let ghost nv = names@.map_values(|e: (u32, Vec<String>)| (e.0, e.1@));
    let ghost start = names_view(result@);
    let ghost n = names@.len();
    let mut input = names;
    while input.len() > 0
        invariant
            nv.len() == n,
            input@.len() <= n,
            forall|j: int| 0 <= j < input@.len() ==> (#[trigger] input@[j]).0 == nv[n - input@.len() + j].0
                && input@[j].1@ == nv[n - input@.len() + j].1,
            names_view(result@) == merged(start, nv.take(n - input@.len())),
        decreases input@.len(),
    {
        let ghost k0 = n - input@.len();
        let ghost prev_in = input@;
        let (k, mut v) = input.remove(0);
        assert(nv.take(k0 + 1).drop_last() =~= nv.take(k0));
        assert(nv.take(k0 + 1).last() == nv[k0]);
        let ghost before_map = names_view(result@);
        let mut current = match result.remove(&k) {
            Some(c) => c,
            None => Vec::new(),
        };
        let ghost cur = current@;
        current.append(&mut v);
        result.insert(k, current);
        assert(names_view(result@) =~= before_map.insert(k, cur + nv[k0].1));
        assert forall|j: int| 0 <= j < input@.len() implies (#[trigger] input@[j]).0 == nv[n - input@.len() + j].0
                && input@[j].1@ == nv[n - input@.len() + j].1 by {
            assert(input@[j] == prev_in[j + 1]);
        }
    }
    assert(nv.take(n as int) =~= nv);
}

} // verus!
