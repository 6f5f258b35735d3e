//! The device list that Google Play publishes.

use crate::collector::entry;
use crate::collector::entry::{DeviceEntry, Entries};
use crate::collector::html;
use crate::model;
use crate::model::Model;
use crate::text;
use vstd::prelude::*;

verus! {

broadcast use vstd::string::group_string_axioms;

/// A cell with references resolved and white space trimmed.
pub open spec fn clean(s: Seq<char>) -> Seq<char> {
    text::trimmed(html::unescaped(s))
}

/// The candidate of a row of brand, marketing name, codename and model; none
/// where the codename is empty. It is recognised by brand, codename and model.
pub open spec fn row_candidate(row: (Seq<char>, Seq<char>, Seq<char>, Seq<char>)) -> Option<
    entry::Candidate,
> {
    let codename = clean(row.2);
    let brand = if clean(row.0).len() == 0 {
        "Unknown"@
    } else {
        clean(row.0)
    };
    let model = clean(row.3);
    let name = if clean(row.1).len() > 0 {
        clean(row.1)
    } else {
        model
    };
    if codename.len() == 0 {
        None
    } else {
        Some(
            entry::Candidate {
                key: seq![brand, codename, model],
                entry: Some(
                    entry::EntryView {
                        brand,
                        name,
                        series: None,
                        code: None,
                        codename: Some(codename),
                        models: if model.len() == 0 {
                            Seq::empty()
                        } else {
                            entry::one_model(seq![model], name)
                        },
                    },
                ),
            },
        )
    }
}

/// The candidates of the rows.
pub open spec fn row_candidates(
    rows: Seq<(Seq<char>, Seq<char>, Seq<char>, Seq<char>)>,
) -> Seq<entry::Candidate>
    decreases rows.len(),
{
    if rows.len() == 0 {
        Seq::empty()
    } else {
        let before = row_candidates(rows.drop_last());
        match row_candidate(rows.last()) {
            Some(c) => before.push(c),
            None => before,
        }
    }
}

/// The entries of the page.
pub open spec fn page_entries(page: Seq<char>, limit: Option<usize>) -> Seq<entry::EntryView> {
    entry::limited(entry::distinct(row_candidates(html::list_rows(page))), limit)
}

proof fn lemma_candidates_prefix(
    rows: Seq<(Seq<char>, Seq<char>, Seq<char>, Seq<char>)>,
    i: int,
)
    requires
        0 <= i <= rows.len(),
    ensures
        entry::heads(row_candidates(rows.take(i)), row_candidates(rows)),
    decreases rows.len(),
{
    if i < rows.len() {
        assert(rows.drop_last().take(i) =~= rows.take(i));
        lemma_candidates_prefix(rows.drop_last(), i);
        let n = row_candidates(rows.take(i)).len() as int;
        assert(row_candidates(rows.drop_last()).take(n) =~= row_candidates(rows).take(n));
    } else {
        assert(rows.take(i) =~= rows);
        assert(row_candidates(rows).take(row_candidates(rows).len() as int) =~= row_candidates(
            rows,
        ));
    }
}

/// The cleaned cell.
fn clean_cell(s: &str) -> (r: String)
    ensures
        r@ == clean(s@),
{
    text::trim_str(html::unescape(s).as_str())
}

/// The key and the entry of a row.
fn row_entry(row: &(String, String, String, String)) -> (r: Option<(Vec<String>, DeviceEntry)>)
    ensures
        match r {
            Some(p) => row_candidate((row.0@, row.1@, row.2@, row.3@)) == Some(
                entry::Candidate { key: text::strs(p.0@), entry: Some(p.1@) },
            ),
            None => row_candidate((row.0@, row.1@, row.2@, row.3@)) is None,
        },
{
    let codename = clean_cell(row.2.as_str());
    if codename.as_str().is_empty() {
        return None;
    }
    let raw_brand = clean_cell(row.0.as_str());
    let brand = if raw_brand.as_str().is_empty() {
        "Unknown".to_owned()
    } else {
        raw_brand
    };
    let marketing = clean_cell(row.1.as_str());
    let model = clean_cell(row.3.as_str());
    let name = if !marketing.as_str().is_empty() {
        marketing
    } else {
        model.clone()
    };
    let mut key: Vec<String> = Vec::new();
    key.push(brand.clone());
    key.push(codename.clone());
    key.push(model.clone());
    let models: Vec<Model> = if model.as_str().is_empty() {
        Vec::new()
    } else {
        entry::single_model(entry::one_string(model), name.clone())
    };
    let e = DeviceEntry { brand, name, series: None, code: None, codename: Some(codename), models };
    proof {
        let c = row_candidate((row.0@, row.1@, row.2@, row.3@))->0;
        assert(text::strs(key@) =~= c.key);
        assert(model::models_view(models@) =~= c.entry->0.models);
    }
    Some((key, e))
}

/// The entries of the device list: one for each brand, codename and model,
/// where there is a codename.
pub fn google_play_entries(page: &str, limit: Option<usize>) -> (r: Vec<DeviceEntry>)
    ensures
        entry::entries_view(r@) == page_entries(page@, limit),
{
    let rows = html::parse_rows(page);
    let ghost all = html::list_rows(page@);
    let mut state = Entries::new();
    assert(row_candidates(all.take(0)) =~= Seq::empty());
    for i in 0..rows.len()
        invariant
            html::quads(rows@) == all,
            state.holds(row_candidates(all.take(i as int))),
            entry::room(state.entries@.len(), limit),
            all == html::list_rows(page@),
    {
        let ghost c = row_candidates(all.take(i as int));
        proof {
            assert(all.take(i + 1).drop_last() =~= all.take(i as int));
            assert(all.take(i + 1).last() == html::quads(rows@)[i as int]);
        }
        if let Some((key, e)) = row_entry(&rows[i]) {
            let ghost cand = entry::Candidate { key: text::strs(key@), entry: Some(e@) };
            let added = state.offer(key, Some(e));
            assert(state.holds(c.push(cand)));
            if added && entry::reached(state.entries.len(), limit) {
                proof {
                    lemma_candidates_prefix(all, i + 1);
                    entry::lemma_filled(
                        row_candidates(all.take(i + 1)),
                        row_candidates(all),
                        limit,
                    );
                }
                return state.entries;
            }
        }
    }
    assert(all.take(rows@.len() as int) =~= all);
    state.entries
}

// ---------------------------------------------------------------------------
// What becomes of the rows
// ---------------------------------------------------------------------------

/// What the rows give.
spec fn of_rows(rows: Seq<(Seq<char>, Seq<char>, Seq<char>, Seq<char>)>) -> Seq<
    Option<entry::Candidate>,
> {
    Seq::new(rows.len(), |k: int| row_candidate(rows[k]))
}

proof fn lemma_of_rows(rows: Seq<(Seq<char>, Seq<char>, Seq<char>, Seq<char>)>)
    ensures
        row_candidates(rows) == entry::present(of_rows(rows)),
    decreases rows.len(),
{
    if rows.len() > 0 {
        lemma_of_rows(rows.drop_last());
        assert(of_rows(rows).drop_last() =~= of_rows(rows.drop_last()));
    }
}

/// The candidates are those of the rows that have one, in their order.
proof fn lemma_candidates(rows: Seq<(Seq<char>, Seq<char>, Seq<char>, Seq<char>)>) -> (at: Seq<int>)
    ensures
        text::lists(at, rows.len() as int, entry::has_candidate(of_rows(rows))),
        at.len() == row_candidates(rows).len(),
        forall|j: int|
            0 <= j < at.len() ==> row_candidate(rows[#[trigger] at[j]]) == Some(
                row_candidates(rows)[j],
            ),
{
    lemma_of_rows(rows);
    let at = entry::lemma_present(of_rows(rows));
    assert forall|j: int| 0 <= j < at.len() implies row_candidate(rows[#[trigger] at[j]]) == Some(
        row_candidates(rows)[j],
    ) by {
        assert(of_rows(rows)[at[j]] == Some(entry::present(of_rows(rows))[j]));
    }
    at
}

/// No row with a codename is lost: where there is no limit, one of the entries has
/// its brand, its codename and its model, so that rows that differ in one of these
/// have an entry each.
#[verifier::rlimit(60)]
#[verifier::spinoff_prover]
pub proof fn lemma_each_row_has_an_entry(page: Seq<char>, k: int)
    requires
        0 <= k < html::list_rows(page).len(),
        text::trimmed(html::unescaped(html::list_rows(page)[k].2)).len() > 0,
    ensures
        ({
            let row = html::list_rows(page)[k];
            let brand = text::trimmed(html::unescaped(row.0));
            let model = text::trimmed(html::unescaped(row.3));
            exists|i: int|
                0 <= i < page_entries(page, None).len() && {
                    let e = #[trigger] page_entries(page, None)[i];
                    &&& e.brand == (if brand.len() > 0 {
                        brand
                    } else {
                        "Unknown"@
                    })
                    &&& e.codename == Some(text::trimmed(html::unescaped(row.2)))
                    &&& model.len() == 0 ==> e.models.len() == 0
                    &&& model.len() > 0 ==> e.models.len() == 1 && e.models[0].ids == seq![model]
                }
        }),
{
    let rows = html::list_rows(page);
    let all = row_candidates(rows);
    let at = lemma_candidates(rows);
    let q = entry::has_candidate(of_rows(rows));
    let x = row_candidate(rows[k])->0;
    assert(q(k));
    let n = choose|n: int| 0 <= n < at.len() && at[n] == k;
    assert(row_candidate(rows[at[n]]) == Some(all[n]));
    assert forall|j: int| 0 <= j < all.len() implies (#[trigger] all[j]).entry is Some by {
        assert(row_candidate(rows[at[j]]) == Some(all[j]));
    }
    let i = entry::lemma_each_key_stays(all, n);
    let o = entry::origins(all)[i];
    let c = all[o];
    assert(row_candidate(rows[at[o]]) == Some(c));
    assert(c.key[0] == x.key[0] && c.key[1] == x.key[1] && c.key[2] == x.key[2]);
    assert(x.key[2] == text::trimmed(html::unescaped(rows[k].3)));
    assert(c.key.len() == 3);
    let e = page_entries(page, None)[i];
    assert(c.entry == Some(e));
}

/// Each entry stems from a row: it has the brand, the codename and the model of the
/// row, and its marketing name or else the model for a name. No two entries have the
/// same brand, codename and model ids.
#[verifier::rlimit(60)]
#[verifier::spinoff_prover]
pub proof fn lemma_each_entry_has_a_row(page: Seq<char>, i: int)
    requires
        0 <= i < page_entries(page, None).len(),
    ensures
        ({
            let e = page_entries(page, None)[i];
            &&& exists|k: int|
                0 <= k < html::list_rows(page).len() && {
                    let row = #[trigger] html::list_rows(page)[k];
                    let brand = text::trimmed(html::unescaped(row.0));
                    let name = text::trimmed(html::unescaped(row.1));
                    let codename = text::trimmed(html::unescaped(row.2));
                    let model = text::trimmed(html::unescaped(row.3));
                    &&& codename.len() > 0
                    &&& e.codename == Some(codename)
                    &&& e.brand == (if brand.len() > 0 {
                        brand
                    } else {
                        "Unknown"@
                    })
                    &&& e.name == (if name.len() > 0 {
                        name
                    } else {
                        model
                    })
                    &&& e.series is None && e.code is None
                    &&& model.len() > 0 ==> e.models.len() == 1 && e.models[0].ids == seq![model]
                        && e.models[0].market_name == e.name
                    &&& model.len() == 0 ==> e.models.len() == 0
                }
            &&& forall|j: int|
                0 <= j < page_entries(page, None).len() && j != i ==> {
                    let f = #[trigger] page_entries(page, None)[j];
                    f.brand != e.brand || f.codename != e.codename || f.models.len()
                        != e.models.len() || (e.models.len() > 0 && f.models[0].ids
                        != e.models[0].ids)
                }
        }),
{
    let rows = html::list_rows(page);
    let all = row_candidates(rows);
    let out = page_entries(page, None);
    let from = lemma_candidates(rows);
    entry::lemma_distinct_repeats_nothing(all);
    let at = entry::origins(all);
    assert(all[at[i]].entry == Some(out[i]));
    assert(row_candidate(rows[from[at[i]]]) == Some(all[at[i]]));
    let row = html::list_rows(page)[from[at[i]]];
    assert forall|j: int| 0 <= j < out.len() && j != i implies {
        let f = #[trigger] out[j];
        let e = out[i];
        f.brand != e.brand || f.codename != e.codename || f.models.len() != e.models.len() || (
        e.models.len() > 0 && f.models[0].ids != e.models[0].ids)
    } by {
        assert(all[at[j]].entry == Some(out[j]));
        assert(row_candidate(rows[from[at[j]]]) == Some(all[at[j]]));
        let a = all[at[i]].key;
        let b = all[at[j]].key;
        if i < j {
            assert(at[i] < at[j] && a != b);
        } else {
            assert(at[j] < at[i] && a != b);
        }
        let e = out[i];
        let f = out[j];
        if f.brand == e.brand && f.codename == e.codename && f.models.len() == e.models.len() && (
        e.models.len() > 0 ==> f.models[0].ids == e.models[0].ids) {
            if e.models.len() > 0 {
                assert(e.models[0].ids[0] == a[2]);
                assert(f.models[0].ids[0] == b[2]);
            } else {
                assert(a[2] =~= b[2]);
            }
            assert(a =~= b);
        }
    }
}

} // verus!
