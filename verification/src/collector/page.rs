//! Pages of the MediaWiki interface and the devices in their tables.

use crate::collector::columns;
use crate::collector::entry;
use crate::collector::entry::DeviceEntry;
use crate::collector::tables;
use crate::collector::wiki;
use crate::json;
use crate::json::{Json, JsonView, Malformed};
use crate::text;
use vstd::prelude::*;

verus! {

broadcast use vstd::string::group_string_axioms;

/// The page in a reply of the MediaWiki interface.
pub open spec fn page_text(reply: Option<JsonView>) -> Option<Seq<char>> {
    match reply {
        Some(v) => v.get("parse"@).get("text"@).text(),
        None => None,
    }
}

/// Why a reply has no page.
pub enum ReplyError {
    /// The reply is no JSON.
    NotJson(Malformed),
    /// The reply is JSON without a page; the page may not exist.
    NoPage,
}

/// The page in a reply, given as a JSON value.
pub fn page_of(reply: &Json) -> (r: Option<String>)
    ensures
        text::opt_str(r) == page_text(Some(reply@)),
{
    match json::text(json::get(json::get(Some(reply), "parse"), "text")) {
        Some(s) => Some(s.to_owned()),
        None => None,
    }
}

/// The page in the text of a reply.
pub fn page_html(reply: &str) -> (r: Result<String, ReplyError>)
    ensures
        match r {
            Ok(html) => page_text(json::parsed(reply@)) == Some(html@),
            Err(ReplyError::NotJson(_)) => json::parsed(reply@) is None,
            Err(ReplyError::NoPage) => json::parsed(reply@) is Some && page_text(
                json::parsed(reply@),
            ) is None,
        },
{
    match json::parse(reply) {
        Ok(v) => match page_of(&v) {
            Some(html) => Ok(html),
            None => Err(ReplyError::NoPage),
        },
        Err(e) => Err(ReplyError::NotJson(e)),
    }
}

/// The first entries up to the limit.
pub open spec fn first_entries(v: Seq<entry::EntryView>, limit: Option<usize>) -> Seq<
    entry::EntryView,
> {
    match limit {
        Some(l) if l < v.len() => v.take(l as int),
        _ => v,
    }
}

/// The devices in the tables of a page, by the kind of the page.
pub open spec fn page_entries(
    all: Seq<Seq<Seq<(bool, Seq<char>)>>>,
    brand: Seq<char>,
    kind: Seq<char>,
    limit: Option<usize>,
) -> Seq<entry::EntryView> {
    if kind == "apple-columns"@ {
        first_entries(entry::distinct(columns::all_candidates(all)), limit)
    } else {
        entry::limited(
            entry::distinct(wiki::all_candidates(all, brand, kind == "apple"@)),
            limit,
        )
    }
}

/// Extracts the devices from the tables of a page. In a page of kind
/// `"apple-columns"` each column of a table is a device, in another each row.
pub fn extract_page(
    tables: &Vec<Vec<Vec<(bool, String)>>>,
    brand: &str,
    kind: &str,
    limit: Option<usize>,
) -> (r: Vec<DeviceEntry>)
    ensures
        entry::entries_view(r@) == page_entries(
            tables::tables_view(tables@),
            brand@,
            kind@,
            limit,
        ),
{
    if text::same_str(kind, "apple-columns") {
        let mut d = columns::extract_apple_columns(tables);
        let ghost all = entry::entries_view(d@);
        if let Some(l) = limit {
            d.truncate(l);
        }
        assert(entry::entries_view(d@) =~= first_entries(all, limit));
        d
    } else {
        wiki::extract_from_tables(tables, brand, kind, limit)
    }
}

// ---------------------------------------------------------------------------
// What becomes of a page
// ---------------------------------------------------------------------------

/// A reply with a text in its first member `text` of its first member `parse` has
/// that text for its page, whatever else it holds.
pub proof fn lemma_page_of_a_reply(
    before: Seq<(Seq<char>, JsonView)>,
    inner_before: Seq<(Seq<char>, JsonView)>,
    html: Seq<char>,
    inner_after: Seq<(Seq<char>, JsonView)>,
    after: Seq<(Seq<char>, JsonView)>,
)
    requires
        forall|i: int| 0 <= i < before.len() ==> (#[trigger] before[i]).0 != "parse"@,
        forall|i: int| 0 <= i < inner_before.len() ==> (#[trigger] inner_before[i]).0 != "text"@,
    ensures
        ({
            let parse = JsonView::Object(
                inner_before + seq![("text"@, JsonView::Text(html))] + inner_after,
            );
            page_text(Some(JsonView::Object(before + seq![("parse"@, parse)] + after))) == Some(
                html,
            )
        }),
        page_text(Some(JsonView::Object(before))) is None,
{
    let parse = JsonView::Object(
        inner_before + seq![("text"@, JsonView::Text(html))] + inner_after,
    );
    json::lemma_member(inner_before, "text"@, JsonView::Text(html), inner_after);
    json::lemma_member(before, "parse"@, parse, after);
}

/// In a page of columns each device has an entry with the values of its column,
/// whatever brand is asked for.
pub proof fn lemma_page_of_columns(
    all: Seq<Seq<Seq<(bool, Seq<char>)>>>,
    brand: Seq<char>,
    t: int,
    j: int,
    name: Seq<char>,
    x: Seq<char>,
) -> (i: int)
    requires
        0 <= t < all.len(),
        columns::names_column(all[t], j, name),
        columns::column_names(all[t].skip(1), j, x),
        forall|u: int, k: int|
            0 <= u < all.len() && (u < t || (u == t && k < j)) ==> !#[trigger] columns::names_column(
                all[u],
                k,
                name,
            ),
    ensures
        0 <= i < page_entries(all, brand, "apple-columns"@, None).len(),
        columns::is_entry_of(
            page_entries(all, brand, "apple-columns"@, None)[i],
            all[t].skip(1),
            name,
            j,
        ),
{
    columns::lemma_each_column_has_an_entry(all, t, j, name, x)
}

/// In any other page each row of a device has an entry with its brand and its name;
/// only in a page of kind `"apple"` a device needs a model number.
pub proof fn lemma_page_of_rows(
    all: Seq<Seq<Seq<(bool, Seq<char>)>>>,
    brand: Seq<char>,
    kind: Seq<char>,
    cols: wiki::Columns,
    t: int,
    r: int,
) -> (i: int)
    requires
        kind != "apple-columns"@,
        0 <= t < all.len(),
        1 <= r < all[t].len(),
        wiki::are_columns(all[t][0], cols),
        wiki::is_device_row(all[t][r], cols, kind == "apple"@),
    ensures
        ({
            let e = page_entries(all, brand, kind, None)[i];
            &&& 0 <= i < page_entries(all, brand, kind, None).len()
            &&& e.brand == brand
            &&& e.name == wiki::row_name(all[t][r], cols)
            &&& e.models.len() == 1
            &&& kind == "apple"@ ==> wiki::are_row_ids(e.models[0].ids, all[t][r], cols, true)
        }),
{
    wiki::lemma_each_row_has_an_entry(all, brand, kind == "apple"@, cols, t, r)
}

/// A limit keeps the first entries: in a page of columns as many as it says, in
/// another at least one.
pub proof fn lemma_page_limit(
    all: Seq<Seq<Seq<(bool, Seq<char>)>>>,
    brand: Seq<char>,
    kind: Seq<char>,
    limit: usize,
)
    ensures
        ({
            let whole = page_entries(all, brand, kind, None);
            let some = page_entries(all, brand, kind, Some(limit));
            let most = if kind != "apple-columns"@ && limit == 0 {
                1
            } else {
                limit as int
            };
            &&& some.len() == (if whole.len() < most {
                whole.len() as int
            } else {
                most
            })
            &&& some == whole.take(some.len() as int)
        }),
{
    let whole = page_entries(all, brand, kind, None);
    assert(whole.take(whole.len() as int) =~= whole);
}

} // verus!
