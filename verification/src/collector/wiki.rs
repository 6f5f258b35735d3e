//! Device entries from the tables of wiki pages.

use crate::collector::entry;
use crate::collector::entry::{DeviceEntry, Entries};
use crate::collector::tables;
use crate::text;
use vstd::prelude::*;

verus! {

broadcast use vstd::string::group_string_axioms;

// ---------------------------------------------------------------------------
// Columns and cells
// ---------------------------------------------------------------------------

/// One of the keys occurs in the text.
pub open spec fn has_one(s: Seq<char>, keys: Seq<Seq<char>>) -> bool {
    exists|k: int| 0 <= k < keys.len() && text::has(s, #[trigger] keys[k])
}

/// One of the keys occurs in the heading, in whatever case.
pub open spec fn heading_has(heading: Seq<char>, keys: Seq<Seq<char>>) -> bool {
    has_one(text::lowered(heading), keys)
}

/// The first column from `i` on whose heading has one of the keys.
pub open spec fn column_from(
    header: Seq<(bool, Seq<char>)>,
    keys: Seq<Seq<char>>,
    i: int,
) -> Option<int>
    decreases header.len() - i,
{
    if i < 0 || i >= header.len() {
        None
    } else if heading_has(header[i].1, keys) {
        Some(i)
    } else {
        column_from(header, keys, i + 1)
    }
}

/// The first column whose heading has one of the keys.
pub open spec fn column_of(header: Seq<(bool, Seq<char>)>, keys: Seq<Seq<char>>) -> Option<int> {
    column_from(header, keys, 0)
}

/// The text of a row in a column, where the row reaches so far and the text is
/// not empty.
pub open spec fn cell_at(row: Seq<(bool, Seq<char>)>, column: Option<int>) -> Option<Seq<char>> {
    match column {
        Some(i) if 0 <= i < row.len() && row[i].1.len() > 0 => Some(row[i].1),
        _ => None,
    }
}

/// The first of two texts that is there.
pub open spec fn either(a: Option<Seq<char>>, b: Option<Seq<char>>) -> Option<Seq<char>> {
    match a {
        Some(_) => a,
        None => b,
    }
}

/// The text, or the empty text.
pub open spec fn or_empty(a: Option<Seq<char>>) -> Seq<char> {
    match a {
        Some(s) => s,
        None => Seq::empty(),
    }
}

/// A row that is a section heading: a single header cell.
pub open spec fn is_section(row: Seq<(bool, Seq<char>)>) -> bool {
    row.len() == 1 && row[0].0
}

/// Whether one of the keys occurs in a text.
pub fn contains_one(s: &str, keys: &[&str]) -> (r: bool)
    ensures
        r == has_one(s@, text::lits(keys@)),
{
    let ghost k = text::lits(keys@);
    let chars = text::chars_of(s);
    for j in 0..keys.len()
        invariant
            k == text::lits(keys@),
            chars@ == s@,
            forall|q: int| 0 <= q < j ==> !text::has(s@, #[trigger] k[q]),
    {
        assert(k[j as int] == keys@[j as int]@);
        if text::contains_str(chars.as_slice(), keys[j]) {
            return true;
        }
    }
    false
}

/// The column whose lowered heading contains one of the keys.
pub fn col_index(header: &[(bool, String)], keys: &[&str]) -> (r: Option<usize>)
    ensures
        text::as_int(r) == column_of(tables::row_view(header@), text::lits(keys@)),
{
    let ghost h = tables::row_view(header@);
    let ghost k = text::lits(keys@);
    for i in 0..header.len()
        invariant
            h == tables::row_view(header@),
            k == text::lits(keys@),
            column_of(h, k) == column_from(h, k, i as int),
    {
        assert(h[i as int].1 == header@[i as int].1@);
        if contains_one(text::lower(header[i].1.as_str()).as_str(), keys) {
            return Some(i);
        }
    }
    None
}

/// The text of a row in a column.
pub fn cell(row: &Vec<(bool, String)>, column: Option<usize>) -> (r: Option<String>)
    ensures
        text::opt_str(r) == cell_at(tables::row_view(row@), text::as_int(column)),
{
    let ghost view = tables::row_view(row@);
    match column {
        Some(i) => {
            if i < row.len() {
                assert(view[i as int].1 == row@[i as int].1@);
                if !row[i].1.as_str().is_empty() {
                    return Some(row[i].1.clone());
                }
            }
            None
        },
        None => None,
    }
}

// ---------------------------------------------------------------------------
// Model numbers of Apple
// ---------------------------------------------------------------------------

/// An `A` followed by digits only.
pub open spec fn a_digits(t: Seq<char>) -> bool {
    t.len() > 0 && t[0] == 'A' && forall|i: int| 1 <= i < t.len() ==> text::is_digit(#[trigger] t[i])
}

/// A model number such as A1332: of five characters, or of at least four where
/// the length is left open.
pub open spec fn is_a_number(t: Seq<char>, five: bool) -> bool {
    a_digits(t) && (if five {
        t.len() == 5
    } else {
        t.len() >= 4
    })
}

/// The model numbers among the tokens of a text, in order, each once.
pub open spec fn a_numbers(s: Seq<char>, five: bool) -> Seq<Seq<char>> {
    text::sorted_set(text::select(text::tokens(s, false), |t: Seq<char>| is_a_number(t, five)))
}

/// Whether a token is a model number.
pub fn a_number(t: &[char], five: bool) -> (r: bool)
    ensures
        r == is_a_number(t@, five),
{
    if five && t.len() != 5 {
        return false;
    }
    if !five && t.len() < 4 {
        return false;
    }
    if t[0] != 'A' {
        return false;
    }
    for i in 1..t.len()
        invariant
            forall|k: int| 1 <= k < i ==> text::is_digit(#[trigger] t@[k]),
    {
        if !text::digit(t[i]) {
            return false;
        }
    }
    true
}

/// Picks the model numbers out of a text.
pub fn find_a_numbers(s: &[char], five: bool) -> (r: Vec<Vec<char>>)
    ensures
        text::rows(r@) == a_numbers(s@, five),
{
    let toks = text::tokenize(s, false);
    let ghost all = text::tokens(s@, false);
    let ghost p = |t: Seq<char>| is_a_number(t, five);
    let mut out: Vec<Vec<char>> = Vec::new();
    assert(text::rows(out@) =~= text::sorted_set(text::select(all.take(0), p)));
    for i in 0..toks.len()
        invariant
            text::rows(toks@) == all,
            p == (|t: Seq<char>| is_a_number(t, five)),
            text::rows(out@) == text::sorted_set(text::select(all.take(i as int), p)),
    {
        proof {
            assert(all.take(i + 1).drop_last() =~= all.take(i as int));
            assert(all.take(i + 1).last() == toks@[i as int]@);
            assert(p(toks@[i as int]@) == is_a_number(toks@[i as int]@, five));
        }
        if a_number(toks[i].as_slice(), five) {
            let t = text::to_vec(toks[i].as_slice());
            proof {
                let before = text::select(all.take(i as int), p);
                assert(before.push(t@).drop_last() =~= before);
            }
            text::add_sorted(&mut out, t);
        }
    }
    assert(all.take(toks@.len() as int) =~= all);
    out
}

// ---------------------------------------------------------------------------
// Tables with a device in each row
// ---------------------------------------------------------------------------

/// The columns that a device table is read by.
pub struct Columns {
    pub name: Option<int>,
    pub number: Option<int>,
    pub codename: Option<int>,
}

/// The columns found by their headings.
pub open spec fn columns(header: Seq<(bool, Seq<char>)>) -> Columns {
    Columns {
        name: column_of(header, seq!["model"@]),
        number: column_of(header, seq!["model number"@, "model no"@, "version"@]),
        codename: column_of(header, seq!["codename"@, "code name"@]),
    }
}

/// The model ids of a row. In an Apple table these are the model numbers in the
/// number column, or in the name where that is empty. In another table they are
/// the tokens of at least three characters in the number column, or else the
/// codename.
pub open spec fn row_ids(
    row: Seq<(bool, Seq<char>)>,
    cols: Columns,
    name: Seq<char>,
    apple: bool,
) -> Seq<Seq<char>> {
    if apple {
        a_numbers(or_empty(either(cell_at(row, cols.number), Some(name))), false)
    } else {
        match cell_at(row, cols.number) {
            Some(raw) => text::select(text::tokens(raw, true), |t: Seq<char>| t.len() >= 3),
            None => match cell_at(row, cols.codename) {
                Some(c) => seq![c],
                None => Seq::empty(),
            },
        }
    }
}

/// The candidate of a row: none for a section heading, for a row without a name
/// and, in an Apple table, for a row without model numbers. It is recognised by
/// brand, name and ids. A row without ids has its name for one.
pub open spec fn row_candidate(
    row: Seq<(bool, Seq<char>)>,
    cols: Columns,
    brand: Seq<char>,
    apple: bool,
) -> Option<entry::Candidate> {
    match either(cell_at(row, cols.name), cell_at(row, cols.number)) {
        Some(name) if !is_section(row) && !(apple && row_ids(row, cols, name, apple).len()
            == 0) => {
            let ids = row_ids(row, cols, name, apple);
            Some(
                entry::Candidate {
                    key: seq![brand, name, text::joined(ids, "|"@)],
                    entry: Some(
                        entry::EntryView {
                            brand,
                            name,
                            series: None,
                            code: None,
                            codename: Some(or_empty(cell_at(row, cols.codename))),
                            models: entry::one_model(
                                if ids.len() == 0 {
                                    seq![name]
                                } else {
                                    ids
                                },
                                name,
                            ),
                        },
                    ),
                },
            )
        },
        _ => None,
    }
}

/// The candidates of rows.
pub open spec fn row_candidates(
    rows: Seq<Seq<(bool, Seq<char>)>>,
    cols: Columns,
    brand: Seq<char>,
    apple: bool,
) -> Seq<entry::Candidate>
    decreases rows.len(),
{
    if rows.len() == 0 {
        Seq::empty()
    } else {
        let before = row_candidates(rows.drop_last(), cols, brand, apple);
        match row_candidate(rows.last(), cols, brand, apple) {
            Some(c) => before.push(c),
            None => before,
        }
    }
}

/// The candidates of a table: those of the rows below the header, where the
/// header has a name or a number column.
pub open spec fn table_candidates(
    table: Seq<Seq<(bool, Seq<char>)>>,
    brand: Seq<char>,
    apple: bool,
) -> Seq<entry::Candidate> {
    if table.len() == 0 {
        Seq::empty()
    } else {
        let cols = columns(table[0]);
        if cols.name is None && cols.number is None {
            Seq::empty()
        } else {
            row_candidates(table.skip(1), cols, brand, apple)
        }
    }
}

/// The candidates of all tables.
pub open spec fn all_candidates(
    all: Seq<Seq<Seq<(bool, Seq<char>)>>>,
    brand: Seq<char>,
    apple: bool,
) -> Seq<entry::Candidate>
    decreases all.len(),
{
    if all.len() == 0 {
        Seq::empty()
    } else {
        all_candidates(all.drop_last(), brand, apple) + table_candidates(all.last(), brand, apple)
    }
}

proof fn lemma_rows_head(
    rows: Seq<Seq<(bool, Seq<char>)>>,
    cols: Columns,
    brand: Seq<char>,
    apple: bool,
    i: int,
)
    requires
        0 <= i <= rows.len(),
    ensures
        entry::heads(
            row_candidates(rows.take(i), cols, brand, apple),
            row_candidates(rows, cols, brand, apple),
        ),
    decreases rows.len(),
{
    if i < rows.len() {
        assert(rows.drop_last().take(i) =~= rows.take(i));
        lemma_rows_head(rows.drop_last(), cols, brand, apple, i);
        let p = row_candidates(rows.take(i), cols, brand, apple);
        assert(p =~= row_candidates(rows, cols, brand, apple).take(p.len() as int));
    } else {
        assert(rows.take(i) =~= rows);
        let c = row_candidates(rows, cols, brand, apple);
        assert(c.take(c.len() as int) =~= c);
    }
}

proof fn lemma_tables_head(
    all: Seq<Seq<Seq<(bool, Seq<char>)>>>,
    brand: Seq<char>,
    apple: bool,
    i: int,
)
    requires
        0 <= i <= all.len(),
    ensures
        entry::heads(
            all_candidates(all.take(i), brand, apple),
            all_candidates(all, brand, apple),
        ),
    decreases all.len(),
{
    if i < all.len() {
        assert(all.drop_last().take(i) =~= all.take(i));
        lemma_tables_head(all.drop_last(), brand, apple, i);
        let p = all_candidates(all.take(i), brand, apple);
        assert(p =~= all_candidates(all, brand, apple).take(p.len() as int));
    } else {
        assert(all.take(i) =~= all);
        let c = all_candidates(all, brand, apple);
        assert(c.take(c.len() as int) =~= c);
    }
}

/// The tokens of at least three characters.
fn long_tokens(s: &[char]) -> (r: Vec<String>)
    ensures
        text::strs(r@) == text::select(text::tokens(s@, true), |t: Seq<char>| t.len() >= 3),
{
    let toks = text::tokenize(s, true);
    let ghost all = text::tokens(s@, true);
    let ghost p = |t: Seq<char>| t.len() >= 3;
    let mut out: Vec<String> = Vec::new();
    assert(text::strs(out@) =~= text::select(all.take(0), p));
    for i in 0..toks.len()
        invariant
            text::rows(toks@) == all,
            p == (|t: Seq<char>| t.len() >= 3),
            text::strs(out@) == text::select(all.take(i as int), p),
    {
        proof {
            assert(all.take(i + 1).drop_last() =~= all.take(i as int));
            assert(all.take(i + 1).last() == toks@[i as int]@);
            assert(p(toks@[i as int]@) == (toks@[i as int]@.len() >= 3));
        }
        if toks[i].len() >= 3 {
            let ghost before = text::strs(out@);
            let t = text::string_of(toks[i].as_slice());
            out.push(t);
            assert(text::strs(out@) =~= before.push(t@));
        }
    }
    assert(all.take(toks@.len() as int) =~= all);
    out
}

/// The executable form of `Columns`.
struct ColumnSet {
    name: Option<usize>,
    number: Option<usize>,
    codename: Option<usize>,
}

spec fn columns_view(c: ColumnSet) -> Columns {
    Columns {
        name: text::as_int(c.name),
        number: text::as_int(c.number),
        codename: text::as_int(c.codename),
    }
}

/// Finds the columns of a device table.
fn find_columns(header: &Vec<(bool, String)>) -> (r: ColumnSet)
    ensures
        columns_view(r) == columns(tables::row_view(header@)),
{
    let name_keys: [&str; 1] = ["model"];
    let number_keys: [&str; 3] = ["model number", "model no", "version"];
    let codename_keys: [&str; 2] = ["codename", "code name"];
    let a: &[&str] = &name_keys;
    let b: &[&str] = &number_keys;
    let c: &[&str] = &codename_keys;
    proof {
        assert(text::lits(a@) =~= seq!["model"@]);
        assert(text::lits(b@) =~= seq!["model number"@, "model no"@, "version"@]);
        assert(text::lits(c@) =~= seq!["codename"@, "code name"@]);
    }
    let h = header.as_slice();
    ColumnSet {
        name: col_index(h, a),
        number: col_index(h, b),
        codename: col_index(h, c),
    }
}

/// The ids of a row.
fn ids_of_row(row: &Vec<(bool, String)>, cols: &ColumnSet, name: &String, apple: bool) -> (r: Vec<
    String,
>)
    ensures
        text::strs(r@) == row_ids(
            tables::row_view(row@),
            columns_view(*cols),
            name@,
            apple,
        ),
{
    if apple {
        let raw = match cell(row, cols.number) {
            Some(s) => s,
            None => name.clone(),
        };
        let chars = text::chars_of(raw.as_str());
        let found = find_a_numbers(chars.as_slice(), false);
        text::strings_of(&found)
    } else {
        match cell(row, cols.number) {
            Some(raw) => {
                let chars = text::chars_of(raw.as_str());
                long_tokens(chars.as_slice())
            },
            None => match cell(row, cols.codename) {
                Some(c) => entry::one_string(c),
                None => {
                    let none: Vec<String> = Vec::new();
                    assert(text::strs(none@) =~= Seq::<Seq<char>>::empty());
                    none
                },
            },
        }
    }
}

/// The key and the entry of a row.
fn row_entry(row: &Vec<(bool, String)>, cols: &ColumnSet, brand: &str, apple: bool) -> (r: Option<
    (Vec<String>, DeviceEntry),
>)
    ensures
        match r {
            Some(p) => row_candidate(
                tables::row_view(row@),
                columns_view(*cols),
                brand@,
                apple,
            ) == Some(entry::Candidate { key: text::strs(p.0@), entry: Some(p.1@) }),
            None => row_candidate(
                tables::row_view(row@),
                columns_view(*cols),
                brand@,
                apple,
            ) is None,
        },
{
    let ghost view = tables::row_view(row@);
    if row.len() == 1 {
        assert(view[0].0 == row@[0].0);
        if row[0].0 {
            return None;
        }
    }
    let name = match cell(row, cols.name) {
        Some(s) => s,
        None => match cell(row, cols.number) {
            Some(s) => s,
            None => {
                return None;
            },
        },
    };
    let ids = ids_of_row(row, cols, &name, apple);
    let ghost idv = text::strs(ids@);
    assert(idv == row_ids(view, columns_view(*cols), name@, apple));
    if apple && ids.len() == 0 {
        return None;
    }
    let mut key: Vec<String> = Vec::new();
    key.push(brand.to_owned());
    key.push(name.clone());
    key.push(text::join(&ids, "|"));
    assert(text::strs(key@) =~= seq![brand@, name@, text::joined(idv, "|"@)]);
    let codename = match cell(row, cols.codename) {
        Some(s) => s,
        None => String::new(),
    };
    let models = if ids.len() == 0 {
        entry::single_model(entry::one_string(name.clone()), name.clone())
    } else {
        entry::single_model(ids, name.clone())
    };
    Some(
        (
            key,
            DeviceEntry {
                brand: brand.to_owned(),
                name,
                series: None,
                code: None,
                codename: Some(codename),
                models,
            },
        ),
    )
}

/// Extracts devices from parsed tables. In an `"apple"` table a device has the
/// model numbers of its row; in another it has the tokens of the number column,
/// its codename, or its name.
pub fn extract_from_tables(
    tables: &Vec<Vec<Vec<(bool, String)>>>,
    brand: &str,
    kind: &str,
    limit: Option<usize>,
) -> (r: Vec<DeviceEntry>)
    ensures
        entry::entries_view(r@) == entry::limited(
            entry::distinct(
                all_candidates(tables::tables_view(tables@), brand@, kind@ == "apple"@),
            ),
            limit,
        ),
{
    let apple = text::same_str(kind, "apple");
    let ghost all = tables::tables_view(tables@);
    let mut state = Entries::new();
    assert(all_candidates(all.take(0), brand@, apple) =~= Seq::empty());
    for i in 0..tables.len()
        invariant
            all == tables::tables_view(tables@),
            apple == (kind@ == "apple"@),
            state.holds(all_candidates(all.take(i as int), brand@, apple)),
            entry::room(state.entries@.len(), limit),
    {
        let table = &tables[i];
        let ghost view = all[i as int];
        let ghost done = all_candidates(all.take(i as int), brand@, apple);
        proof {
            assert(view == tables::table_view(table@));
            assert(all.take(i + 1).drop_last() =~= all.take(i as int));
            assert(all.take(i + 1).last() == view);
            assert(done + Seq::<entry::Candidate>::empty() =~= done);
        }
        if table.len() > 0 {
            assert(view[0] == tables::row_view(table@[0]@));
            let cols = find_columns(&table[0]);
            let ghost colv = columns(view[0]);
            if cols.name.is_some() || cols.number.is_some() {
                let ghost rows = view.skip(1);
                assert(row_candidates(rows.take(0), colv, brand@, apple) =~= Seq::empty());
                for j in 1..table.len()
                    invariant
                        i < tables@.len(),
                        all == tables::tables_view(tables@),
                        apple == (kind@ == "apple"@),
                        table == tables@[i as int],
                        view == tables::table_view(table@),
                        view == all[i as int],
                        view.len() > 0,
                        colv == columns(view[0]),
                        columns_view(cols) == colv,
                        !(colv.name is None && colv.number is None),
                        rows == view.skip(1),
                        done == all_candidates(all.take(i as int), brand@, apple),
                        all_candidates(all.take(i + 1), brand@, apple) == done + table_candidates(
                            view,
                            brand@,
                            apple,
                        ),
                        state.holds(done + row_candidates(rows.take(j - 1), colv, brand@, apple)),
                        entry::room(state.entries@.len(), limit),
                {
                    let ghost before = row_candidates(rows.take(j - 1), colv, brand@, apple);
                    proof {
                        assert(rows.take(j as int).drop_last() =~= rows.take(j - 1));
                        assert(rows.take(j as int).last() == tables::row_view(table@[j as int]@));
                    }
                    if let Some((key, e)) = row_entry(&table[j], &cols, brand, apple) {
                        let ghost cand = entry::Candidate {
                            key: text::strs(key@),
                            entry: Some(e@),
                        };
                        let added = state.offer(key, Some(e));
                        let ghost now = done + row_candidates(
                            rows.take(j as int),
                            colv,
                            brand@,
                            apple,
                        );
                        assert((done + before).push(cand) =~= now);
                        if added && entry::reached(state.entries.len(), limit) {
                            proof {
                                lemma_rows_head(rows, colv, brand@, apple, j as int);
                                let next = all_candidates(all.take(i + 1), brand@, apple);
                                assert(now =~= next.take(now.len() as int));
                                lemma_tables_head(all, brand@, apple, i + 1);
                                let total = all_candidates(all, brand@, apple);
                                entry::lemma_heads(now, next, total);
                                entry::lemma_filled(now, total, limit);
                            }
                            return state.entries;
                        }
                    }
                }
                assert(rows.take(table@.len() - 1) =~= rows);
            }
        }
    }
    assert(all.take(tables@.len() as int) =~= all);
    state.entries
}

// ---------------------------------------------------------------------------
// What becomes of the rows
// ---------------------------------------------------------------------------

/// One of the keys stands in the lowered heading at a position.
pub open spec fn heads_column(
    header: Seq<(bool, Seq<char>)>,
    keys: Seq<Seq<char>>,
    i: int,
) -> bool {
    exists|k: int| 0 <= k < keys.len() && text::has(text::lowered(header[i].1), #[trigger] keys[k])
}

/// The column is the first one with such a heading; there is none where no heading
/// is such a one.
pub open spec fn first_column(
    header: Seq<(bool, Seq<char>)>,
    keys: Seq<Seq<char>>,
    column: Option<int>,
) -> bool {
    match column {
        Some(i) => 0 <= i < header.len() && heads_column(header, keys, i) && forall|j: int|
            0 <= j < i ==> !#[trigger] heads_column(header, keys, j),
        None => forall|j: int| 0 <= j < header.len() ==> !#[trigger] heads_column(header, keys, j),
    }
}

/// The column that is found is the first with one of the keys in its heading.
pub proof fn lemma_first_column(header: Seq<(bool, Seq<char>)>, keys: Seq<Seq<char>>)
    ensures
        first_column(header, keys, column_of(header, keys)),
{
    lemma_column_from(header, keys, 0);
}

proof fn lemma_column_from(header: Seq<(bool, Seq<char>)>, keys: Seq<Seq<char>>, from: int)
    requires
        0 <= from <= header.len(),
        forall|j: int| 0 <= j < from ==> !#[trigger] heads_column(header, keys, j),
    ensures
        first_column(header, keys, column_from(header, keys, from)),
    decreases header.len() - from,
{
    if from < header.len() {
        assert(heading_has(header[from].1, keys) == heads_column(header, keys, from)) by {
            if heading_has(header[from].1, keys) {
                let k = choose|k: int|
                    0 <= k < keys.len() && text::has(
                        text::lowered(header[from].1),
                        #[trigger] keys[k],
                    );
                assert(text::has(text::lowered(header[from].1), keys[k]));
            }
        }
        if !heading_has(header[from].1, keys) {
            lemma_column_from(header, keys, from + 1);
        }
    }
}

/// There is only one such column.
pub proof fn lemma_only_column(
    header: Seq<(bool, Seq<char>)>,
    keys: Seq<Seq<char>>,
    a: Option<int>,
    b: Option<int>,
)
    requires
        first_column(header, keys, a),
        first_column(header, keys, b),
    ensures
        a == b,
{
    match (a, b) {
        (Some(i), Some(j)) => {
            assert(heads_column(header, keys, i) && heads_column(header, keys, j));
            assert(i == j);
        },
        (Some(i), None) => {
            assert(heads_column(header, keys, i));
        },
        (None, Some(j)) => {
            assert(heads_column(header, keys, j));
        },
        (None, None) => {},
    }
}

/// The columns of a device table: the names, the model numbers and the codenames.
pub open spec fn are_columns(header: Seq<(bool, Seq<char>)>, cols: Columns) -> bool {
    &&& first_column(header, seq!["model"@], cols.name)
    &&& first_column(header, seq!["model number"@, "model no"@, "version"@], cols.number)
    &&& first_column(header, seq!["codename"@, "code name"@], cols.codename)
}

/// The row has a text in the column.
pub open spec fn filled(row: Seq<(bool, Seq<char>)>, column: Option<int>) -> bool {
    column matches Some(i) && 0 <= i < row.len() && row[i].1.len() > 0
}

/// The name of the device of a row: the text in the column of names, or else that
/// in the column of model numbers.
pub open spec fn row_name(row: Seq<(bool, Seq<char>)>, cols: Columns) -> Seq<char> {
    if filled(row, cols.name) {
        row[cols.name->0].1
    } else {
        row[cols.number->0].1
    }
}

/// ASCII letters and digits, and the hyphen.
pub open spec fn number_char() -> spec_fn(char) -> bool {
    |c: char| '0' <= c <= '9' || 'A' <= c <= 'Z' || 'a' <= c <= 'z' || c == '-'
}

/// A model number of Apple stands in a text as a token of its own: an `A` and
/// digits, of so many characters at least or exactly.
pub open spec fn names_number(s: Seq<char>, t: Seq<char>, five: bool) -> bool {
    &&& exists|i: int, j: int| #[trigger]
        text::is_run(s, i, j, number_char()) && t == s.subrange(i, j)
    &&& t.len() >= 4
    &&& five ==> t.len() == 5
    &&& t[0] == 'A'
    &&& forall|k: int| 1 <= k < t.len() ==> '0' <= #[trigger] t[k] <= '9'
}

/// The model numbers of Apple that are picked out of a text are those that stand in
/// it as tokens of their own, in ascending order and each once.
pub proof fn lemma_a_numbers(s: Seq<char>, five: bool)
    ensures
        text::increasing(a_numbers(s, five)),
        forall|t: Seq<char>| #[trigger]
            a_numbers(s, five).contains(t) <==> names_number(s, t, five),
{
    let keep = |c: char| text::in_token(c, false);
    assert(keep =~= number_char());
    let toks = text::runs(s, keep);
    let p = |t: Seq<char>| is_a_number(t, five);
    let chosen = text::select(toks, p);
    text::lemma_sorted_set(chosen);
    assert forall|t: Seq<char>| #[trigger]
        a_numbers(s, five).contains(t) <==> names_number(s, t, five) by {
        text::lemma_select(toks, p, t);
        assert(p(t) == is_a_number(t, five));
        if t.len() > 0 {
            text::lemma_run_texts(s, keep, t);
        }
        assert(text::sorted_set(chosen).contains(t) <==> chosen.contains(t));
        if names_number(s, t, five) {
            assert forall|i: int| 1 <= i < t.len() implies text::is_digit(#[trigger] t[i]) by {}
        }
    }
}

/// A run of token characters of at least three stands in the text.
pub open spec fn has_token(s: Seq<char>) -> bool {
    exists|i: int, j: int| #[trigger]
        text::is_run(s, i, j, token_char()) && j - i >= 3
}

/// ASCII letters and digits, the hyphen and the underscore.
pub open spec fn token_char() -> spec_fn(char) -> bool {
    |c: char|
        '0' <= c <= '9' || 'A' <= c <= 'Z' || 'a' <= c <= 'z' || c == '-' || c == '_'
}

/// The ids are those of a row. In an Apple table: the model numbers in the column of
/// model numbers, or in the name where that is empty. In another table: the tokens
/// of at least three characters in that column, all of them in their order; the
/// codename where the column is empty; the name where there is neither.
pub open spec fn are_row_ids(
    ids: Seq<Seq<char>>,
    row: Seq<(bool, Seq<char>)>,
    cols: Columns,
    apple: bool,
) -> bool {
    let name = row_name(row, cols);
    if apple {
        let source = number_source(row, cols);
        &&& text::increasing(ids)
        &&& forall|t: Seq<char>| #[trigger] ids.contains(t) <==> names_number(source, t, false)
    } else if filled(row, cols.number) {
        let source = row[cols.number->0].1;
        if has_token(source) {
            exists|spans: Seq<(int, int)>| #[trigger]
                text::in_runs(ids, spans, source, token_char(), 3)
        } else {
            ids == seq![name]
        }
    } else if filled(row, cols.codename) {
        ids == seq![row[cols.codename->0].1]
    } else {
        ids == seq![name]
    }
}

/// Where the model numbers of Apple stand: in the column of model numbers, or in the
/// name where that is empty.
pub open spec fn number_source(row: Seq<(bool, Seq<char>)>, cols: Columns) -> Seq<char> {
    if filled(row, cols.number) {
        row[cols.number->0].1
    } else {
        row_name(row, cols)
    }
}

/// The row is that of a device: no section heading, with a name, and in an Apple
/// table with a model number.
pub open spec fn is_device_row(row: Seq<(bool, Seq<char>)>, cols: Columns, apple: bool) -> bool {
    &&& !(row.len() == 1 && row[0].0)
    &&& filled(row, cols.name) || filled(row, cols.number)
    &&& apple ==> exists|t: Seq<char>| #[trigger]
        names_number(number_source(row, cols), t, false)
}

/// The entry is that of a row.
pub open spec fn is_entry_of(
    e: entry::EntryView,
    row: Seq<(bool, Seq<char>)>,
    cols: Columns,
    brand: Seq<char>,
    apple: bool,
) -> bool {
    &&& e.brand == brand
    &&& e.name == row_name(row, cols)
    &&& e.series is None
    &&& e.code is None
    &&& e.codename == Some(
        if filled(row, cols.codename) {
            row[cols.codename->0].1
        } else {
            Seq::empty()
        },
    )
    &&& e.models.len() == 1
    &&& e.models[0].market_name == e.name
    &&& are_row_ids(e.models[0].ids, row, cols, apple)
}

/// A row gives an entry exactly where it is that of a device, and the entry is that
/// of the row.
pub proof fn lemma_row_entry(
    row: Seq<(bool, Seq<char>)>,
    cols: Columns,
    brand: Seq<char>,
    apple: bool,
)
    ensures
        row_candidate(row, cols, brand, apple) is Some <==> is_device_row(row, cols, apple),
        row_candidate(row, cols, brand, apple) matches Some(c) ==> c.entry is Some && is_entry_of(
            c.entry->0,
            row,
            cols,
            brand,
            apple,
        ),
{
    if (filled(row, cols.name) || filled(row, cols.number)) {
        let name = row_name(row, cols);
        let ids = row_ids(row, cols, name, apple);
        if apple {
            let source = number_source(row, cols);
            lemma_a_numbers(source, false);
            assert(ids == a_numbers(source, false));
            if ids.len() > 0 {
                assert(ids.contains(ids[0]));
                assert(names_number(source, ids[0], false));
            }
            if exists|t: Seq<char>| #[trigger] names_number(source, t, false) {
                let t = choose|t: Seq<char>| #[trigger] names_number(source, t, false);
                assert(ids.contains(t));
            }
        } else if filled(row, cols.number) {
            let source = row[cols.number->0].1;
            let keep = |c: char| text::in_token(c, true);
            assert(keep =~= token_char());
            let min = 3int;
            let p = |t: Seq<char>| t.len() >= min;
            assert(p =~= (|t: Seq<char>| t.len() >= 3));
            let spans = text::lemma_runs(source, keep, min);
            assert(text::in_runs(ids, spans, source, token_char(), 3));
            if ids.len() > 0 {
                let span = spans[0];
                assert(text::is_run(source, span.0, span.1, token_char()));
            }
            if has_token(source) {
                let (i, j) = choose|i: int, j: int| #[trigger]
                    text::is_run(source, i, j, token_char()) && j - i >= 3;
                assert(spans.contains((i, j)));
            }
        }
    }
}

/// The candidates of rows are those of the rows that have one, in their order.
proof fn lemma_row_candidates(
    rows: Seq<Seq<(bool, Seq<char>)>>,
    cols: Columns,
    brand: Seq<char>,
    apple: bool,
) -> (at: Seq<int>)
    ensures
        text::lists(
            at,
            rows.len() as int,
            |k: int| row_candidate(rows[k], cols, brand, apple) is Some,
        ),
        at.len() == row_candidates(rows, cols, brand, apple).len(),
        forall|j: int|
            0 <= j < at.len() ==> row_candidate(rows[#[trigger] at[j]], cols, brand, apple) == Some(
                row_candidates(rows, cols, brand, apple)[j],
            ),
    decreases rows.len(),
{
    let q = |k: int| row_candidate(rows[k], cols, brand, apple) is Some;
    if rows.len() == 0 {
        let none = Seq::<int>::empty();
        assert(text::lists(none, 0, q));
        none
    } else {
        let init = rows.drop_last();
        let n = init.len() as int;
        let p = |k: int| row_candidate(init[k], cols, brand, apple) is Some;
        let before = lemma_row_candidates(init, cols, brand, apple);
        assert forall|k: int| 0 <= k < n implies #[trigger] p(k) == q(k) by {}
        text::lemma_lists_next(before, n, p, q);
        assert(rows[n] == rows.last());
        let at = if q(n) {
            before.push(n)
        } else {
            before
        };
        assert forall|j: int| 0 <= j < at.len() implies row_candidate(
            rows[#[trigger] at[j]],
            cols,
            brand,
            apple,
        ) == Some(row_candidates(rows, cols, brand, apple)[j]) by {
            if j < before.len() {
                assert(at[j] == before[j]);
                assert(init[before[j]] == rows[before[j]]);
            }
        }
        at
    }
}

/// Row `r` of table `t` gives candidate `c`.
spec fn comes_from(
    c: entry::Candidate,
    all: Seq<Seq<Seq<(bool, Seq<char>)>>>,
    t: int,
    r: int,
    brand: Seq<char>,
    apple: bool,
) -> bool {
    &&& 0 <= t < all.len()
    &&& 1 <= r < all[t].len()
    &&& !(columns(all[t][0]).name is None && columns(all[t][0]).number is None)
    &&& row_candidate(all[t][r], columns(all[t][0]), brand, apple) == Some(c)
}

proof fn lemma_table_candidate(
    table: Seq<Seq<(bool, Seq<char>)>>,
    brand: Seq<char>,
    apple: bool,
    j: int,
) -> (r: int)
    requires
        0 <= j < table_candidates(table, brand, apple).len(),
    ensures
        comes_from(table_candidates(table, brand, apple)[j], seq![table], 0, r, brand, apple),
{
    let cols = columns(table[0]);
    let at = lemma_row_candidates(table.skip(1), cols, brand, apple);
    assert(row_candidate(table.skip(1)[at[j]], cols, brand, apple) == Some(
        table_candidates(table, brand, apple)[j],
    ));
    at[j] + 1
}

proof fn lemma_candidate_source(
    all: Seq<Seq<Seq<(bool, Seq<char>)>>>,
    brand: Seq<char>,
    apple: bool,
    j: int,
) -> (at: (int, int))
    requires
        0 <= j < all_candidates(all, brand, apple).len(),
    ensures
        comes_from(all_candidates(all, brand, apple)[j], all, at.0, at.1, brand, apple),
    decreases all.len(),
{
    let init = all.drop_last();
    let before = all_candidates(init, brand, apple);
    if j < before.len() {
        let at = lemma_candidate_source(init, brand, apple, j);
        assert(init[at.0] == all[at.0]);
        at
    } else {
        let r = lemma_table_candidate(all.last(), brand, apple, j - before.len());
        assert(seq![all.last()][0] == all.last());
        (all.len() - 1, r)
    }
}

proof fn lemma_row_is_a_candidate(
    all: Seq<Seq<Seq<(bool, Seq<char>)>>>,
    brand: Seq<char>,
    apple: bool,
    t: int,
    r: int,
) -> (j: int)
    requires
        0 <= t < all.len(),
        1 <= r < all[t].len(),
        !(columns(all[t][0]).name is None && columns(all[t][0]).number is None),
        row_candidate(all[t][r], columns(all[t][0]), brand, apple) is Some,
    ensures
        0 <= j < all_candidates(all, brand, apple).len(),
        comes_from(all_candidates(all, brand, apple)[j], all, t, r, brand, apple),
    decreases all.len(),
{
    let init = all.drop_last();
    let before = all_candidates(init, brand, apple);
    let total = all_candidates(all, brand, apple);
    if t < init.len() {
        assert(init[t] == all[t]);
        let j = lemma_row_is_a_candidate(init, brand, apple, t, r);
        assert(total[j] == before[j]);
        j
    } else {
        let table = all.last();
        let cols = columns(table[0]);
        let rows = table.skip(1);
        let at = lemma_row_candidates(rows, cols, brand, apple);
        let q = |k: int| row_candidate(rows[k], cols, brand, apple) is Some;
        assert(rows[r - 1] == table[r]);
        assert(q(r - 1));
        let k = choose|k: int| 0 <= k < at.len() && at[k] == r - 1;
        assert(row_candidate(rows[at[k]], cols, brand, apple) == Some(
            row_candidates(rows, cols, brand, apple)[k],
        ));
        assert(total[before.len() + k] == table_candidates(table, brand, apple)[k]);
        before.len() + k
    }
}

proof fn lemma_columns(header: Seq<(bool, Seq<char>)>, cols: Columns)
    requires
        are_columns(header, cols),
    ensures
        columns(header) == cols,
{
    let names = seq!["model"@];
    let numbers = seq!["model number"@, "model no"@, "version"@];
    let codenames = seq!["codename"@, "code name"@];
    lemma_first_column(header, names);
    lemma_first_column(header, numbers);
    lemma_first_column(header, codenames);
    lemma_only_column(header, names, cols.name, column_of(header, names));
    lemma_only_column(header, numbers, cols.number, column_of(header, numbers));
    lemma_only_column(header, codenames, cols.codename, column_of(header, codenames));
}

proof fn lemma_number_is_plain(s: Seq<char>, t: Seq<char>)
    requires
        names_number(s, t, false),
    ensures
        t.len() > 0,
        !t.contains('|'),
{
    assert forall|k: int| 0 <= k < t.len() implies t[k] != '|' by {
        if k > 0 {
            assert('0' <= t[k] <= '9');
        }
    }
}

/// The ids that a row is recognised by, of a row that has any: none is empty, and
/// none has a bar but one that is a codename.
proof fn lemma_row_ids_plain(
    row: Seq<(bool, Seq<char>)>,
    cols: Columns,
    name: Seq<char>,
    apple: bool,
)
    ensures
        forall|k: int|
            0 <= k < row_ids(row, cols, name, apple).len() ==> (#[trigger] row_ids(
                row,
                cols,
                name,
                apple,
            )[k]).len() > 0,
        apple || filled(row, cols.number) ==> text::free_of(row_ids(row, cols, name, apple), '|'),
{
    let ids = row_ids(row, cols, name, apple);
    if apple {
        let source = or_empty(either(cell_at(row, cols.number), Some(name)));
        lemma_a_numbers(source, false);
        assert forall|k: int| 0 <= k < ids.len() implies (#[trigger] ids[k]).len() > 0
            && !ids[k].contains('|') by {
            assert(ids.contains(ids[k]));
            lemma_number_is_plain(source, ids[k]);
        }
    } else if filled(row, cols.number) {
        let source = row[cols.number->0].1;
        let keep = |c: char| text::in_token(c, true);
        let min = 3int;
        assert((|t: Seq<char>| t.len() >= min) =~= (|t: Seq<char>| t.len() >= 3));
        let spans = text::lemma_runs(source, keep, min);
        assert(text::in_runs(ids, spans, source, keep, 3));
        assert forall|k: int| 0 <= k < ids.len() implies (#[trigger] ids[k]).len() > 0
            && !ids[k].contains('|') by {
            let span = spans[k];
            assert(text::is_run(source, span.0, span.1, keep));
            assert(ids[k] == source.subrange(span.0, span.1));
            assert forall|x: int| 0 <= x < ids[k].len() implies ids[k][x] != '|' by {
                assert(keep(source[span.0 + x]));
            }
        }
    }
}

/// No row of a device is lost: where there is no limit, one of the entries has its
/// brand and its name, and its ids where they are written with bars between them.
/// So the entry has just the ids of the row, unless it stems from a row of the same
/// name whose codename has a bar in it.
pub proof fn lemma_each_row_has_an_entry(
    all: Seq<Seq<Seq<(bool, Seq<char>)>>>,
    brand: Seq<char>,
    apple: bool,
    cols: Columns,
    t: int,
    r: int,
) -> (i: int)
    requires
        0 <= t < all.len(),
        1 <= r < all[t].len(),
        are_columns(all[t][0], cols),
        is_device_row(all[t][r], cols, apple),
    ensures
        ({
            let row = all[t][r];
            let out = entry::distinct(all_candidates(all, brand, apple));
            let e = out[i];
            &&& 0 <= i < out.len()
            &&& e.brand == brand
            &&& e.name == row_name(row, cols)
            &&& e.models.len() == 1
            &&& e.models[0].market_name == e.name
            &&& apple || (text::free_of(e.models[0].ids, '|') && (filled(row, cols.number)
                || !filled(row, cols.codename) || !row[cols.codename->0].1.contains('|')))
                ==> are_row_ids(e.models[0].ids, row, cols, apple)
        }),
{
    let row = all[t][r];
    let total = all_candidates(all, brand, apple);
    lemma_columns(all[t][0], cols);
    lemma_row_entry(row, cols, brand, apple);
    let j = lemma_row_is_a_candidate(all, brand, apple, t, r);
    assert forall|x: int| 0 <= x < total.len() implies (#[trigger] total[x]).entry is Some by {
        let at = lemma_candidate_source(all, brand, apple, x);
        lemma_row_entry(all[at.0][at.1], columns(all[at.0][0]), brand, apple);
    }
    let i = entry::lemma_each_key_stays(total, j);
    let o = entry::origins(total)[i];
    let at = lemma_candidate_source(all, brand, apple, o);
    let row2 = all[at.0][at.1];
    let cols2 = columns(all[at.0][0]);
    lemma_row_entry(row2, cols2, brand, apple);
    let e = entry::distinct(total)[i];
    let a = total[j];
    let b = total[o];
    let name = row_name(row, cols);
    let ids = row_ids(row, cols, name, apple);
    let ids2 = row_ids(row2, cols2, row_name(row2, cols2), apple);
    assert(a.key =~= seq![brand, name, text::joined(ids, "|"@)]);
    assert(b.key =~= seq![brand, row_name(row2, cols2), text::joined(ids2, "|"@)]);
    assert(a.key[1] == b.key[1] && a.key[2] == b.key[2]);
    lemma_row_ids_plain(row, cols, name, apple);
    lemma_row_ids_plain(row2, cols2, name, apple);
    reveal_strlit("|");
    assert("|"@ =~= seq!['|']);
    lemma_joined_len(ids, "|"@);
    lemma_joined_len(ids2, "|"@);
    assert(ids.len() == 0 <==> ids2.len() == 0);
    if ids.len() > 0 {
        assert(e.models[0].ids == ids2);
        if text::free_of(ids, '|') && text::free_of(ids2, '|') {
            text::lemma_joined_apart(ids, ids2, '|');
        }
    }
    i
}

proof fn lemma_joined_len(parts: Seq<Seq<char>>, sep: Seq<char>)
    requires
        forall|k: int| 0 <= k < parts.len() ==> (#[trigger] parts[k]).len() > 0,
    ensures
        text::joined(parts, sep).len() == 0 <==> parts.len() == 0,
{
    if parts.len() > 0 {
        assert(parts[parts.len() - 1].len() > 0);
        assert(parts[0].len() > 0);
    }
}

/// Each entry is that of a row of a table below a heading of names or model
/// numbers.
pub proof fn lemma_each_entry_has_a_row(
    all: Seq<Seq<Seq<(bool, Seq<char>)>>>,
    brand: Seq<char>,
    apple: bool,
    i: int,
) -> (at: (int, int, Columns))
    requires
        0 <= i < entry::distinct(all_candidates(all, brand, apple)).len(),
    ensures
        ({
            let out = entry::distinct(all_candidates(all, brand, apple));
            let (t, r, cols) = at;
            &&& 0 <= t < all.len()
            &&& 1 <= r < all[t].len()
            &&& are_columns(all[t][0], cols)
            &&& is_device_row(all[t][r], cols, apple)
            &&& is_entry_of(out[i], all[t][r], cols, brand, apple)
        }),
{
    let total = all_candidates(all, brand, apple);
    entry::lemma_distinct_repeats_nothing(total);
    let o = entry::origins(total)[i];
    let at = lemma_candidate_source(all, brand, apple, o);
    let header = all[at.0][0];
    lemma_row_entry(all[at.0][at.1], columns(header), brand, apple);
    lemma_first_column(header, seq!["model"@]);
    lemma_first_column(header, seq!["model number"@, "model no"@, "version"@]);
    lemma_first_column(header, seq!["codename"@, "code name"@]);
    (at.0, at.1, columns(header))
}

} // verus!
