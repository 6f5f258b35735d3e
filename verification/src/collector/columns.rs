//! Device entries from tables in which each device is a column:
//!
//! ```text
//! Model        | iPhone 17e       | iPhone 17 Pro Max | ...
//! Basic Info   | Hardware Strings | iPhone18,5        | ...   (codenames)
//! Model number | A3575A3634A3635  | A3257...          | ...   (model numbers)
//! ```

use crate::collector::entry;
use crate::collector::entry::{DeviceEntry, Entries};
use crate::collector::tables;
use crate::collector::wiki;
use crate::text;
use vstd::prelude::*;

verus! {

broadcast use vstd::string::group_string_axioms;

/// The trimmed texts of cells.
pub open spec fn cell_texts(cells: Seq<(bool, Seq<char>)>) -> Seq<Seq<char>> {
    Seq::new(cells.len(), |i: int| text::trimmed(cells[i].1))
}

/// A text in lower case that labels a row of model numbers.
pub open spec fn labels_numbers(low: Seq<char>) -> bool {
    text::has(low, "model number"@)
}

/// A text in lower case that labels a row.
pub open spec fn labels_row(low: Seq<char>) -> bool {
    labels_numbers(low) || text::has(low, "hardware strings"@) || low == "hardware"@
}

/// The label of a row of model numbers.
pub open spec fn is_number_label(s: Seq<char>) -> bool {
    labels_numbers(text::lowered(s))
}

/// A label that a row is read by.
pub open spec fn is_label(s: Seq<char>) -> bool {
    labels_row(text::lowered(s))
}

/// The first label of a row from `i` on.
pub open spec fn label_from(row: Seq<(bool, Seq<char>)>, i: int) -> Option<int>
    decreases row.len() - i,
{
    if i < 0 || i >= row.len() {
        None
    } else if is_label(row[i].1) {
        Some(i)
    } else {
        label_from(row, i + 1)
    }
}

/// The values behind the label of a row.
pub open spec fn values_after(row: Seq<(bool, Seq<char>)>, label: int) -> Seq<Seq<char>> {
    cell_texts(row.skip(label + 1))
}

/// The values of the rows of model numbers.
pub open spec fn number_rows(rows: Seq<Seq<(bool, Seq<char>)>>) -> Seq<Seq<Seq<char>>>
    decreases rows.len(),
{
    if rows.len() == 0 {
        Seq::empty()
    } else {
        let before = number_rows(rows.drop_last());
        match label_from(rows.last(), 0) {
            Some(l) if is_number_label(rows.last()[l].1) => before.push(
                values_after(rows.last(), l),
            ),
            _ => before,
        }
    }
}

/// The values of the last row of hardware strings.
pub open spec fn hardware_row(rows: Seq<Seq<(bool, Seq<char>)>>) -> Seq<Seq<char>>
    decreases rows.len(),
{
    if rows.len() == 0 {
        Seq::empty()
    } else {
        match label_from(rows.last(), 0) {
            Some(l) if !is_number_label(rows.last()[l].1) => values_after(rows.last(), l),
            _ => hardware_row(rows.drop_last()),
        }
    }
}

/// The ASCII letters and digits of a text.
pub open spec fn compact(s: Seq<char>) -> Seq<char>
    decreases s.len(),
{
    if s.len() == 0 {
        Seq::empty()
    } else if text::is_alnum(s.last()) {
        compact(s.drop_last()).push(s.last())
    } else {
        compact(s.drop_last())
    }
}

/// The pieces of five characters, cut from the left, that are model numbers.
pub open spec fn fives(s: Seq<char>) -> Seq<Seq<char>>
    decreases s.len(),
{
    if s.len() < 5 {
        Seq::empty()
    } else if wiki::is_a_number(s.take(5), true) {
        seq![s.take(5)] + fives(s.skip(5))
    } else {
        fives(s.skip(5))
    }
}

/// The model numbers in column `i` of the rows.
pub open spec fn column_numbers(rows: Seq<Seq<Seq<char>>>, i: int) -> Seq<Seq<char>>
    decreases rows.len(),
{
    if rows.len() == 0 {
        Seq::empty()
    } else {
        let before = column_numbers(rows.drop_last(), i);
        if 0 <= i < rows.last().len() {
            before + fives(compact(rows.last()[i]))
        } else {
            before
        }
    }
}

/// The candidate of a column. It is recognised by its name, and gives an entry
/// where it has model numbers.
pub open spec fn column_candidate(
    rows: Seq<Seq<(bool, Seq<char>)>>,
    name: Seq<char>,
    i: int,
) -> entry::Candidate {
    let ids = text::sorted_set(column_numbers(number_rows(rows), i));
    let hardware = hardware_row(rows);
    entry::Candidate {
        key: seq![name],
        entry: if ids.len() == 0 {
            None
        } else {
            Some(
                entry::EntryView {
                    brand: "Apple"@,
                    name,
                    series: None,
                    code: None,
                    codename: Some(
                        if i < hardware.len() {
                            hardware[i]
                        } else {
                            Seq::empty()
                        },
                    ),
                    models: entry::one_model(ids, name),
                },
            )
        },
    }
}

/// The candidates of the columns, each with the values of its own column. A
/// column without a name is passed over.
pub open spec fn column_candidates(
    rows: Seq<Seq<(bool, Seq<char>)>>,
    names: Seq<Seq<char>>,
) -> Seq<entry::Candidate>
    decreases names.len(),
{
    if names.len() == 0 {
        Seq::empty()
    } else {
        let before = column_candidates(rows, names.drop_last());
        if names.last().len() > 0 {
            before.push(column_candidate(rows, names.last(), names.len() - 1))
        } else {
            before
        }
    }
}

/// The candidates of a table whose first row starts with `Model`. The names stand
/// behind that.
pub open spec fn table_candidates(table: Seq<Seq<(bool, Seq<char>)>>) -> Seq<entry::Candidate> {
    if table.len() == 0 || table[0].len() < 3 || text::trimmed(table[0][0].1) != "Model"@ {
        Seq::empty()
    } else {
        column_candidates(table.skip(1), cell_texts(table[0].skip(1)))
    }
}

/// The candidates of all tables.
pub open spec fn all_candidates(all: Seq<Seq<Seq<(bool, Seq<char>)>>>) -> Seq<entry::Candidate>
    decreases all.len(),
{
    if all.len() == 0 {
        Seq::empty()
    } else {
        all_candidates(all.drop_last()) + table_candidates(all.last())
    }
}

/// The trimmed texts of the cells from a position on.
fn texts_from(row: &Vec<(bool, String)>, from: usize) -> (r: Vec<String>)
    requires
        from <= row@.len(),
    ensures
        text::strs(r@) == cell_texts(tables::row_view(row@).skip(from as int)),
{
    let ghost view = tables::row_view(row@);
    let ghost all = cell_texts(view.skip(from as int));
    let mut out: Vec<String> = Vec::new();
    assert(text::strs(out@) =~= all.take(0));
    for i in from..row.len()
        invariant
            from <= row@.len(),
            view == tables::row_view(row@),
            all == cell_texts(view.skip(from as int)),
            text::strs(out@) == all.take(i - from),
    {
        let ghost before = text::strs(out@);
        let t = text::trim_str(row[i].1.as_str());
        out.push(t);
        proof {
            assert(text::strs(out@) =~= before.push(t@));
            assert(view.skip(from as int)[i - from].1 == row@[i as int].1@);
            assert(all.take(i + 1 - from) =~= all.take(i - from).push(t@));
        }
    }
    assert(all.take(row@.len() - from) =~= all);
    out
}

/// Whether a text in lower case labels a row of model numbers, and whether it
/// labels a row at all.
pub fn label_kind(low: &str) -> (r: (bool, bool))
    ensures
        r.0 == labels_numbers(low@),
        r.1 == labels_row(low@),
{
    let chars = text::chars_of(low);
    let number = text::contains_str(chars.as_slice(), "model number");
    let any = number || text::contains_str(chars.as_slice(), "hardware strings") || text::is_str(
        chars.as_slice(),
        "hardware",
    );
    (number, any)
}

/// The first label of a row, and whether it is one of model numbers.
fn find_label(row: &Vec<(bool, String)>) -> (r: Option<(usize, bool)>)
    ensures
        match r {
            Some(p) => p.0 < row.len() && label_from(tables::row_view(row@), 0) == Some(p.0 as int)
                && p.1 == is_number_label(tables::row_view(row@)[p.0 as int].1),
            None => label_from(tables::row_view(row@), 0) is None,
        },
{
    let ghost view = tables::row_view(row@);
    for i in 0..row.len()
        invariant
            view == tables::row_view(row@),
            label_from(view, 0) == label_from(view, i as int),
    {
        assert(view[i as int].1 == row@[i as int].1@);
        let (number, any) = label_kind(text::lower(row[i].1.as_str()).as_str());
        if any {
            return Some((i, number));
        }
    }
    None
}

/// The contents of a list of value rows.
pub open spec fn value_rows(v: Seq<Vec<String>>) -> Seq<Seq<Seq<char>>> {
    Seq::new(v.len(), |i: int| text::strs(v[i]@))
}

/// The rows of model numbers and the row of hardware strings of a table.
fn read_labelled(table: &Vec<Vec<(bool, String)>>) -> (r: (Vec<Vec<String>>, Vec<String>))
    requires
        table@.len() > 0,
    ensures
        value_rows(r.0@) == number_rows(tables::table_view(table@).skip(1)),
        text::strs(r.1@) == hardware_row(tables::table_view(table@).skip(1)),
{
    let ghost rows = tables::table_view(table@).skip(1);
    let mut numbers: Vec<Vec<String>> = Vec::new();
    let mut hardware: Vec<String> = Vec::new();
    assert(value_rows(numbers@) =~= number_rows(rows.take(0)));
    assert(text::strs(hardware@) =~= hardware_row(rows.take(0)));
    for j in 1..table.len()
        invariant
            table@.len() > 0,
            rows == tables::table_view(table@).skip(1),
            value_rows(numbers@) == number_rows(rows.take(j - 1)),
            text::strs(hardware@) == hardware_row(rows.take(j - 1)),
    {
        let row = &table[j];
        proof {
            assert(rows.take(j as int).drop_last() =~= rows.take(j - 1));
            assert(rows.take(j as int).last() == tables::row_view(row@));
        }
        if let Some((at, number)) = find_label(row) {
            let values = texts_from(row, at + 1);
            if number {
                let ghost before = value_rows(numbers@);
                let ghost v = text::strs(values@);
                numbers.push(values);
                assert(value_rows(numbers@) =~= before.push(v));
            } else {
                hardware = values;
            }
        }
    }
    assert(rows.take(table@.len() - 1) =~= rows);
    (numbers, hardware)
}

/// The ASCII letters and digits of a text.
fn squeeze(s: &str) -> (r: Vec<char>)
    ensures
        r@ == compact(s@),
{
    let chars = text::chars_of(s);
    let mut out: Vec<char> = Vec::new();
    assert(out@ =~= compact(s@.take(0)));
    for i in 0..chars.len()
        invariant
            chars@ == s@,
            out@ == compact(s@.take(i as int)),
    {
        assert(s@.take(i + 1).drop_last() =~= s@.take(i as int));
        if text::alnum(chars[i]) {
            out.push(chars[i]);
        }
    }
    assert(s@.take(s@.len() as int) =~= s@);
    out
}

proof fn lemma_sorted_set_append(a: Seq<Seq<char>>, x: Seq<char>)
    ensures
        text::sorted_set(a.push(x)) == text::with_element(text::sorted_set(a), x),
{
    assert(a.push(x).drop_last() =~= a);
}

/// Adds the model numbers of a cell to a sorted list.
fn add_fives(out: &mut Vec<Vec<char>>, cell: &str, Ghost(base): Ghost<Seq<Seq<char>>>)
    requires
        text::rows(old(out)@) == text::sorted_set(base),
    ensures
        text::rows(final(out)@) == text::sorted_set(base + fives(compact(cell@))),
{
    let chars = squeeze(cell);
    let ghost all = compact(cell@);
    let ghost mut taken: Seq<Seq<char>> = Seq::empty();
    let mut j: usize = 0;
    assert(all.skip(0) =~= all);
    assert(base + taken =~= base);
    assert(taken + fives(all) =~= fives(all));
    while chars.len() - j >= 5
        invariant
            chars@ == all,
            j <= chars.len(),
            taken + fives(all.skip(j as int)) == fives(all),
            text::rows(out@) == text::sorted_set(base + taken),
        decreases chars.len() - j,
    {
        let piece: &[char] = &chars.as_slice()[j..j + 5];
        let ghost rest = all.skip(j as int);
        proof {
            assert(piece@ =~= rest.take(5));
            assert(rest.skip(5) =~= all.skip(j + 5));
        }
        if wiki::a_number(piece, true) {
            let ghost before = taken;
            proof {
                taken = taken.push(piece@);
                lemma_sorted_set_append(base + before, piece@);
                assert((base + before).push(piece@) =~= base + taken);
                assert(taken + fives(all.skip(j + 5)) =~= before + (seq![piece@] + fives(
                    all.skip(j + 5),
                )));
            }
            text::add_sorted(out, text::to_vec(piece));
        }
        j = j + 5;
    }
    assert(taken + fives(all.skip(j as int)) =~= taken);
}

/// The model numbers of a column, in order, each once.
fn numbers_in_column(numbers: &Vec<Vec<String>>, i: usize) -> (r: Vec<Vec<char>>)
    ensures
        text::rows(r@) == text::sorted_set(column_numbers(value_rows(numbers@), i as int)),
{
    let ghost all = value_rows(numbers@);
    let mut out: Vec<Vec<char>> = Vec::new();
    assert(text::rows(out@) =~= text::sorted_set(column_numbers(all.take(0), i as int)));
    for j in 0..numbers.len()
        invariant
            all == value_rows(numbers@),
            text::rows(out@) == text::sorted_set(column_numbers(all.take(j as int), i as int)),
    {
        proof {
            assert(all.take(j + 1).drop_last() =~= all.take(j as int));
            assert(all.take(j + 1).last() == text::strs(numbers@[j as int]@));
        }
        if i < numbers[j].len() {
            add_fives(
                &mut out,
                numbers[j][i].as_str(),
                Ghost(column_numbers(all.take(j as int), i as int)),
            );
        }
    }
    assert(all.take(numbers@.len() as int) =~= all);
    out
}

/// The key and the entry of a column.
fn read_column(
    numbers: &Vec<Vec<String>>,
    hardware: &Vec<String>,
    name: &String,
    i: usize,
) -> (r: (Vec<String>, Option<DeviceEntry>))
    ensures
        forall|rows: Seq<Seq<(bool, Seq<char>)>>|
            value_rows(numbers@) == #[trigger] number_rows(rows) && text::strs(hardware@)
                == hardware_row(rows) ==> column_candidate(rows, name@, i as int) == (
            entry::Candidate { key: text::strs(r.0@), entry: entry::opt_entry(r.1) }),
{
    let found = numbers_in_column(numbers, i);
    let ids = text::strings_of(&found);
    let entry: Option<DeviceEntry> = if ids.len() == 0 {
        None
    } else {
        let codename = if i < hardware.len() {
            hardware[i].clone()
        } else {
            String::new()
        };
        Some(
            DeviceEntry {
                brand: "Apple".to_owned(),
                name: name.clone(),
                series: None,
                code: None,
                codename: Some(codename),
                models: entry::single_model(ids, name.clone()),
            },
        )
    };
    (entry::one_string(name.clone()), entry)
}

/// Extracts the complete list of iPhones from tables that have the devices in
/// columns.
pub fn extract_apple_columns(tables: &Vec<Vec<Vec<(bool, String)>>>) -> (r: Vec<DeviceEntry>)
    ensures
        entry::entries_view(r@) == entry::distinct(all_candidates(tables::tables_view(tables@))),
{
    let ghost all = tables::tables_view(tables@);
    let mut state = Entries::new();
    assert(all_candidates(all.take(0)) =~= Seq::empty());
    for t in 0..tables.len()
        invariant
            all == tables::tables_view(tables@),
            state.holds(all_candidates(all.take(t as int))),
    {
        let table = &tables[t];
        let ghost view = all[t as int];
        let ghost done = all_candidates(all.take(t as int));
        proof {
            assert(view == tables::table_view(table@));
            assert(all.take(t + 1).drop_last() =~= all.take(t as int));
            assert(all.take(t + 1).last() == view);
            assert(done + Seq::<entry::Candidate>::empty() =~= done);
        }
        if table.len() > 0 {
            assert(view[0] == tables::row_view(table@[0]@));
            if table[0].len() >= 3 {
                assert(view[0][0].1 == table@[0]@[0].1@);
                let corner = text::trim_str(table[0][0].1.as_str());
                if text::same_str(corner.as_str(), "Model") {
                    let names = texts_from(&table[0], 1);
                    let (numbers, hardware) = read_labelled(table);
                    let ghost rows = view.skip(1);
                    let ghost titles = text::strs(names@);
                    assert(done + column_candidates(rows, titles.take(0)) =~= done);
                    for i in 0..names.len()
                        invariant
                            titles == text::strs(names@),
                            value_rows(numbers@) == number_rows(rows),
                            text::strs(hardware@) == hardware_row(rows),
                            state.holds(done + column_candidates(rows, titles.take(i as int))),
                    {
                        let ghost before = column_candidates(rows, titles.take(i as int));
                        proof {
                            assert(titles.take(i + 1).drop_last() =~= titles.take(i as int));
                            assert(titles.take(i + 1).last() == names@[i as int]@);
                        }
                        if !names[i].as_str().is_empty() {
                            let (key, entry) = read_column(&numbers, &hardware, &names[i], i);
                            let ghost cand = entry::Candidate {
                                key: text::strs(key@),
                                entry: entry::opt_entry(entry),
                            };
                            proof {
                                assert(cand == column_candidate(rows, names@[i as int]@, i as int));
                                assert((done + before).push(cand) =~= done + before.push(cand));
                            }
                            state.offer(key, entry);
                        }
                    }
                    assert(titles.take(names@.len() as int) =~= titles);
                }
            }
        }
    }
    assert(all.take(tables@.len() as int) =~= all);
    state.entries
}

// ---------------------------------------------------------------------------
// What becomes of the columns
// ---------------------------------------------------------------------------

/// The text labels a row of model numbers or of hardware strings.
pub open spec fn marks_row(s: Seq<char>) -> bool {
    ||| text::has(text::lowered(s), "model number"@)
    ||| text::has(text::lowered(s), "hardware strings"@)
    ||| text::lowered(s) == "hardware"@
}

/// The first label of a row stands at a position.
pub open spec fn labelled_at(row: Seq<(bool, Seq<char>)>, l: int) -> bool {
    &&& 0 <= l < row.len()
    &&& marks_row(row[l].1)
    &&& forall|k: int| 0 <= k < l ==> !marks_row((#[trigger] row[k]).1)
}

/// The cell of a row for a column, counted from the cell behind the label.
pub open spec fn value_at(row: Seq<(bool, Seq<char>)>, l: int, j: int) -> Seq<char> {
    text::trimmed(row[l + 1 + j].1)
}

/// The character at a position is an ASCII letter or digit.
pub open spec fn alnum_at(s: Seq<char>) -> spec_fn(int) -> bool {
    |i: int| '0' <= s[i] <= '9' || 'A' <= s[i] <= 'Z' || 'a' <= s[i] <= 'z'
}

/// A text is one of the pieces of five into which the letters and digits of a cell
/// are cut, and a model number: an `A` and four digits.
pub open spec fn cell_names(s: Seq<char>, x: Seq<char>) -> bool {
    &&& x.len() == 5
    &&& x[0] == 'A'
    &&& forall|k: int| 1 <= k < 5 ==> '0' <= #[trigger] x[k] <= '9'
    &&& exists|at: Seq<int>, m: int| #[trigger] is_piece(s, x, at, m)
}

/// The text is piece `m` of the letters and digits, which stand at the positions.
pub open spec fn is_piece(s: Seq<char>, x: Seq<char>, at: Seq<int>, m: int) -> bool {
    &&& text::lists(at, s.len() as int, alnum_at(s))
    &&& 0 <= m
    &&& 5 * m + 5 <= at.len()
    &&& x.len() == 5
    &&& forall|k: int| 0 <= k < 5 ==> #[trigger] x[k] == s[at[5 * m + k]]
}

/// One of the rows of model numbers names a text in a column.
pub open spec fn column_names(rows: Seq<Seq<(bool, Seq<char>)>>, j: int, x: Seq<char>) -> bool {
    exists|r: int, l: int|
        0 <= r < rows.len() && #[trigger] labelled_at(rows[r], l) && text::has(
            text::lowered(rows[r][l].1),
            "model number"@,
        ) && l + 1 + j < rows[r].len() && cell_names(value_at(rows[r], l, j), x)
}

/// The row is one of hardware strings.
pub open spec fn is_hardware(row: Seq<(bool, Seq<char>)>, l: int) -> bool {
    labelled_at(row, l) && !text::has(text::lowered(row[l].1), "model number"@)
}

/// The codename in a column: what the last row of hardware strings has there.
pub open spec fn is_codename(rows: Seq<Seq<(bool, Seq<char>)>>, j: int, codename: Seq<char>) -> bool {
    ||| exists|r: int, l: int|
        0 <= r < rows.len() && #[trigger] is_hardware(rows[r], l) && (forall|q: int, m: int|
            r < q < rows.len() ==> !#[trigger] is_hardware(rows[q], m)) && codename == (if l + 1
            + j < rows[r].len() {
            value_at(rows[r], l, j)
        } else {
            Seq::empty()
        })
    ||| codename.len() == 0 && forall|q: int, m: int|
        0 <= q < rows.len() ==> !#[trigger] is_hardware(rows[q], m)
}

proof fn lemma_label_from(row: Seq<(bool, Seq<char>)>, from: int)
    requires
        0 <= from <= row.len(),
        forall|k: int| 0 <= k < from ==> !marks_row((#[trigger] row[k]).1),
    ensures
        label_from(row, from) matches Some(l) ==> labelled_at(row, l),
        label_from(row, from) is None ==> forall|l: int| !#[trigger] labelled_at(row, l),
    decreases row.len() - from,
{
    if from < row.len() {
        assert(is_label(row[from].1) == marks_row(row[from].1));
        if !is_label(row[from].1) {
            lemma_label_from(row, from + 1);
        }
    }
}

proof fn lemma_label(row: Seq<(bool, Seq<char>)>, l: int)
    ensures
        labelled_at(row, l) <==> label_from(row, 0) == Some(l),
{
    lemma_label_from(row, 0);
    if labelled_at(row, l) && label_from(row, 0) is Some {
        let m = label_from(row, 0)->0;
        if m < l {
            assert(!marks_row(row[m].1));
        }
        if l < m {
            assert(!marks_row(row[l].1));
        }
    }
}

proof fn lemma_compact(s: Seq<char>) -> (at: Seq<int>)
    ensures
        text::lists(at, s.len() as int, alnum_at(s)),
        at.len() == compact(s).len(),
        forall|k: int| 0 <= k < at.len() ==> compact(s)[k] == s[#[trigger] at[k]],
    decreases s.len(),
{
    let q = alnum_at(s);
    if s.len() == 0 {
        let none = Seq::<int>::empty();
        assert(text::lists(none, 0, q));
        none
    } else {
        let init = s.drop_last();
        let n = init.len() as int;
        let before = lemma_compact(init);
        let p = alnum_at(init);
        assert forall|i: int| 0 <= i < n implies #[trigger] p(i) == q(i) by {}
        text::lemma_lists_next(before, n, p, q);
        assert(s[n] == s.last());
        assert(q(n) == text::is_alnum(s.last()));
        let at = if q(n) {
            before.push(n)
        } else {
            before
        };
        assert forall|k: int| 0 <= k < at.len() implies compact(s)[k] == s[#[trigger] at[k]] by {
            if k < before.len() {
                assert(at[k] == before[k]);
                assert(init[before[k]] == s[before[k]]);
            }
        }
        at
    }
}

proof fn lemma_lists_unique(a: Seq<int>, b: Seq<int>, n: int, p: spec_fn(int) -> bool)
    requires
        text::lists(a, n, p),
        text::lists(b, n, p),
    ensures
        a == b,
    decreases a.len(),
{
    if a.len() == 0 {
        if b.len() > 0 {
            assert(p(b[0]));
            assert(a.contains(b[0]));
        }
        assert(a =~= b);
    } else {
        assert(p(a[a.len() - 1]));
        assert(b.contains(a[a.len() - 1]));
        let k = choose|k: int| 0 <= k < b.len() && b[k] == a[a.len() - 1];
        assert(p(b[b.len() - 1]));
        assert(a.contains(b[b.len() - 1]));
        let l = choose|l: int| 0 <= l < a.len() && a[l] == b[b.len() - 1];
        let x = a[a.len() - 1];
        let y = b[b.len() - 1];
        assert(x == y) by {
            if k < b.len() - 1 {
                assert(b[k] < b[b.len() - 1]);
            }
            if l < a.len() - 1 {
                assert(a[l] < a[a.len() - 1]);
            }
        }
        let i = a.drop_last();
        let j = b.drop_last();
        lemma_lists_shorter(a, n, p);
        lemma_lists_shorter(b, n, p);
        lemma_lists_unique(i, j, x, p);
        assert(a =~= i.push(x));
        assert(b =~= j.push(y));
    }
}

proof fn lemma_lists_shorter(a: Seq<int>, n: int, p: spec_fn(int) -> bool)
    requires
        a.len() > 0,
        text::lists(a, n, p),
    ensures
        text::lists(a.drop_last(), a.last(), p),
{
    let i = a.drop_last();
    assert forall|k: int| 0 <= k < i.len() implies 0 <= #[trigger] i[k] < a.last() && p(i[k]) by {
        assert(i[k] == a[k]);
        assert(a[k] < a[a.len() - 1]);
    }
    assert forall|k: int, l: int| 0 <= k < l < i.len() implies #[trigger] i[k] < #[trigger] i[l] by {
        assert(i[k] == a[k] && i[l] == a[l]);
    }
    assert(0 <= a[a.len() - 1] < n);
    assert forall|x: int| 0 <= x < a.last() && #[trigger] p(x) implies i.contains(x) by {
        assert(a.contains(x));
        let k = choose|k: int| 0 <= k < a.len() && a[k] == x;
        assert(i[k] == x);
    }
}

proof fn lemma_fives(s: Seq<char>, x: Seq<char>)
    ensures
        fives(s).contains(x) <==> wiki::is_a_number(x, true) && exists|m: int|
            0 <= m && 5 * m + 5 <= s.len() && x == #[trigger] s.subrange(5 * m, 5 * m + 5),
    decreases s.len(),
{
    if s.len() >= 5 {
        let rest = s.skip(5);
        lemma_fives(rest, x);
        let first = s.take(5);
        let all = fives(s);
        if all.contains(x) {
            let k = choose|k: int| 0 <= k < all.len() && all[k] == x;
            if wiki::is_a_number(first, true) && k == 0 {
                let m = 0int;
                assert(first =~= s.subrange(5 * m, 5 * m + 5));
            } else {
                let off = if wiki::is_a_number(first, true) {
                    1int
                } else {
                    0int
                };
                assert(fives(rest)[k - off] == x);
                assert(fives(rest).contains(x));
                let m = choose|m: int|
                    0 <= m && 5 * m + 5 <= rest.len() && x == #[trigger] rest.subrange(
                        5 * m,
                        5 * m + 5,
                    );
                assert(rest.subrange(5 * m, 5 * m + 5) =~= s.subrange(
                    5 * (m + 1),
                    5 * (m + 1) + 5,
                ));
            }
        }
        if wiki::is_a_number(x, true) && exists|m: int|
            0 <= m && 5 * m + 5 <= s.len() && x == #[trigger] s.subrange(5 * m, 5 * m + 5) {
            let m = choose|m: int|
                0 <= m && 5 * m + 5 <= s.len() && x == #[trigger] s.subrange(5 * m, 5 * m + 5);
            if m == 0 {
                assert(first =~= s.subrange(0, 5));
                assert(all[0] == x);
            } else {
                assert(rest.subrange(5 * (m - 1), 5 * (m - 1) + 5) =~= s.subrange(
                    5 * m,
                    5 * m + 5,
                ));
                let k = choose|k: int| 0 <= k < fives(rest).len() && fives(rest)[k] == x;
                if wiki::is_a_number(first, true) {
                    assert(all[k + 1] == x);
                } else {
                    assert(all[k] == x);
                }
            }
        }
    }
}

/// The model numbers of a cell are the pieces of five that look like one.
pub proof fn lemma_cell_numbers(s: Seq<char>, x: Seq<char>)
    ensures
        fives(compact(s)).contains(x) <==> cell_names(s, x),
{
    let c = compact(s);
    lemma_fives(c, x);
    let at = lemma_compact(s);
    if fives(c).contains(x) {
        let m = choose|m: int|
            0 <= m && 5 * m + 5 <= c.len() && x == #[trigger] c.subrange(5 * m, 5 * m + 5);
        assert forall|k: int| 0 <= k < 5 implies #[trigger] x[k] == s[at[5 * m + k]] by {
            assert(x[k] == c[5 * m + k]);
        }
        assert forall|k: int| 1 <= k < 5 implies '0' <= #[trigger] x[k] <= '9' by {
            assert(text::is_digit(x[k]));
        }
        assert(is_piece(s, x, at, m));
    }
    if cell_names(s, x) {
        let (bt, m) = choose|bt: Seq<int>, m: int| #[trigger] is_piece(s, x, bt, m);
        lemma_lists_unique(at, bt, s.len() as int, alnum_at(s));
        assert(x =~= c.subrange(5 * m, 5 * m + 5)) by {
            assert forall|k: int| 0 <= k < 5 implies x[k] == c.subrange(5 * m, 5 * m + 5)[k] by {
                assert(c[5 * m + k] == s[at[5 * m + k]]);
            }
        }
        assert forall|k: int| 1 <= k < x.len() implies text::is_digit(#[trigger] x[k]) by {}
        assert(wiki::is_a_number(x, true));
    }
}

proof fn lemma_column_numbers(rows: Seq<Seq<(bool, Seq<char>)>>, j: int, x: Seq<char>)
    requires
        0 <= j,
    ensures
        column_numbers(number_rows(rows), j).contains(x) <==> column_names(rows, j, x),
    decreases rows.len(),
{
    let vals = number_rows(rows);
    let all = column_numbers(vals, j);
    if rows.len() > 0 {
        let init = rows.drop_last();
        let row = rows.last();
        let n = rows.len() - 1;
        assert(rows[n] == row);
        lemma_column_numbers(init, j, x);
        let before = column_numbers(number_rows(init), j);
        lemma_label_from(row, 0);
        if column_names(init, j, x) {
            let (r, l) = choose|r: int, l: int|
                0 <= r < init.len() && #[trigger] labelled_at(init[r], l) && text::has(
                    text::lowered(init[r][l].1),
                    "model number"@,
                ) && l + 1 + j < init[r].len() && cell_names(value_at(init[r], l, j), x);
            assert(init[r] == rows[r]);
            assert(labelled_at(rows[r], l));
        }
        if column_names(rows, j, x) {
            let (r, l) = choose|r: int, l: int|
                0 <= r < rows.len() && #[trigger] labelled_at(rows[r], l) && text::has(
                    text::lowered(rows[r][l].1),
                    "model number"@,
                ) && l + 1 + j < rows[r].len() && cell_names(value_at(rows[r], l, j), x);
            if r < n {
                assert(init[r] == rows[r]);
                assert(labelled_at(init[r], l));
            } else {
                lemma_label(row, l);
            }
        }
        match label_from(row, 0) {
            Some(l) if is_number_label(row[l].1) => {
                let values = values_after(row, l);
                assert(vals == number_rows(init).push(values));
                assert(vals.drop_last() =~= number_rows(init));
                if j < values.len() {
                    let cell = values[j];
                    assert(cell == value_at(row, l, j));
                    let more = fives(compact(cell));
                    lemma_cell_numbers(cell, x);
                    assert(all == before + more);
                    if before.contains(x) {
                        let k = choose|k: int| 0 <= k < before.len() && before[k] == x;
                        assert(all[k] == x);
                    }
                    if more.contains(x) {
                        let k = choose|k: int| 0 <= k < more.len() && more[k] == x;
                        assert(all[before.len() + k] == x);
                        assert(labelled_at(rows[n], l));
                    }
                    if all.contains(x) {
                        let k = choose|k: int| 0 <= k < all.len() && all[k] == x;
                        if k < before.len() {
                            assert(before[k] == x);
                        } else {
                            assert(more[k - before.len()] == x);
                        }
                    }
                }
                if column_names(rows, j, x) && !column_names(init, j, x) {
                    let (r, m) = choose|r: int, m: int|
                        0 <= r < rows.len() && #[trigger] labelled_at(rows[r], m) && text::has(
                            text::lowered(rows[r][m].1),
                            "model number"@,
                        ) && m + 1 + j < rows[r].len() && cell_names(value_at(rows[r], m, j), x);
                    if r < n {
                        assert(labelled_at(init[r], m));
                    }
                    lemma_label(row, m);
                    assert(m == l);
                }
            },
            _ => {
                assert(vals == number_rows(init));
                if column_names(rows, j, x) && !column_names(init, j, x) {
                    let (r, m) = choose|r: int, m: int|
                        0 <= r < rows.len() && #[trigger] labelled_at(rows[r], m) && text::has(
                            text::lowered(rows[r][m].1),
                            "model number"@,
                        ) && m + 1 + j < rows[r].len() && cell_names(value_at(rows[r], m, j), x);
                    if r < n {
                        assert(labelled_at(init[r], m));
                    }
                    lemma_label(row, m);
                }
            },
        }
    }
}

proof fn lemma_hardware(rows: Seq<Seq<(bool, Seq<char>)>>, j: int)
    requires
        0 <= j,
    ensures
        is_codename(
            rows,
            j,
            if j < hardware_row(rows).len() {
                hardware_row(rows)[j]
            } else {
                Seq::empty()
            },
        ),
    decreases rows.len(),
{
    let hardware = hardware_row(rows);
    let codename = if j < hardware.len() {
        hardware[j]
    } else {
        Seq::empty()
    };
    if rows.len() > 0 {
        let init = rows.drop_last();
        let row = rows.last();
        let n = rows.len() - 1;
        assert(rows[n] == row);
        lemma_label_from(row, 0);
        match label_from(row, 0) {
            Some(l) if !is_number_label(row[l].1) => {
                assert(is_hardware(rows[n], l));
                if l + 1 + j < row.len() {
                    assert(hardware[j] == value_at(row, l, j));
                } else {
                    assert(codename =~= Seq::<char>::empty());
                }
            },
            _ => {
                lemma_hardware(init, j);
                assert forall|m: int| !#[trigger] is_hardware(rows[n], m) by {
                    lemma_label(row, m);
                }
                if exists|r: int, l: int|
                    0 <= r < init.len() && #[trigger] is_hardware(init[r], l) && (forall|
                        q: int,
                        m: int,
                    |
                        r < q < init.len() ==> !#[trigger] is_hardware(init[q], m)) && codename == (
                    if l + 1 + j < init[r].len() {
                        value_at(init[r], l, j)
                    } else {
                        Seq::empty()
                    }) {
                    let (r, l) = choose|r: int, l: int|
                        0 <= r < init.len() && #[trigger] is_hardware(init[r], l) && (forall|
                            q: int,
                            m: int,
                        |
                            r < q < init.len() ==> !#[trigger] is_hardware(init[q], m))
                            && codename == (if l + 1 + j < init[r].len() {
                            value_at(init[r], l, j)
                        } else {
                            Seq::empty()
                        });
                    assert(init[r] == rows[r]);
                    assert(is_hardware(rows[r], l));
                    assert forall|q: int, m: int| r < q < rows.len() implies !#[trigger] is_hardware(
                        rows[q],
                        m,
                    ) by {
                        if q < n {
                            assert(init[q] == rows[q]);
                            assert(!is_hardware(init[q], m));
                        }
                    }
                } else {
                    assert forall|q: int, m: int|
                        0 <= q < rows.len() implies !#[trigger] is_hardware(rows[q], m) by {
                        if q < n {
                            assert(init[q] == rows[q]);
                            assert(!is_hardware(init[q], m));
                        }
                    }
                }
            },
        }
    }
}

/// The entry is that of column `j` below a name.
pub open spec fn is_entry_of(
    e: entry::EntryView,
    rows: Seq<Seq<(bool, Seq<char>)>>,
    name: Seq<char>,
    j: int,
) -> bool {
    &&& e.brand == "Apple"@
    &&& e.name == name
    &&& e.series is None
    &&& e.code is None
    &&& e.codename is Some && is_codename(rows, j, e.codename->0)
    &&& e.models.len() == 1
    &&& e.models[0].market_name == name
    &&& text::increasing(e.models[0].ids)
    &&& forall|x: Seq<char>| #[trigger]
        e.models[0].ids.contains(x) <==> column_names(rows, j, x)
}

/// A column gives an entry exactly where it has a model number, and the entry has
/// the model numbers and the codename of that column.
pub proof fn lemma_column_entry(rows: Seq<Seq<(bool, Seq<char>)>>, name: Seq<char>, j: int)
    requires
        0 <= j,
    ensures
        column_candidate(rows, name, j).key == seq![name],
        column_candidate(rows, name, j).entry is Some <==> exists|x: Seq<char>| #[trigger]
            column_names(rows, j, x),
        column_candidate(rows, name, j).entry matches Some(e) ==> is_entry_of(e, rows, name, j),
{
    let found = column_numbers(number_rows(rows), j);
    let ids = text::sorted_set(found);
    text::lemma_sorted_set(found);
    assert forall|x: Seq<char>| #[trigger] ids.contains(x) <==> column_names(rows, j, x) by {
        lemma_column_numbers(rows, j, x);
        assert(text::sorted_set(found).contains(x) <==> found.contains(x));
    }
    if ids.len() > 0 {
        assert(ids.contains(ids[0]));
    }
    if exists|x: Seq<char>| #[trigger] column_names(rows, j, x) {
        let x = choose|x: Seq<char>| #[trigger] column_names(rows, j, x);
        assert(ids.contains(x));
    }
    lemma_hardware(rows, j);
}

/// Column `j` of a table whose first row starts with `Model` has a name.
pub open spec fn names_column(table: Seq<Seq<(bool, Seq<char>)>>, j: int, name: Seq<char>) -> bool {
    &&& table.len() > 0
    &&& table[0].len() >= 3
    &&& text::trimmed(table[0][0].1) == "Model"@
    &&& 0 <= j < table[0].len() - 1
    &&& name == text::trimmed(table[0][j + 1].1)
    &&& name.len() > 0
}

proof fn lemma_columns_in_order(
    rows: Seq<Seq<(bool, Seq<char>)>>,
    names: Seq<Seq<char>>,
) -> (at: Seq<int>)
    ensures
        text::lists(at, names.len() as int, |j: int| names[j].len() > 0),
        at.len() == column_candidates(rows, names).len(),
        forall|k: int|
            0 <= k < at.len() ==> column_candidates(rows, names)[k] == column_candidate(
                rows,
                names[#[trigger] at[k]],
                at[k],
            ),
    decreases names.len(),
{
    let q = |j: int| names[j].len() > 0;
    if names.len() == 0 {
        let none = Seq::<int>::empty();
        assert(text::lists(none, 0, q));
        none
    } else {
        let init = names.drop_last();
        let n = init.len() as int;
        let p = |j: int| init[j].len() > 0;
        let before = lemma_columns_in_order(rows, init);
        assert forall|i: int| 0 <= i < n implies #[trigger] p(i) == q(i) by {}
        text::lemma_lists_next(before, n, p, q);
        assert(names[n] == names.last());
        let at = if q(n) {
            before.push(n)
        } else {
            before
        };
        assert forall|k: int| 0 <= k < at.len() implies column_candidates(rows, names)[k]
            == column_candidate(rows, names[#[trigger] at[k]], at[k]) by {
            if k < before.len() {
                assert(at[k] == before[k]);
                assert(init[before[k]] == names[before[k]]);
            }
        }
        at
    }
}

/// Candidate `n` is that of a column.
spec fn comes_from(
    c: entry::Candidate,
    all: Seq<Seq<Seq<(bool, Seq<char>)>>>,
    t: int,
    j: int,
) -> bool {
    &&& 0 <= t < all.len()
    &&& names_column(all[t], j, text::trimmed(all[t][0][j + 1].1))
    &&& c == column_candidate(all[t].skip(1), text::trimmed(all[t][0][j + 1].1), j)
}

proof fn lemma_column_source(all: Seq<Seq<Seq<(bool, Seq<char>)>>>, n: int) -> (at: (int, int))
    requires
        0 <= n < all_candidates(all).len(),
    ensures
        comes_from(all_candidates(all)[n], all, at.0, at.1),
    decreases all.len(),
{
    let init = all.drop_last();
    let before = all_candidates(init);
    if n < before.len() {
        let at = lemma_column_source(init, n);
        assert(init[at.0] == all[at.0]);
        at
    } else {
        let table = all.last();
        let names = cell_texts(table[0].skip(1));
        let rows = table.skip(1);
        let at = lemma_columns_in_order(rows, names);
        let q = |j: int| names[j].len() > 0;
        let k = n - before.len();
        assert(q(at[k]));
        assert(column_candidates(rows, names)[k] == column_candidate(rows, names[at[k]], at[k]));
        assert(names[at[k]] == text::trimmed(table[0][at[k] + 1].1));
        assert(all_candidates(all)[n] == table_candidates(table)[k]);
        (all.len() - 1, at[k])
    }
}

/// The candidate is that of a column before another.
spec fn comes_before(
    c: entry::Candidate,
    all: Seq<Seq<Seq<(bool, Seq<char>)>>>,
    t: int,
    j: int,
) -> bool {
    exists|u: int, i: int| (u < t || (u == t && i < j)) && #[trigger] comes_from(c, all, u, i)
}

/// The candidate of a column, and where the candidates before it come from: from
/// columns before it.
proof fn lemma_column_position(
    all: Seq<Seq<Seq<(bool, Seq<char>)>>>,
    t: int,
    j: int,
    name: Seq<char>,
) -> (n: int)
    requires
        0 <= t < all.len(),
        names_column(all[t], j, name),
    ensures
        0 <= n < all_candidates(all).len(),
        all_candidates(all)[n] == column_candidate(all[t].skip(1), name, j),
        forall|m: int| 0 <= m < n ==> comes_before(#[trigger] all_candidates(all)[m], all, t, j),
    decreases all.len(),
{
    let init = all.drop_last();
    let before = all_candidates(init);
    let total = all_candidates(all);
    if t < init.len() {
        assert(init[t] == all[t]);
        let n = lemma_column_position(init, t, j, name);
        assert(total[n] == before[n]);
        assert forall|m: int| 0 <= m < n implies comes_before(#[trigger] total[m], all, t, j) by {
            assert(total[m] == before[m]);
            let (u, i) = choose|u: int, i: int|
                (u < t || (u == t && i < j)) && #[trigger] comes_from(before[m], init, u, i);
            assert(init[u] == all[u]);
            assert(comes_from(total[m], all, u, i));
        }
        n
    } else {
        let table = all.last();
        let names = cell_texts(table[0].skip(1));
        let rows = table.skip(1);
        let at = lemma_columns_in_order(rows, names);
        let q = |j: int| names[j].len() > 0;
        assert(names[j] == name);
        assert(q(j));
        let k = choose|k: int| 0 <= k < at.len() && at[k] == j;
        let n = before.len() + k;
        assert(column_candidates(rows, names)[k] == column_candidate(rows, names[at[k]], at[k]));
        assert(total[n] == table_candidates(table)[k]);
        assert forall|m: int| 0 <= m < n implies comes_before(#[trigger] total[m], all, t, j) by {
            if m < before.len() {
                assert(total[m] == before[m]);
                let at = lemma_column_source(init, m);
                assert(init[at.0] == all[at.0]);
                assert(comes_from(total[m], all, at.0, at.1));
            } else {
                let x = m - before.len();
                assert(at[x] < at[k]);
                assert(q(at[x]));
                assert(total[m] == table_candidates(table)[x]);
                assert(column_candidates(rows, names)[x] == column_candidate(
                    rows,
                    names[at[x]],
                    at[x],
                ));
                assert(names[at[x]] == text::trimmed(table[0][at[x] + 1].1));
                assert(comes_from(total[m], all, t, at[x]));
            }
        }
        n
    }
}

/// No device is lost: a column with a name that no column before it has, and with a
/// model number, has an entry of its own, with the values of that column.
pub proof fn lemma_each_column_has_an_entry(
    all: Seq<Seq<Seq<(bool, Seq<char>)>>>,
    t: int,
    j: int,
    name: Seq<char>,
    x: Seq<char>,
) -> (i: int)
    requires
        0 <= t < all.len(),
        names_column(all[t], j, name),
        column_names(all[t].skip(1), j, x),
        forall|u: int, k: int|
            0 <= u < all.len() && (u < t || (u == t && k < j)) ==> !#[trigger] names_column(
                all[u],
                k,
                name,
            ),
    ensures
        0 <= i < entry::distinct(all_candidates(all)).len(),
        is_entry_of(entry::distinct(all_candidates(all))[i], all[t].skip(1), name, j),
{
    let total = all_candidates(all);
    let n = lemma_column_position(all, t, j, name);
    lemma_column_entry(all[t].skip(1), name, j);
    if entry::met(total.take(n), total[n].key) {
        let m = choose|m: int|
            0 <= m < total.take(n).len() && (#[trigger] total.take(n)[m]).key == total[n].key;
        assert(total.take(n)[m] == total[m]);
        let (u, k) = choose|u: int, k: int|
            (u < t || (u == t && k < j)) && #[trigger] comes_from(total[m], all, u, k);
        let other = text::trimmed(all[u][0][k + 1].1);
        lemma_column_entry(all[u].skip(1), other, k);
        assert(seq![other][0] == seq![name][0]);
        assert(names_column(all[u], k, name));
    }
    entry::lemma_distinct_leaves_nothing_out(total, n);
    entry::lemma_distinct_repeats_nothing(total);
    let i = choose|i: int| 0 <= i < entry::origins(total).len() && #[trigger] entry::origins(total)[i]
        == n;
    i
}

/// Each entry is that of a column, and no two entries have the same name.
pub proof fn lemma_each_entry_has_a_column(all: Seq<Seq<Seq<(bool, Seq<char>)>>>, i: int) -> (at: (
    int,
    int,
))
    requires
        0 <= i < entry::distinct(all_candidates(all)).len(),
    ensures
        ({
            let out = entry::distinct(all_candidates(all));
            &&& 0 <= at.0 < all.len()
            &&& names_column(all[at.0], at.1, out[i].name)
            &&& is_entry_of(out[i], all[at.0].skip(1), out[i].name, at.1)
            &&& forall|k: int| 0 <= k < out.len() && k != i ==> (#[trigger] out[k]).name
                != out[i].name
        }),
{
    let total = all_candidates(all);
    let out = entry::distinct(total);
    entry::lemma_distinct_repeats_nothing(total);
    let from = entry::origins(total);
    let at = lemma_column_source(all, from[i]);
    let name = text::trimmed(all[at.0][0][at.1 + 1].1);
    lemma_column_entry(all[at.0].skip(1), name, at.1);
    assert(total[from[i]].entry == Some(out[i]));
    assert forall|k: int| 0 <= k < out.len() && k != i implies (#[trigger] out[k]).name
        != out[i].name by {
        assert(total[from[k]].entry == Some(out[k]));
        let bt = lemma_column_source(all, from[k]);
        let other = text::trimmed(all[bt.0][0][bt.1 + 1].1);
        lemma_column_entry(all[bt.0].skip(1), other, bt.1);
        if i < k {
            assert(from[i] < from[k]);
        } else {
            assert(from[k] < from[i]);
        }
    }
    at
}

} // verus!
