//! The data tables of a wiki page.
//!
//! A table is a list of rows and a row a list of cells. A cell is its text with
//! a flag that tells header cells (`<th>`) from data cells (`<td>`).

use crate::collector::html;
use crate::text;
use vstd::prelude::*;

verus! {

broadcast use vstd::string::group_string_axioms;

/// The contents of a row.
pub open spec fn row_view(row: Seq<(bool, String)>) -> Seq<(bool, Seq<char>)> {
    Seq::new(row.len(), |i: int| (row[i].0, row[i].1@))
}

/// The contents of a table.
pub open spec fn table_view(table: Seq<Vec<(bool, String)>>) -> Seq<Seq<(bool, Seq<char>)>> {
    Seq::new(table.len(), |i: int| row_view(table[i]@))
}

/// The contents of a list of tables.
pub open spec fn tables_view(tables: Seq<Vec<Vec<(bool, String)>>>) -> Seq<
    Seq<Seq<(bool, Seq<char>)>>,
> {
    Seq::new(tables.len(), |i: int| table_view(tables[i]@))
}

/// The smaller of two positions, where there is one.
pub open spec fn earliest(a: Option<int>, b: Option<int>) -> Option<int> {
    match (a, b) {
        (Some(x), Some(y)) => Some(
            if x <= y {
                x
            } else {
                y
            },
        ),
        (Some(x), None) => Some(x),
        (None, _) => b,
    }
}

/// `more` with `done` in front, where `more` is there.
pub open spec fn prepended<T>(done: Seq<T>, more: Option<Seq<T>>) -> Option<Seq<T>> {
    match more {
        Some(m) => Some(done + m),
        None => None,
    }
}

/// The text of a cell: tags removed, references resolved, white space trimmed.
pub open spec fn cell_text(s: Seq<char>) -> Seq<char> {
    text::trimmed(html::decoded(html::untagged(s)))
}

/// The cells of a row. A cell opens at the first `<td` or `<th`, its tag ends at
/// the next `>`, and it closes at the first `</td>` or `</th>` after that. None
/// where a cell does not close.
pub open spec fn row_cells(row: Seq<char>) -> Option<Seq<(bool, Seq<char>)>>
    decreases row.len(),
{
    match earliest(text::index_of(row, "<td"@), text::index_of(row, "<th"@)) {
        None => Some(Seq::empty()),
        Some(start) => {
            let cell = row.skip(start);
            let tag_len = match text::index_of(cell, ">"@) {
                Some(p) => p + 1,
                None => cell.len() as int,
            };
            let header = text::begins(cell.take(tag_len), "<th"@);
            let body = cell.skip(tag_len);
            match earliest(text::index_of(body, "</td>"@), text::index_of(body, "</th>"@)) {
                None => None,
                Some(end) => {
                    proof {
                        lemma_cell_bounds(row);
                    }
                    prepended(
                        seq![(header, cell_text(body.take(end)))],
                        row_cells(body.skip(end + 5)),
                    )
                },
            }
        },
    }
}

/// The rows of a table that have cells; none where a cell does not close.
pub open spec fn table_rows(table: Seq<char>) -> Option<Seq<Seq<(bool, Seq<char>)>>>
    decreases table.len(),
{
    match text::index_of(table, "<tr"@) {
        None => Some(Seq::empty()),
        Some(start) => match text::index_of(table.skip(start), "</tr>"@) {
            None => Some(Seq::empty()),
            Some(len) => {
                proof {
                    lemma_found(table, "<tr");
                    lemma_found(table.skip(start), "</tr>");
                    reveal_strlit("</tr>");
                }
                let more = table_rows(table.skip(start + len + 5));
                match row_cells(table.subrange(start, start + len)) {
                    None => None,
                    Some(cells) => if cells.len() == 0 {
                        more
                    } else {
                        prepended(seq![cells], more)
                    },
                }
            },
        },
    }
}

/// The tables of a page that are marked `wikitable`, read up to the first one
/// that does not close. None where a cell of such a table does not close.
pub open spec fn wiki_tables(page: Seq<char>) -> Option<Seq<Seq<Seq<(bool, Seq<char>)>>>>
    decreases page.len(),
{
    match text::index_of(page, "<table"@) {
        None => Some(Seq::empty()),
        Some(start) => match text::index_of(page.skip(start), "</table>"@) {
            None => Some(Seq::empty()),
            Some(len) => {
                proof {
                    lemma_found(page, "<table");
                    lemma_found(page.skip(start), "</table>");
                    reveal_strlit("</table>");
                }
                let table = page.subrange(start, start + len);
                let more = wiki_tables(page.skip(start + len + 8));
                if !text::has(table, "wikitable"@) {
                    more
                } else {
                    match table_rows(table) {
                        None => None,
                        Some(rows) => prepended(seq![rows], more),
                    }
                }
            },
        },
    }
}

/// An occurrence lies within the text.
pub proof fn lemma_found(s: Seq<char>, pat: &str)
    ensures
        text::index_of(s, pat@) matches Some(i) ==> 0 <= i && i + pat@.len() <= s.len(),
{
    text::lemma_index_from(s, pat@, 0);
}

/// The parts of the first cell of a row lie within the row.
pub proof fn lemma_cell_bounds(row: Seq<char>)
    ensures
        earliest(text::index_of(row, "<td"@), text::index_of(row, "<th"@)) matches Some(start) ==> {
            let cell = row.skip(start);
            let tag_len = match text::index_of(cell, ">"@) {
                Some(p) => p + 1,
                None => cell.len() as int,
            };
            let body = cell.skip(tag_len);
            &&& 0 <= start <= row.len()
            &&& 0 <= tag_len <= cell.len()
            &&& earliest(text::index_of(body, "</td>"@), text::index_of(body, "</th>"@)) matches Some(
                end,
            ) ==> 0 <= end && end + 5 <= body.len()
        },
{
    reveal_strlit("<td");
    reveal_strlit("<th");
    reveal_strlit(">");
    reveal_strlit("</td>");
    reveal_strlit("</th>");
    lemma_found(row, "<td");
    lemma_found(row, "<th");
    match earliest(text::index_of(row, "<td"@), text::index_of(row, "<th"@)) {
        Some(start) => {
            let cell = row.skip(start);
            lemma_found(cell, ">");
            let tag_len = match text::index_of(cell, ">"@) {
                Some(p) => p + 1,
                None => cell.len() as int,
            };
            let body = cell.skip(tag_len);
            lemma_found(body, "</td>");
            lemma_found(body, "</th>");
        },
        None => {},
    }
}

/// The smaller of two positions.
fn first_of(a: Option<usize>, b: Option<usize>) -> (r: Option<usize>)
    ensures
        text::as_int(r) == earliest(text::as_int(a), text::as_int(b)),
{
    match (a, b) {
        (Some(x), Some(y)) => Some(
            if x <= y {
                x
            } else {
                y
            },
        ),
        (Some(x), None) => Some(x),
        (None, _) => b,
    }
}

/// Reads the cells of a row.
fn read_cells(row: &[char]) -> (r: Option<Vec<(bool, String)>>)
    ensures
        match r {
            Some(v) => row_cells(row@) == Some(row_view(v@)),
            None => row_cells(row@) is None,
        },
{
    let mut out: Vec<(bool, String)> = Vec::new();
    let mut rest: &[char] = row;
    assert(row_view(out@) =~= Seq::<(bool, Seq<char>)>::empty());
    proof {
        if row_cells(row@) is Some {
            assert(row_view(out@) + row_cells(row@)->0 =~= row_cells(row@)->0);
        }
    }
    loop
        invariant
            row_cells(row@) == prepended(row_view(out@), row_cells(rest@)),
        decreases rest.len(),
    {
        let ghost r0 = rest@;
        let ghost before = out@;
        proof {
            lemma_cell_bounds(r0);
            reveal_strlit("</td>");
            reveal_strlit("</th>");
        }
        let start = match first_of(text::find_str(rest, "<td"), text::find_str(rest, "<th")) {
            Some(s) => s,
            None => {
                assert(row_view(out@) + Seq::<(bool, Seq<char>)>::empty() =~= row_view(out@));
                return Some(out);
            },
        };
        let cell: &[char] = &rest[start..rest.len()];
        assert(cell@ =~= r0.skip(start as int));
        let tag_len: usize = match text::find_str(cell, ">") {
            Some(p) => p + 1,
            None => cell.len(),
        };
        let tag: &[char] = &cell[0..tag_len];
        assert(tag@ =~= cell@.take(tag_len as int));
        let header = text::starts_with_str(tag, "<th");
        let body: &[char] = &cell[tag_len..cell.len()];
        assert(body@ =~= cell@.skip(tag_len as int));
        let end = match first_of(text::find_str(body, "</td>"), text::find_str(body, "</th>")) {
            Some(e) => e,
            None => {
                return None;
            },
        };
        let inner: &[char] = &body[0..end];
        assert(inner@ =~= body@.take(end as int));
        let plain = html::strip(inner);
        let decoded = html::decode(plain.as_slice());
        let cell_str = text::string_of(text::trim(decoded.as_slice()));
        out.push((header, cell_str));
        rest = &body[end + 5..body.len()];
        proof {
            assert(rest@ =~= body@.skip(end + 5));
            assert(row_view(out@) =~= row_view(before) + seq![(header, cell_str@)]);
            if row_cells(rest@) is Some {
                assert(row_view(out@) + row_cells(rest@)->0 =~= row_view(before) + (seq![
                    (header, cell_str@),
                ] + row_cells(rest@)->0));
            }
        }
    }
}

/// Reads the rows of a table.
fn read_rows(table: &[char]) -> (r: Option<Vec<Vec<(bool, String)>>>)
    ensures
        match r {
            Some(v) => table_rows(table@) == Some(table_view(v@)),
            None => table_rows(table@) is None,
        },
{
    let mut out: Vec<Vec<(bool, String)>> = Vec::new();
    let mut rest: &[char] = table;
    assert(table_view(out@) =~= Seq::<Seq<(bool, Seq<char>)>>::empty());
    proof {
        if table_rows(table@) is Some {
            assert(table_view(out@) + table_rows(table@)->0 =~= table_rows(table@)->0);
        }
    }
    loop
        invariant
            table_rows(table@) == prepended(table_view(out@), table_rows(rest@)),
        decreases rest.len(),
    {
        let ghost r0 = rest@;
        let ghost before = out@;
        proof {
            reveal_strlit("</tr>");
            assert(table_view(out@) + Seq::<Seq<(bool, Seq<char>)>>::empty() =~= table_view(out@));
        }
        let start = match text::find_str(rest, "<tr") {
            Some(s) => s,
            None => {
                return Some(out);
            },
        };
        let tail: &[char] = &rest[start..rest.len()];
        assert(tail@ =~= r0.skip(start as int));
        let len = match text::find_str(tail, "</tr>") {
            Some(e) => e,
            None => {
                return Some(out);
            },
        };
        let row: &[char] = &tail[0..len];
        assert(row@ =~= r0.subrange(start as int, start + len));
        rest = &tail[len + 5..tail.len()];
        assert(rest@ =~= r0.skip(start + len + 5));
        match read_cells(row) {
            None => {
                return None;
            },
            Some(cells) => {
                if cells.len() > 0 {
                    let ghost c = row_view(cells@);
                    out.push(cells);
                    proof {
                        assert(table_view(out@) =~= table_view(before) + seq![c]);
                        if table_rows(rest@) is Some {
                            assert(table_view(out@) + table_rows(rest@)->0 =~= table_view(before)
                                + (seq![c] + table_rows(rest@)->0));
                        }
                    }
                } else {
                    assert(row_view(cells@).len() == 0);
                }
            },
        }
    }
}

/// Reads the `wikitable`s of a page; none where one of their cells does not
/// close.
pub fn try_parse_wiki_tables(page: &str) -> (r: Option<Vec<Vec<Vec<(bool, String)>>>>)
    ensures
        match r {
            Some(v) => wiki_tables(page@) == Some(tables_view(v@)),
            None => wiki_tables(page@) is None,
        },
{
    let chars = text::chars_of(page);
    let mut out: Vec<Vec<Vec<(bool, String)>>> = Vec::new();
    let mut rest: &[char] = chars.as_slice();
    assert(tables_view(out@) =~= Seq::<Seq<Seq<(bool, Seq<char>)>>>::empty());
    proof {
        if wiki_tables(page@) is Some {
            assert(tables_view(out@) + wiki_tables(page@)->0 =~= wiki_tables(page@)->0);
        }
    }
    loop
        invariant
            wiki_tables(page@) == prepended(tables_view(out@), wiki_tables(rest@)),
        decreases rest.len(),
    {
        let ghost r0 = rest@;
        let ghost before = out@;
        proof {
            reveal_strlit("</table>");
            assert(tables_view(out@) + Seq::<Seq<Seq<(bool, Seq<char>)>>>::empty() =~= tables_view(
                out@,
            ));
        }
        let start = match text::find_str(rest, "<table") {
            Some(s) => s,
            None => {
                return Some(out);
            },
        };
        let tail: &[char] = &rest[start..rest.len()];
        assert(tail@ =~= r0.skip(start as int));
        let len = match text::find_str(tail, "</table>") {
            Some(e) => e,
            None => {
                return Some(out);
            },
        };
        let table: &[char] = &tail[0..len];
        assert(table@ =~= r0.subrange(start as int, start + len));
        rest = &tail[len + 8..tail.len()];
        assert(rest@ =~= r0.skip(start + len + 8));
        if text::contains_str(table, "wikitable") {
            match read_rows(table) {
                None => {
                    return None;
                },
                Some(rows) => {
                    let ghost t = table_view(rows@);
                    out.push(rows);
                    proof {
                        assert(tables_view(out@) =~= tables_view(before) + seq![t]);
                        if wiki_tables(rest@) is Some {
                            assert(tables_view(out@) + wiki_tables(rest@)->0 =~= tables_view(before)
                                + (seq![t] + wiki_tables(rest@)->0));
                        }
                    }
                },
            }
        }
    }
}

/// Parses the data tables of a wiki page. Every cell of a data table has to
/// close: `try_parse_wiki_tables` tells whether that is so.
pub fn parse_wiki_tables(html: &str) -> (r: Vec<Vec<Vec<(bool, String)>>>)
    requires
        wiki_tables(html@) is Some,
    ensures
        wiki_tables(html@) == Some(tables_view(r@)),
{
    match try_parse_wiki_tables(html) {
        Some(tables) => tables,
        None => Vec::new(),
    }
}

/// The tables of two pages, where both can be read.
pub open spec fn both<T>(a: Option<Seq<T>>, b: Option<Seq<T>>) -> Option<Seq<T>> {
    match (a, b) {
        (Some(x), Some(y)) => Some(x + y),
        _ => None,
    }
}

/// Tables are independent and come out in the order of the page: a page that ends
/// with a table, followed by another, has the tables of the first and then those
/// of the second.
pub proof fn lemma_tables_of_two_pages(a: Seq<char>, b: Seq<char>)
    requires
        text::ends(a, "</table>"@),
    ensures
        wiki_tables(a + b) == both(wiki_tables(a), wiki_tables(b)),
    decreases a.len(),
{
    reveal_strlit("<table");
    reveal_strlit("</table>");
    let open = "<table"@;
    let close = "</table>"@;
    let n = a.len() as int;
    assert(a.subrange(n - 8, n)[7] == a.last());
    match text::index_of(a, open) {
        None => {
            text::lemma_index_beyond(a, b, open);
            lemma_shifted(a, b);
            lemma_both_empty(wiki_tables(b));
        },
        Some(start) => {
            text::lemma_index_before(a, b, open);
            text::lemma_index_from(a, open, 0);
            assert(a.subrange(start, start + 6)[1] == a[start + 1]);
            if start >= n - 8 {
                assert(a.subrange(n - 8, n)[start - (n - 8)] == a[start]);
                assert(a.subrange(start, start + 6)[0] == a[start]);
                assert(a.subrange(n - 8, n)[1] == a[n - 7]);
            }
            assert(start < n - 8);
            let rest = a.skip(start);
            assert((a + b).skip(start) =~= rest + b);
            assert(rest.subrange(rest.len() - 8, rest.len() as int) =~= a.subrange(n - 8, n));
            assert(text::occurs_at(rest, close, rest.len() - 8));
            text::lemma_index_from(rest, close, 0);
            text::lemma_index_before(rest, b, close);
            let len = text::index_of(rest, close)->0;
            let end = start + len + 8;
            let more = a.skip(end);
            assert((a + b).skip(end) =~= more + b);
            assert((a + b).subrange(start, start + len) =~= a.subrange(start, start + len));
            if more.len() == 0 {
                assert(more + b =~= b);
                assert(more =~= Seq::<char>::empty());
                lemma_both_empty(wiki_tables(b));
            } else {
                if len + 8 > rest.len() - 8 && len != rest.len() - 8 {
                    let at = rest.len() - 8 - len;
                    assert(rest.subrange(len, len + 8)[at] == rest[rest.len() - 8]);
                    assert(rest.subrange(rest.len() - 8, rest.len() as int)[0] == rest[rest.len()
                        - 8]);
                }
                assert(more.subrange(more.len() - 8, more.len() as int) =~= a.subrange(n - 8, n));
                lemma_tables_of_two_pages(more, b);
            }
            let table = a.subrange(start, start + len);
            match (table_rows(table), wiki_tables(more), wiki_tables(b)) {
                (Some(rows), Some(x), Some(y)) => {
                    assert(seq![rows] + (x + y) =~= (seq![rows] + x) + y);
                },
                _ => {},
            }
        },
    }
}

/// A page without tables leaves the tables of the page behind it as they are.
proof fn lemma_shifted(a: Seq<char>, b: Seq<char>)
    requires
        text::index_of(a + b, "<table"@) == match text::index_of(b, "<table"@) {
            Some(i) => Some(a.len() + i),
            None => None,
        },
    ensures
        wiki_tables(a + b) == wiki_tables(b),
{
    let n = a.len() as int;
    match text::index_of(b, "<table"@) {
        None => {},
        Some(i) => {
            lemma_found(b, "<table");
            assert((a + b).skip(n + i) =~= b.skip(i));
            match text::index_of(b.skip(i), "</table>"@) {
                None => {},
                Some(len) => {
                    lemma_found(b.skip(i), "</table>");
                    reveal_strlit("</table>");
                    assert((a + b).subrange(n + i, n + i + len) =~= b.subrange(i, i + len));
                    assert((a + b).skip(n + i + len + 8) =~= b.skip(i + len + 8));
                },
            }
        },
    }
}

proof fn lemma_both_empty<T>(b: Option<Seq<T>>)
    ensures
        both(Some(Seq::<T>::empty()), b) == b,
{
    match b {
        Some(y) => {
            assert(Seq::<T>::empty() + y =~= y);
        },
        None => {},
    }
}

// ---------------------------------------------------------------------------
// Tables as they are written
// ---------------------------------------------------------------------------

proof fn lemma_table_marks()
    ensures
        "<td"@ =~= seq!['<', 't', 'd'],
        "<th"@ =~= seq!['<', 't', 'h'],
        "<tr"@ =~= seq!['<', 't', 'r'],
        ">"@ =~= seq!['>'],
        "</td>"@ =~= seq!['<', '/', 't', 'd', '>'],
        "</th>"@ =~= seq!['<', '/', 't', 'h', '>'],
        "</tr>"@ =~= seq!['<', '/', 't', 'r', '>'],
        "<table"@ =~= seq!['<', 't', 'a', 'b', 'l', 'e'],
        "</table>"@ =~= seq!['<', '/', 't', 'a', 'b', 'l', 'e', '>'],
{
    reveal_strlit("<td");
    reveal_strlit("<th");
    reveal_strlit("<tr");
    reveal_strlit(">");
    reveal_strlit("</td>");
    reveal_strlit("</th>");
    reveal_strlit("</tr>");
    reveal_strlit("<table");
    reveal_strlit("</table>");
}

/// Of two marks of the same length, the one that is written is the earliest.
proof fn lemma_earliest(a: Seq<char>, p: Seq<char>, q: Seq<char>, b: Seq<char>)
    requires
        p.len() == q.len() > 0,
        p != q,
        p[0] == q[0],
        !text::has(a, p),
        !text::has(a, q),
        forall|j: int| 1 <= j < p.len() ==> #[trigger] p[j] != p[0],
        forall|j: int| 1 <= j < q.len() ==> #[trigger] q[j] != q[0],
    ensures
        earliest(text::index_of(a + p + b, p), text::index_of(a + p + b, q)) == Some(
            a.len() as int,
        ),
        earliest(text::index_of(a + p + b, q), text::index_of(a + p + b, p)) == Some(
            a.len() as int,
        ),
{
    let s = a + p + b;
    text::lemma_found_behind(a, p, b);
    assert(s =~= a + (p + b));
    text::lemma_none_before(a, p + b, q);
    if text::index_of(s, q) == Some(a.len() as int) {
        assert(s.subrange(a.len() as int, (a.len() + q.len()) as int) =~= p);
    }
}

/// A cell as it is written: its tag with attributes, its text and its closing tag.
pub open spec fn written_cell(header: bool, attrs: Seq<char>, body: Seq<char>) -> Seq<char> {
    if header {
        "<th"@ + attrs + ">"@ + body + "</th>"@
    } else {
        "<td"@ + attrs + ">"@ + body + "</td>"@
    }
}

/// A cell that is written is read: whether it is a header cell, and its text without
/// tags, with references resolved and trimmed. What follows is read as if it were
/// not there, and what stands before the first cell plays no part.
pub proof fn lemma_written_cell(
    before: Seq<char>,
    header: bool,
    attrs: Seq<char>,
    body: Seq<char>,
    rest: Seq<char>,
)
    requires
        !text::has(before, "<td"@),
        !text::has(before, "<th"@),
        !attrs.contains('>'),
        !text::has(body, "</td>"@),
        !text::has(body, "</th>"@),
    ensures
        row_cells(before) == Some(Seq::<(bool, Seq<char>)>::empty()),
        row_cells(before + written_cell(header, attrs, body) + rest) == (match row_cells(rest) {
            Some(more) => Some(
                seq![(header, text::trimmed(html::decoded(html::untagged(body))))] + more,
            ),
            None => None,
        }),
{
    lemma_table_marks();
    let td = "<td"@;
    let th = "<th"@;
    let open = if header {
        th
    } else {
        td
    };
    let other = if header {
        td
    } else {
        th
    };
    let close = if header {
        "</th>"@
    } else {
        "</td>"@
    };
    let other_close = if header {
        "</td>"@
    } else {
        "</th>"@
    };
    assert(td[2] != th[2]);
    assert("</td>"@[3] != "</th>"@[3]);
    let tail = attrs + ">"@ + body + close + rest;
    let row = before + written_cell(header, attrs, body) + rest;
    assert(row =~= before + open + tail);
    lemma_earliest(before, open, other, tail);
    let start = before.len() as int;
    let cell = row.skip(start);
    assert(cell =~= (open + attrs) + ">"@ + (body + close + rest));
    assert(!(open + attrs).contains('>')) by {
        assert forall|i: int| 0 <= i < (open + attrs).len() implies (open + attrs)[i] != '>' by {
            if i >= 3 {
                assert((open + attrs)[i] == attrs[i - 3]);
            }
        }
    }
    assert(">"@[0] == '>');
    text::lemma_needs(open + attrs, ">"@, '>');
    text::lemma_found_behind(open + attrs, ">"@, body + close + rest);
    let tag_len = open.len() + attrs.len() + 1;
    assert(cell.take(tag_len as int).subrange(0, 3) =~= open);
    assert(text::begins(cell.take(tag_len as int), th) == header);
    let inner = cell.skip(tag_len as int);
    assert(inner =~= body + close + rest);
    lemma_earliest(body, close, other_close, rest);
    let end = body.len() as int;
    assert(inner.take(end) =~= body);
    assert(inner.skip(end + 5) =~= rest);
}

/// A row that is written is read as its cells, and the rows behind it as if it were
/// not there; a row without cells is passed over.
pub proof fn lemma_written_row(before: Seq<char>, row: Seq<char>, rest: Seq<char>)
    requires
        !text::has(before, "<tr"@),
        !text::has("<tr"@ + row, "</tr>"@),
    ensures
        table_rows(before) == Some(Seq::<Seq<(bool, Seq<char>)>>::empty()),
        table_rows(before + "<tr"@ + row + "</tr>"@ + rest) == (match (
            row_cells("<tr"@ + row),
            table_rows(rest),
        ) {
            (Some(cells), Some(more)) => Some(
                if cells.len() == 0 {
                    more
                } else {
                    seq![cells] + more
                },
            ),
            _ => None,
        }),
{
    lemma_table_marks();
    let tr = "<tr"@;
    let end = "</tr>"@;
    let table = before + tr + row + end + rest;
    assert(table =~= before + tr + (row + end + rest));
    text::lemma_found_behind(before, tr, row + end + rest);
    let start = before.len() as int;
    assert(table.skip(start) =~= (tr + row) + end + rest);
    text::lemma_found_behind(tr + row, end, rest);
    let len = (tr + row).len() as int;
    assert(table.subrange(start, start + len) =~= tr + row);
    assert(table.skip(start + len + 5) =~= rest);
}

/// A table that is written is read as its rows where it is marked `wikitable`, and
/// passed over where it is not; what is behind it is read as if it were not there.
pub proof fn lemma_written_table(before: Seq<char>, table: Seq<char>, rest: Seq<char>)
    requires
        !text::has(before, "<table"@),
        !text::has("<table"@ + table, "</table>"@),
    ensures
        wiki_tables(before) == Some(Seq::<Seq<Seq<(bool, Seq<char>)>>>::empty()),
        ({
            let all = wiki_tables(before + "<table"@ + table + "</table>"@ + rest);
            &&& !text::has("<table"@ + table, "wikitable"@) ==> all == wiki_tables(rest)
            &&& text::has("<table"@ + table, "wikitable"@) ==> all == (match (
                table_rows("<table"@ + table),
                wiki_tables(rest),
            ) {
                (Some(rows), Some(more)) => Some(seq![rows] + more),
                _ => None,
            })
        }),
{
    lemma_table_marks();
    let open = "<table"@;
    let end = "</table>"@;
    let page = before + open + table + end + rest;
    assert(page =~= before + open + (table + end + rest));
    text::lemma_found_behind(before, open, table + end + rest);
    let start = before.len() as int;
    assert(page.skip(start) =~= (open + table) + end + rest);
    text::lemma_found_behind(open + table, end, rest);
    let len = (open + table).len() as int;
    assert(page.subrange(start, start + len) =~= open + table);
    assert(page.skip(start + len + 8) =~= rest);
}

} // verus!
