//! Reading text out of HTML: markup removal, character references, and the
//! rows and cells of tables.

use crate::number;
use crate::text;
use vstd::prelude::*;

verus! {

broadcast use vstd::string::group_string_axioms;

// ---------------------------------------------------------------------------
// Markup
// ---------------------------------------------------------------------------

/// After `s`, a tag stands open: the last angle bracket of `s` opens one.
pub open spec fn inside_tag(s: Seq<char>) -> bool
    decreases s.len(),
{
    if s.len() == 0 {
        false
    } else if s.last() == '<' {
        true
    } else if s.last() == '>' {
        false
    } else {
        inside_tag(s.drop_last())
    }
}

/// The characters of `s` outside tags, without the angle brackets.
pub open spec fn untagged(s: Seq<char>) -> Seq<char>
    decreases s.len(),
{
    if s.len() == 0 {
        Seq::empty()
    } else if s.last() == '<' || s.last() == '>' || inside_tag(s.drop_last()) {
        untagged(s.drop_last())
    } else {
        untagged(s.drop_last()).push(s.last())
    }
}

/// Removes the tags of a slice.
pub fn strip(s: &[char]) -> (r: Vec<char>)
    ensures
        r@ == untagged(s@),
{
    let mut out: Vec<char> = Vec::new();
    let mut in_tag = false;
    for i in 0..s.len()
        invariant
            out@ == untagged(s@.take(i as int)),
            in_tag == inside_tag(s@.take(i as int)),
    {
        let c = s[i];
        assert(s@.take(i + 1).drop_last() =~= s@.take(i as int));
        if c == '<' {
            in_tag = true;
        } else if c == '>' {
            in_tag = false;
        } else if !in_tag {
            out.push(c);
        }
    }
    assert(s@.take(s@.len() as int) =~= s@);
    out
}

/// Removes everything between `<` and `>`, brackets included.
pub fn strip_tags(s: &str) -> (r: String)
    ensures
        r@ == untagged(s@),
{
    let c = text::chars_of(s);
    text::string_of(strip(c.as_slice()).as_slice())
}

/// No angle bracket is left once tags are removed.
pub proof fn lemma_untagged_has_no_brackets(s: Seq<char>)
    ensures
        !untagged(s).contains('<'),
        !untagged(s).contains('>'),
    decreases s.len(),
{
    if s.len() > 0 {
        lemma_untagged_has_no_brackets(s.drop_last());
        let before = untagged(s.drop_last());
        assert forall|c: char| untagged(s).contains(c) implies before.contains(c) || c
            == s.last() && c != '<' && c != '>' by {
            let i = choose|i: int| 0 <= i < untagged(s).len() && untagged(s)[i] == c;
            if i < before.len() {
                assert(before[i] == c);
            }
        }
    }
}

/// Text without angle brackets is kept as it is.
pub proof fn lemma_untagged_keeps_plain_text(s: Seq<char>)
    requires
        !s.contains('<'),
        !s.contains('>'),
    ensures
        untagged(s) == s,
        !inside_tag(s),
    decreases s.len(),
{
    if s.len() > 0 {
        assert(s[s.len() - 1] == s.last());
        assert forall|c: char| s.drop_last().contains(c) implies s.contains(c) by {
            let i = choose|i: int| 0 <= i < s.drop_last().len() && s.drop_last()[i] == c;
            assert(s[i] == c);
        }
        lemma_untagged_keeps_plain_text(s.drop_last());
        assert(s.drop_last().push(s.last()) =~= s);
    } else {
        assert(untagged(s) =~= s);
    }
}

// ---------------------------------------------------------------------------
// Character references
// ---------------------------------------------------------------------------

/// The six references that the device list uses, replaced one kind after the
/// other.
pub open spec fn unescaped(s: Seq<char>) -> Seq<char> {
    let s = text::replaced(s, "&amp;"@, "&"@);
    let s = text::replaced(s, "&lt;"@, "<"@);
    let s = text::replaced(s, "&gt;"@, ">"@);
    let s = text::replaced(s, "&quot;"@, "\""@);
    let s = text::replaced(s, "&#39;"@, "'"@);
    text::replaced(s, "&nbsp;"@, " "@)
}

/// Replaces the common character references, kind by kind, `&amp;` first.
pub fn unescape(s: &str) -> (r: String)
    ensures
        r@ == unescaped(s@),
{
    proof {
        reveal_strlit("&amp;");
        reveal_strlit("&lt;");
        reveal_strlit("&gt;");
        reveal_strlit("&quot;");
        reveal_strlit("&#39;");
        reveal_strlit("&nbsp;");
    }
    let s = text::chars_of(s);
    let s = text::replace_str(s.as_slice(), "&amp;", "&");
    let s = text::replace_str(s.as_slice(), "&lt;", "<");
    let s = text::replace_str(s.as_slice(), "&gt;", ">");
    let s = text::replace_str(s.as_slice(), "&quot;", "\"");
    let s = text::replace_str(s.as_slice(), "&#39;", "'");
    let s = text::replace_str(s.as_slice(), "&nbsp;", " ");
    text::string_of(s.as_slice())
}

/// The character with a scalar value.
pub open spec fn scalar(v: Option<nat>) -> Option<char> {
    match v {
        Some(n) if n < 0xd800 || 0xdfff < n <= 0x10ffff => Some(n as char),
        _ => None,
    }
}

/// The character that the reference `&e;` stands for, where it is known.
pub open spec fn entity(e: Seq<char>) -> Option<char> {
    if e == "amp"@ {
        Some('&')
    } else if e == "lt"@ {
        Some('<')
    } else if e == "gt"@ {
        Some('>')
    } else if e == "quot"@ {
        Some('"')
    } else if e == "apos"@ {
        Some('\'')
    } else if e == "nbsp"@ {
        Some(' ')
    } else if e == "ndash"@ {
        Some('\u{2013}')
    } else if e == "mdash"@ {
        Some('\u{2014}')
    } else if e == "middot"@ {
        Some('\u{b7}')
    } else if text::begins(e, "#x"@) || text::begins(e, "#X"@) {
        scalar(number::unsigned(e.skip(2), 16, u32::MAX as nat))
    } else if text::begins(e, "#"@) {
        scalar(number::unsigned(e.skip(1), 10, u32::MAX as nat))
    } else {
        None
    }
}

/// `s` with its character references resolved. A reference runs from an
/// ampersand to the next semicolon; one that is not known is kept as it is, and
/// so is everything from an ampersand on that no semicolon follows.
pub open spec fn decoded(s: Seq<char>) -> Seq<char>
    decreases s.len(),
{
    if s.len() == 0 {
        Seq::empty()
    } else if s[0] != '&' {
        seq![s[0]] + decoded(s.skip(1))
    } else {
        match text::index_of(s.skip(1), ";"@) {
            Some(i) if 0 <= i && i + 2 <= s.len() => match entity(s.subrange(1, i + 1)) {
                Some(c) => seq![c] + decoded(s.skip(i + 2)),
                None => s.take(i + 2) + decoded(s.skip(i + 2)),
            },
            _ => s,
        }
    }
}

/// The character for a scalar value.
fn scalar_char(v: Option<u64>) -> (r: Option<char>)
    requires
        v matches Some(n) ==> n <= u32::MAX,
    ensures
        r == scalar(
            match v {
                Some(n) => Some(n as nat),
                None => None,
            },
        ),
{
    match v {
        Some(n) => char::from_u32(n as u32),
        None => None,
    }
}

/// Resolves the name between `&` and `;`.
fn resolve_entity(e: &[char]) -> (r: Option<char>)
    ensures
        r == entity(e@),
{
    proof {
        reveal_strlit("#x");
        reveal_strlit("#X");
        reveal_strlit("#");
    }
    if text::is_str(e, "amp") {
        Some('&')
    } else if text::is_str(e, "lt") {
        Some('<')
    } else if text::is_str(e, "gt") {
        Some('>')
    } else if text::is_str(e, "quot") {
        Some('"')
    } else if text::is_str(e, "apos") {
        Some('\'')
    } else if text::is_str(e, "nbsp") {
        Some(' ')
    } else if text::is_str(e, "ndash") {
        Some('\u{2013}')
    } else if text::is_str(e, "mdash") {
        Some('\u{2014}')
    } else if text::is_str(e, "middot") {
        Some('\u{b7}')
    } else if text::starts_with_str(e, "#x") || text::starts_with_str(e, "#X") {
        let hex: &[char] = &e[2..e.len()];
        assert(hex@ =~= e@.skip(2));
        scalar_char(number::parse_unsigned(hex, 16, u32::MAX as u64))
    } else if text::starts_with_str(e, "#") {
        let dec: &[char] = &e[1..e.len()];
        assert(dec@ =~= e@.skip(1));
        scalar_char(number::parse_unsigned(dec, 10, u32::MAX as u64))
    } else {
        None
    }
}

/// Resolves the character references of a slice.
pub fn decode(s: &[char]) -> (r: Vec<char>)
    ensures
        r@ == decoded(s@),
{
    let mut out: Vec<char> = Vec::new();
    let mut i: usize = 0;
    assert(s@.skip(0) =~= s@);
    assert(out@ + decoded(s@) =~= decoded(s@));
    while i < s.len()
        invariant
            i <= s.len(),
            out@ + decoded(s@.skip(i as int)) == decoded(s@),
        decreases s.len() - i,
    {
        let ghost rest = s@.skip(i as int);
        let ghost before = out@;
        if s[i] != '&' {
            out.push(s[i]);
            i = i + 1;
            proof {
                assert(rest.skip(1) =~= s@.skip(i as int));
                assert(out@ + decoded(s@.skip(i as int)) =~= before + decoded(rest));
            }
        } else {
            let after: &[char] = &s[i + 1..s.len()];
            assert(after@ =~= rest.skip(1));
            proof {
                reveal_strlit(";");
            }
            match text::find_str(after, ";") {
                Some(p) => {
                    let name: &[char] = &after[0..p];
                    assert(name@ =~= rest.subrange(1, p + 1));
                    let end: usize = i + p + 2;
                    match resolve_entity(name) {
                        Some(c) => {
                            out.push(c);
                        },
                        None => {
                            text::append(&mut out, &s[i..end]);
                            assert(s@.subrange(i as int, end as int) =~= rest.take(p + 2));
                        },
                    }
                    i = end;
                    proof {
                        assert(rest.skip(p + 2) =~= s@.skip(end as int));
                        assert(out@ + decoded(s@.skip(i as int)) =~= before + decoded(rest));
                    }
                },
                None => {
                    text::append(&mut out, &s[i..s.len()]);
                    assert(s@.subrange(i as int, s@.len() as int) =~= rest);
                    return out;
                },
            }
        }
    }
    assert(s@.skip(i as int) =~= Seq::<char>::empty());
    assert(out@ + decoded(s@.skip(i as int)) =~= out@);
    out
}

/// Resolves HTML character references, the common named ones and the numeric.
pub fn unescape_html(s: &str) -> (r: String)
    ensures
        r@ == decoded(s@),
{
    let c = text::chars_of(s);
    text::string_of(decode(c.as_slice()).as_slice())
}

/// Text without an ampersand is kept as it is.
pub proof fn lemma_decoded_keeps_plain_text(s: Seq<char>)
    requires
        !s.contains('&'),
    ensures
        decoded(s) == s,
    decreases s.len(),
{
    if s.len() > 0 {
        assert(s[0] != '&');
        assert forall|c: char| s.skip(1).contains(c) implies s.contains(c) by {
            let i = choose|i: int| 0 <= i < s.skip(1).len() && s.skip(1)[i] == c;
            assert(s[i + 1] == c);
        }
        lemma_decoded_keeps_plain_text(s.skip(1));
        assert(seq![s[0]] + s.skip(1) =~= s);
    } else {
        assert(decoded(s) =~= s);
    }
}

// ---------------------------------------------------------------------------
// Rows of a plain table
// ---------------------------------------------------------------------------

/// The text of a cell: without tags and without surrounding white space.
pub open spec fn plain_cell(s: Seq<char>) -> Seq<char> {
    text::trimmed(untagged(s))
}

/// The texts of the pieces that hold a closing `</td>`.
pub open spec fn plain_cells(pieces: Seq<Seq<char>>) -> Seq<Seq<char>>
    decreases pieces.len(),
{
    if pieces.len() == 0 {
        Seq::empty()
    } else {
        let before = plain_cells(pieces.drop_last());
        match text::index_of(pieces.last(), "</td>"@) {
            Some(e) => before.push(plain_cell(pieces.last().take(e))),
            None => before,
        }
    }
}

/// The cells of a piece that starts after `<tr`; none where `</tr>` is missing.
pub open spec fn row_of(piece: Seq<char>) -> Option<Seq<Seq<char>>> {
    match text::index_of(piece, "</tr>"@) {
        Some(e) => Some(plain_cells(text::split(piece.take(e), "<td"@).skip(1))),
        None => None,
    }
}

/// The first four cells of every closed row that has at least four.
pub open spec fn four_cell_rows(pieces: Seq<Seq<char>>) -> Seq<(
    Seq<char>,
    Seq<char>,
    Seq<char>,
    Seq<char>,
)>
    decreases pieces.len(),
{
    if pieces.len() == 0 {
        Seq::empty()
    } else {
        let before = four_cell_rows(pieces.drop_last());
        match row_of(pieces.last()) {
            Some(c) if c.len() >= 4 => before.push((c[0], c[1], c[2], c[3])),
            _ => before,
        }
    }
}

/// The rows of the device list.
pub open spec fn list_rows(html: Seq<char>) -> Seq<(Seq<char>, Seq<char>, Seq<char>, Seq<char>)> {
    four_cell_rows(text::split(html, "<tr"@).skip(1))
}

/// The contents of rows of four strings.
pub open spec fn quads(v: Seq<(String, String, String, String)>) -> Seq<(
    Seq<char>,
    Seq<char>,
    Seq<char>,
    Seq<char>,
)> {
    Seq::new(v.len(), |i: int| (v[i].0@, v[i].1@, v[i].2@, v[i].3@))
}

/// The cell texts of a row's body.
fn body_cells(body: &[char]) -> (r: Vec<Vec<char>>)
    ensures
        text::rows(r@) == plain_cells(text::split(body@, "<td"@).skip(1)),
{
    proof {
        reveal_strlit("<td");
    }
    let pieces = text::split_str(body, "<td");
    let ghost all = text::split(body@, "<td"@).skip(1);
    let mut out: Vec<Vec<char>> = Vec::new();
    let mut i: usize = 1;
    proof {
        text::lemma_split_nonempty(body@, "<td"@);
        assert(text::rows(out@) =~= plain_cells(all.take(0)));
    }
    while i < pieces.len()
        invariant
            1 <= i <= pieces.len(),
            text::parts(pieces@) == text::split(body@, "<td"@),
            all == text::split(body@, "<td"@).skip(1),
            text::rows(out@) == plain_cells(all.take(i - 1)),
        decreases pieces.len() - i,
    {
        let piece = pieces[i];
        let ghost before = out@;
        proof {
            assert(text::parts(pieces@)[i as int] == piece@);
            assert(all.take(i as int).drop_last() =~= all.take(i - 1));
            assert(all.take(i as int).last() == piece@);
        }
        if let Some(e) = text::find_str(piece, "</td>") {
            let inner: &[char] = &piece[0..e];
            assert(inner@ =~= piece@.take(e as int));
            let plain = strip(inner);
            let cell = text::to_vec(text::trim(plain.as_slice()));
            out.push(cell);
            assert(text::rows(out@) =~= text::rows(before).push(cell@));
        }
        i = i + 1;
    }
    assert(all.take(i - 1) =~= all);
    out
}

/// Reads the rows of the supported-devices table: brand, marketing name,
/// codename and model of each.
pub fn parse_rows(html: &str) -> (r: Vec<(String, String, String, String)>)
    ensures
        quads(r@) == list_rows(html@),
{
    proof {
        reveal_strlit("<tr");
    }
    let chars = text::chars_of(html);
    let pieces = text::split_str(chars.as_slice(), "<tr");
    let ghost all = text::split(html@, "<tr"@).skip(1);
    let mut out: Vec<(String, String, String, String)> = Vec::new();
    let mut i: usize = 1;
    proof {
        text::lemma_split_nonempty(html@, "<tr"@);
        assert(quads(out@) =~= four_cell_rows(all.take(0)));
    }
    while i < pieces.len()
        invariant
            1 <= i <= pieces.len(),
            text::parts(pieces@) == text::split(html@, "<tr"@),
            all == text::split(html@, "<tr"@).skip(1),
            quads(out@) == four_cell_rows(all.take(i - 1)),
        decreases pieces.len() - i,
    {
        let piece = pieces[i];
        let ghost before = out@;
        proof {
            assert(text::parts(pieces@)[i as int] == piece@);
            assert(all.take(i as int).drop_last() =~= all.take(i - 1));
            assert(all.take(i as int).last() == piece@);
        }
        if let Some(e) = text::find_str(piece, "</tr>") {
            let body: &[char] = &piece[0..e];
            assert(body@ =~= piece@.take(e as int));
            let cells = body_cells(body);
            let ghost c = text::rows(cells@);
            if cells.len() >= 4 {
                let row = (
                    text::string_of(cells[0].as_slice()),
                    text::string_of(cells[1].as_slice()),
                    text::string_of(cells[2].as_slice()),
                    text::string_of(cells[3].as_slice()),
                );
                assert(c[0] == row.0@ && c[1] == row.1@ && c[2] == row.2@ && c[3] == row.3@);
                out.push(row);
                assert(quads(out@) =~= quads(before).push((row.0@, row.1@, row.2@, row.3@)));
            }
        }
        i = i + 1;
    }
    assert(all.take(i - 1) =~= all);
    out
}

// ---------------------------------------------------------------------------
// Texts of pages, piece by piece
// ---------------------------------------------------------------------------

/// Text outside tags is kept and a tag is removed, whatever follows.
pub proof fn lemma_untagged_piece(a: Seq<char>, tag: Seq<char>, b: Seq<char>)
    requires
        !a.contains('<'),
        !a.contains('>'),
        !tag.contains('>'),
    ensures
        untagged(a + seq!['<'] + tag + seq!['>'] + b) == a + untagged(b),
        untagged(a + b) == a + untagged(b),
{
    lemma_untagged_keeps_plain_text(a);
    let x = a + seq!['<'] + tag;
    lemma_open_tag(a, tag);
    let y = x + seq!['>'];
    assert(y.drop_last() =~= x);
    assert(!inside_tag(y) && untagged(y) == a);
    lemma_untagged_behind(y, b);
    lemma_untagged_behind(a, b);
}

proof fn lemma_open_tag(a: Seq<char>, tag: Seq<char>)
    requires
        untagged(a) == a,
        !tag.contains('>'),
    ensures
        inside_tag(a + seq!['<'] + tag),
        untagged(a + seq!['<'] + tag) == a,
    decreases tag.len(),
{
    let x = a + seq!['<'] + tag;
    if tag.len() == 0 {
        assert(x =~= a.push('<'));
        assert(x.drop_last() =~= a);
    } else {
        let init = tag.drop_last();
        assert forall|i: int| 0 <= i < init.len() implies init[i] != '>' by {
            assert(tag[i] == init[i]);
        }
        lemma_open_tag(a, init);
        assert(x.drop_last() =~= a + seq!['<'] + init);
        assert(tag[tag.len() - 1] == tag.last());
    }
}

proof fn lemma_untagged_behind(a: Seq<char>, b: Seq<char>)
    requires
        !inside_tag(a),
    ensures
        untagged(a + b) == untagged(a) + untagged(b),
        inside_tag(a + b) == inside_tag(b),
    decreases b.len(),
{
    if b.len() > 0 {
        lemma_untagged_behind(a, b.drop_last());
        assert((a + b).drop_last() =~= a + b.drop_last());
        assert(untagged(a + b) =~= untagged(a) + untagged(b));
    } else {
        assert(a + b =~= a);
        assert(untagged(a) + untagged(b) =~= untagged(a));
    }
}

/// A character other than an ampersand stands for itself.
pub proof fn lemma_decoded_character(c: char, s: Seq<char>)
    requires
        c != '&',
    ensures
        decoded(seq![c] + s) == seq![c] + decoded(s),
{
    assert((seq![c] + s).skip(1) =~= s);
}

proof fn lemma_decoded_reference(e: Seq<char>, s: Seq<char>)
    requires
        !e.contains(';'),
    ensures
        decoded(seq!['&'] + e + seq![';'] + s) == (match entity(e) {
            Some(c) => seq![c],
            None => seq!['&'] + e + seq![';'],
        }) + decoded(s),
{
    reveal_strlit(";");
    let t = seq!['&'] + e + seq![';'] + s;
    let semi = ";"@;
    assert(semi =~= seq![';']);
    assert(semi[0] == ';');
    text::lemma_needs(e, semi, ';');
    text::lemma_found_behind(e, semi, s);
    assert(t.skip(1) =~= e + semi + s);
    let i = e.len() as int;
    assert(t.subrange(1, i + 1) =~= e);
    assert(t.skip(i + 2) =~= s);
    assert(t.take(i + 2) =~= seq!['&'] + e + seq![';']);
}

/// The references by name: each stands for its character, whatever follows.
pub proof fn lemma_named_references(s: Seq<char>)
    ensures
        decoded(seq!['&'] + "amp"@ + seq![';'] + s) == seq!['&'] + decoded(s),
        decoded(seq!['&'] + "lt"@ + seq![';'] + s) == seq!['<'] + decoded(s),
        decoded(seq!['&'] + "gt"@ + seq![';'] + s) == seq!['>'] + decoded(s),
        decoded(seq!['&'] + "quot"@ + seq![';'] + s) == seq!['"'] + decoded(s),
        decoded(seq!['&'] + "apos"@ + seq![';'] + s) == seq!['\''] + decoded(s),
        decoded(seq!['&'] + "nbsp"@ + seq![';'] + s) == seq![' '] + decoded(s),
        decoded(seq!['&'] + "ndash"@ + seq![';'] + s) == seq!['\u{2013}'] + decoded(s),
        decoded(seq!['&'] + "mdash"@ + seq![';'] + s) == seq!['\u{2014}'] + decoded(s),
        decoded(seq!['&'] + "middot"@ + seq![';'] + s) == seq!['\u{b7}'] + decoded(s),
{
    reveal_strlit("amp");
    reveal_strlit("lt");
    reveal_strlit("gt");
    reveal_strlit("quot");
    reveal_strlit("apos");
    reveal_strlit("nbsp");
    reveal_strlit("ndash");
    reveal_strlit("mdash");
    reveal_strlit("middot");
    assert("amp"@.len() == 3 && "lt"@.len() == 2 && "gt"@.len() == 2 && "quot"@.len() == 4
        && "apos"@.len() == 4 && "nbsp"@.len() == 4 && "ndash"@.len() == 5 && "mdash"@.len() == 5
        && "middot"@.len() == 6);
    assert("lt"@[0] == 'l' && "gt"@[0] == 'g' && "quot"@[0] == 'q' && "apos"@[0] == 'a'
        && "nbsp"@[0] == 'n' && "ndash"@[0] == 'n' && "mdash"@[0] == 'm');
    lemma_decoded_reference("amp"@, s);
    lemma_decoded_reference("lt"@, s);
    lemma_decoded_reference("gt"@, s);
    lemma_decoded_reference("quot"@, s);
    lemma_decoded_reference("apos"@, s);
    lemma_decoded_reference("nbsp"@, s);
    lemma_decoded_reference("ndash"@, s);
    lemma_decoded_reference("mdash"@, s);
    lemma_decoded_reference("middot"@, s);
}

/// The references by number: `&#` and the decimal digits of a character's number
/// stand for the character, whatever follows.
pub proof fn lemma_numbered_references(n: nat, s: Seq<char>)
    requires
        n < 0xd800 || 0xdfff < n <= 0x10ffff,
    ensures
        decoded(seq!['&'] + (seq!['#'] + number::decimal(n)) + seq![';'] + s) == seq![n as char]
            + decoded(s),
{
    let d = number::decimal(n);
    let e = seq!['#'] + d;
    number::lemma_decimal_reads_back(n, u32::MAX as nat);
    lemma_decimal_is_digits(n);
    reveal_strlit("amp");
    reveal_strlit("lt");
    reveal_strlit("gt");
    reveal_strlit("quot");
    reveal_strlit("apos");
    reveal_strlit("nbsp");
    reveal_strlit("ndash");
    reveal_strlit("mdash");
    reveal_strlit("middot");
    reveal_strlit("#x");
    reveal_strlit("#X");
    reveal_strlit("#");
    assert(e[0] == '#');
    assert("amp"@[0] == 'a' && "lt"@[0] == 'l' && "gt"@[0] == 'g' && "quot"@[0] == 'q'
        && "apos"@[0] == 'a' && "nbsp"@[0] == 'n' && "ndash"@[0] == 'n' && "mdash"@[0] == 'm'
        && "middot"@[0] == 'm');
    assert(e[1] == d[0]);
    assert(!text::begins(e, "#x"@)) by {
        assert(e.subrange(0, 2)[1] == d[0]);
    }
    assert(!text::begins(e, "#X"@)) by {
        assert(e.subrange(0, 2)[1] == d[0]);
    }
    assert(e.subrange(0, 1) =~= "#"@);
    assert(text::begins(e, "#"@));
    assert(e.skip(1) =~= d);
    assert(!e.contains(';')) by {
        assert forall|i: int| 0 <= i < e.len() implies e[i] != ';' by {
            if i > 0 {
                assert(e[i] == d[i - 1]);
            }
        }
    }
    lemma_decoded_reference(e, s);
}

proof fn lemma_decimal_is_digits(n: nat)
    ensures
        number::decimal(n).len() > 0,
        forall|i: int|
            0 <= i < number::decimal(n).len() ==> '0' <= #[trigger] number::decimal(n)[i] <= '9',
    decreases n,
{
    if n >= 10 {
        lemma_decimal_is_digits(n / 10);
    }
}

/// A reference that is not known is kept as it is, and so is an ampersand that no
/// semicolon follows.
pub proof fn lemma_unknown_references(e: Seq<char>, s: Seq<char>)
    requires
        !e.contains(';'),
        entity(e) is None,
    ensures
        decoded(seq!['&'] + e + seq![';'] + s) == seq!['&'] + e + seq![';'] + decoded(s),
        decoded(seq!['&'] + e) == seq!['&'] + e,
{
    lemma_decoded_reference(e, s);
    reveal_strlit(";");
    let t = seq!['&'] + e;
    assert(t.skip(1) =~= e);
    assert(";"@.contains(';')) by {
        assert(";"@[0] == ';');
    }
    text::lemma_needs(e, ";"@, ';');
}

proof fn lemma_not_replaced(p: Seq<char>, x: Seq<char>, from: Seq<char>, to: Seq<char>)
    requires
        from.len() > 0,
        p.len() > 0,
        p.len() <= from.len(),
        p[0] == from[0] ==> exists|k: int| 0 < k < p.len() && p[k] != from[k],
        forall|i: int| 1 <= i < p.len() ==> #[trigger] p[i] != from[0],
    ensures
        text::replaced(p + x, from, to) == p + text::replaced(x, from, to),
{
    let s = p + x;
    assert forall|i: int| 0 <= i < p.len() implies !#[trigger] text::occurs_at(s, from, i) by {
        if text::occurs_at(s, from, i) {
            let t = s.subrange(i, i + from.len());
            assert(t[0] == s[i] && s[i] == p[i]);
            if i == 0 {
                let k = choose|k: int| 0 < k < p.len() && p[k] != from[k];
                assert(t[k] == p[k]);
            }
        }
    }
    text::lemma_replaced_behind(p, x, from, to);
}

proof fn lemma_one_not_replaced(c: char, x: Seq<char>, from: Seq<char>, to: Seq<char>)
    requires
        from.len() > 0,
        c != from[0],
    ensures
        text::replaced(seq![c] + x, from, to) == seq![c] + text::replaced(x, from, to),
{
    lemma_not_replaced(seq![c], x, from, to);
}

/// The references of the device list, piece by piece: a character other than an
/// ampersand stands for itself, and each reference for its character, whatever
/// follows. (What `&amp;` leaves is read once more, with what follows.)
pub proof fn lemma_unescaped_piece(c: char, x: Seq<char>)
    ensures
        c != '&' ==> unescaped(seq![c] + x) == seq![c] + unescaped(x),
        unescaped("&lt;"@ + x) == seq!['<'] + unescaped(x),
        unescaped("&gt;"@ + x) == seq!['>'] + unescaped(x),
        unescaped("&quot;"@ + x) == seq!['"'] + unescaped(x),
        unescaped("&#39;"@ + x) == seq!['\''] + unescaped(x),
        unescaped("&nbsp;"@ + x) == seq![' '] + unescaped(x),
        unescaped("&amp; "@ + x) == seq!['&', ' '] + unescaped(x),
{
    lemma_references();
    let x1 = text::replaced(x, "&amp;"@, "&"@);
    let x2 = text::replaced(x1, "&lt;"@, "<"@);
    let x3 = text::replaced(x2, "&gt;"@, ">"@);
    let x4 = text::replaced(x3, "&quot;"@, "\""@);
    let x5 = text::replaced(x4, "&#39;"@, "'"@);
    if c != '&' {
        lemma_plain_in_front(c, x);
    }
    lemma_not_replaced("&lt;"@, x, "&amp;"@, "&"@);
    text::lemma_replaced_front(x1, "&lt;"@, "<"@);
    lemma_one_not_replaced('<', x2, "&gt;"@, ">"@);
    lemma_one_not_replaced('<', x3, "&quot;"@, "\""@);
    lemma_one_not_replaced('<', x4, "&#39;"@, "'"@);
    lemma_one_not_replaced('<', x5, "&nbsp;"@, " "@);
    lemma_not_replaced("&gt;"@, x, "&amp;"@, "&"@);
    lemma_not_replaced("&gt;"@, x1, "&lt;"@, "<"@);
    text::lemma_replaced_front(x2, "&gt;"@, ">"@);
    lemma_one_not_replaced('>', x3, "&quot;"@, "\""@);
    lemma_one_not_replaced('>', x4, "&#39;"@, "'"@);
    lemma_one_not_replaced('>', x5, "&nbsp;"@, " "@);
    lemma_long_references(x);
}

proof fn lemma_references()
    ensures
        "&amp;"@ =~= seq!['&', 'a', 'm', 'p', ';'],
        "&amp; "@ =~= seq!['&', 'a', 'm', 'p', ';', ' '],
        "&lt;"@ =~= seq!['&', 'l', 't', ';'],
        "&gt;"@ =~= seq!['&', 'g', 't', ';'],
        "&quot;"@ =~= seq!['&', 'q', 'u', 'o', 't', ';'],
        "&#39;"@ =~= seq!['&', '#', '3', '9', ';'],
        "&nbsp;"@ =~= seq!['&', 'n', 'b', 's', 'p', ';'],
        "&"@ =~= seq!['&'],
        "<"@ =~= seq!['<'],
        ">"@ =~= seq!['>'],
        "\""@ =~= seq!['"'],
        "'"@ =~= seq!['\''],
        " "@ =~= seq![' '],
{
    reveal_strlit("&amp;");
    reveal_strlit("&amp; ");
    reveal_strlit("&lt;");
    reveal_strlit("&gt;");
    reveal_strlit("&quot;");
    reveal_strlit("&#39;");
    reveal_strlit("&nbsp;");
    reveal_strlit("&");
    reveal_strlit("<");
    reveal_strlit(">");
    reveal_strlit("\"");
    reveal_strlit("'");
    reveal_strlit(" ");
}

proof fn lemma_plain_in_front(c: char, x: Seq<char>)
    requires
        c != '&',
    ensures
        unescaped(seq![c] + x) == seq![c] + unescaped(x),
{
    lemma_references();
    let x1 = text::replaced(x, "&amp;"@, "&"@);
    let x2 = text::replaced(x1, "&lt;"@, "<"@);
    let x3 = text::replaced(x2, "&gt;"@, ">"@);
    let x4 = text::replaced(x3, "&quot;"@, "\""@);
    let x5 = text::replaced(x4, "&#39;"@, "'"@);
    lemma_one_not_replaced(c, x, "&amp;"@, "&"@);
    lemma_one_not_replaced(c, x1, "&lt;"@, "<"@);
    lemma_one_not_replaced(c, x2, "&gt;"@, ">"@);
    lemma_one_not_replaced(c, x3, "&quot;"@, "\""@);
    lemma_one_not_replaced(c, x4, "&#39;"@, "'"@);
    lemma_one_not_replaced(c, x5, "&nbsp;"@, " "@);
}

/// Passes a short beginning that is no reference of the kind, character by
/// character behind the first.
proof fn lemma_beginning_not_replaced(
    p: Seq<char>,
    x: Seq<char>,
    from: Seq<char>,
    to: Seq<char>,
)
    requires
        from.len() > 1,
        p.len() > 1,
        p[1] != from[1],
        forall|i: int| 1 <= i < p.len() ==> #[trigger] p[i] != from[0],
    ensures
        text::replaced(p + x, from, to) == p + text::replaced(x, from, to),
{
    let s = p + x;
    assert forall|i: int| 0 <= i < p.len() implies !#[trigger] text::occurs_at(s, from, i) by {
        if text::occurs_at(s, from, i) {
            let t = s.subrange(i, i + from.len());
            assert(t[0] == s[i] && s[i] == p[i]);
            if i == 0 {
                assert(t[1] == p[1]);
            }
        }
    }
    text::lemma_replaced_behind(p, x, from, to);
}

proof fn lemma_long_references(x: Seq<char>)
    ensures
        unescaped("&quot;"@ + x) == seq!['"'] + unescaped(x),
        unescaped("&#39;"@ + x) == seq!['\''] + unescaped(x),
        unescaped("&nbsp;"@ + x) == seq![' '] + unescaped(x),
        unescaped("&amp; "@ + x) == seq!['&', ' '] + unescaped(x),
{
    lemma_references();
    let x1 = text::replaced(x, "&amp;"@, "&"@);
    let x2 = text::replaced(x1, "&lt;"@, "<"@);
    let x3 = text::replaced(x2, "&gt;"@, ">"@);
    let x4 = text::replaced(x3, "&quot;"@, "\""@);
    let x5 = text::replaced(x4, "&#39;"@, "'"@);
    let quot = "&quot;"@;
    lemma_beginning_not_replaced(quot, x, "&amp;"@, "&"@);
    lemma_beginning_not_replaced(quot, x1, "&lt;"@, "<"@);
    lemma_beginning_not_replaced(quot, x2, "&gt;"@, ">"@);
    text::lemma_replaced_front(x3, quot, "\""@);
    lemma_one_not_replaced('"', x4, "&#39;"@, "'"@);
    lemma_one_not_replaced('"', x5, "&nbsp;"@, " "@);
    let apos = "&#39;"@;
    lemma_beginning_not_replaced(apos, x, "&amp;"@, "&"@);
    lemma_beginning_not_replaced(apos, x1, "&lt;"@, "<"@);
    lemma_beginning_not_replaced(apos, x2, "&gt;"@, ">"@);
    lemma_beginning_not_replaced(apos, x3, "&quot;"@, "\""@);
    text::lemma_replaced_front(x4, apos, "'"@);
    lemma_one_not_replaced('\'', x5, "&nbsp;"@, " "@);
    let nbsp = "&nbsp;"@;
    lemma_beginning_not_replaced(nbsp, x, "&amp;"@, "&"@);
    lemma_beginning_not_replaced(nbsp, x1, "&lt;"@, "<"@);
    lemma_beginning_not_replaced(nbsp, x2, "&gt;"@, ">"@);
    lemma_beginning_not_replaced(nbsp, x3, "&quot;"@, "\""@);
    lemma_beginning_not_replaced(nbsp, x4, "&#39;"@, "'"@);
    text::lemma_replaced_front(x5, nbsp, " "@);
    let amp = "&amp;"@;
    let and = seq!['&', ' '];
    assert("&amp; "@ + x =~= amp + (seq![' '] + x));
    text::lemma_replaced_front(seq![' '] + x, amp, "&"@);
    lemma_one_not_replaced(' ', x, amp, "&"@);
    assert("&"@ + (seq![' '] + x1) =~= and + x1);
    lemma_beginning_not_replaced(and, x1, "&lt;"@, "<"@);
    lemma_beginning_not_replaced(and, x2, "&gt;"@, ">"@);
    lemma_beginning_not_replaced(and, x3, "&quot;"@, "\""@);
    lemma_beginning_not_replaced(and, x4, "&#39;"@, "'"@);
    lemma_beginning_not_replaced(and, x5, "&nbsp;"@, " "@);
}

proof fn lemma_rows_front(p: Seq<char>, rest: Seq<Seq<char>>)
    ensures
        four_cell_rows(seq![p] + rest) == (match row_of(p) {
            Some(c) if c.len() >= 4 => seq![(c[0], c[1], c[2], c[3])],
            _ => Seq::empty(),
        }) + four_cell_rows(rest),
    decreases rest.len(),
{
    let all = seq![p] + rest;
    if rest.len() == 0 {
        assert(all.drop_last() =~= Seq::<Seq<char>>::empty());
        assert(all.last() == p);
        assert(four_cell_rows(all.drop_last()) =~= Seq::empty());
        assert(four_cell_rows(all) =~= (match row_of(p) {
            Some(c) if c.len() >= 4 => seq![(c[0], c[1], c[2], c[3])],
            _ => Seq::empty(),
        }) + four_cell_rows(rest));
    } else {
        lemma_rows_front(p, rest.drop_last());
        assert(all.drop_last() =~= seq![p] + rest.drop_last());
        assert(four_cell_rows(all) =~= (match row_of(p) {
            Some(c) if c.len() >= 4 => seq![(c[0], c[1], c[2], c[3])],
            _ => Seq::empty(),
        }) + four_cell_rows(rest));
    }
}

proof fn lemma_cells_front(p: Seq<char>, rest: Seq<Seq<char>>)
    ensures
        plain_cells(seq![p] + rest) == (match text::index_of(p, "</td>"@) {
            Some(e) => seq![plain_cell(p.take(e))],
            None => Seq::empty(),
        }) + plain_cells(rest),
    decreases rest.len(),
{
    let all = seq![p] + rest;
    if rest.len() == 0 {
        assert(all.drop_last() =~= Seq::<Seq<char>>::empty());
        assert(all.last() == p);
        assert(plain_cells(all.drop_last()) =~= Seq::<Seq<char>>::empty());
    } else {
        lemma_cells_front(p, rest.drop_last());
        assert(all.drop_last() =~= seq![p] + rest.drop_last());
    }
    assert(plain_cells(all) =~= (match text::index_of(p, "</td>"@) {
        Some(e) => seq![plain_cell(p.take(e))],
        None => Seq::empty(),
    }) + plain_cells(rest));
}

/// The text of a cell: no tag opens or closes in it.
pub open spec fn is_plain(s: Seq<char>) -> bool {
    !s.contains('<') && !s.contains('>')
}

/// A row of the device list as it is written.
pub open spec fn written_row(a: Seq<char>, b: Seq<char>, c: Seq<char>, d: Seq<char>) -> Seq<char> {
    ">"@ + written_cell(a) + written_cell(b) + written_cell(c) + written_cell(d)
}

/// A cell as it is written.
pub open spec fn written_cell(s: Seq<char>) -> Seq<char> {
    "<td>"@ + s + "</td>"@
}

proof fn lemma_marks()
    ensures
        "<td"@ =~= seq!['<', 't', 'd'],
        "<tr"@ =~= seq!['<', 't', 'r'],
        "<td>"@ =~= seq!['<', 't', 'd', '>'],
        "</td>"@ =~= seq!['<', '/', 't', 'd', '>'],
        "</tr>"@ =~= seq!['<', '/', 't', 'r', '>'],
        ">"@ =~= seq!['>'],
{
    reveal_strlit("<td");
    reveal_strlit("<tr");
    reveal_strlit("<td>");
    reveal_strlit("</td>");
    reveal_strlit("</tr>");
    reveal_strlit(">");
}

/// Cells that are written one after the other are read one after the other.
proof fn lemma_written_cells(s: Seq<char>, more: Seq<char>)
    requires
        is_plain(s),
    ensures
        ({
            let cells = plain_cells(text::split(more, "<td"@).skip(1));
            plain_cells(text::split(written_cell(s) + more, "<td"@).skip(1)) == seq![
                text::trimmed(s),
            ] + cells
        }),
{
    lemma_marks();
    let td = "<td"@;
    let end = "</td>"@;
    let close = ">"@ + s + end;
    let all = written_cell(s) + more;
    let none = Seq::<char>::empty();
    assert(all =~= none + td + (close + more));
    text::lemma_needs(none, td, '<');
    text::lemma_split_cuts(none, td, close + more);
    assert(text::split(all, td).skip(1) =~= text::split(close + more, td));
    assert forall|i: int| 0 <= i < close.len() implies !#[trigger] text::occurs_at(
        close + more,
        td,
        i,
    ) by {
        if text::occurs_at(close + more, td, i) {
            let t = (close + more).subrange(i, i + 3);
            assert(t[0] == close[i]);
            if 1 <= i < 1 + s.len() {
                assert(close[i] == s[i - 1]);
                assert(s.contains('<'));
            } else {
                assert(i == 1 + s.len());
                assert(t[1] == close[i + 1]);
            }
        }
    }
    text::lemma_split_front(close, more, td);
    let parts = text::split(more, td);
    let got = text::split(close + more, td);
    let first = close + parts[0];
    assert(got =~= seq![first] + parts.skip(1));
    lemma_cells_front(first, parts.skip(1));
    let inner = ">"@ + s;
    assert(first =~= inner + end + parts[0]);
    assert(!inner.contains('<')) by {
        assert forall|i: int| 0 <= i < inner.len() implies inner[i] != '<' by {
            if i > 0 {
                assert(inner[i] == s[i - 1]);
            }
        }
    }
    assert(end[0] == '<');
    text::lemma_needs(inner, end, '<');
    text::lemma_found_behind(inner, end, parts[0]);
    assert(first.take(inner.len() as int) =~= inner);
    lemma_stray_bracket(s);
}

proof fn lemma_stray_bracket(s: Seq<char>)
    requires
        is_plain(s),
    ensures
        untagged(">"@ + s) == s,
{
    lemma_marks();
    lemma_untagged_keeps_plain_text(s);
    let close = ">"@;
    assert(close.drop_last() =~= Seq::<char>::empty());
    assert(!inside_tag(close));
    assert(untagged(close.drop_last()) =~= Seq::<char>::empty());
    assert(untagged(close) == untagged(close.drop_last()));
    lemma_untagged_behind(close, s);
    assert(untagged(close) + s =~= s);
}

/// A row that is written with four cells is read as these cells, trimmed, and the
/// rows behind it are read as if it were not there.
pub proof fn lemma_written_row(
    before: Seq<char>,
    a: Seq<char>,
    b: Seq<char>,
    c: Seq<char>,
    d: Seq<char>,
    rest: Seq<char>,
)
    requires
        !text::has(before, "<tr"@),
        is_plain(a),
        is_plain(b),
        is_plain(c),
        is_plain(d),
    ensures
        list_rows(before + "<tr"@ + written_row(a, b, c, d) + "</tr>"@ + rest) == seq![
            (text::trimmed(a), text::trimmed(b), text::trimmed(c), text::trimmed(d)),
        ] + list_rows(rest),
        list_rows(before).len() == 0,
{
    lemma_marks();
    let tr = "<tr"@;
    let end = "</tr>"@;
    let body = written_row(a, b, c, d);
    let none = Seq::<char>::empty();
    let page = before + tr + body + end + rest;
    assert(page =~= before + tr + (body + end + rest));
    text::lemma_split_cuts(before, tr, body + end + rest);
    assert(text::split(page, tr).skip(1) =~= text::split(body + end + rest, tr));
    assert(text::split(before, tr).skip(1) =~= Seq::<Seq<char>>::empty());
    lemma_body_marks(a, b, c, d);
    let x = body + end;
    assert forall|i: int| 0 <= i < x.len() implies !#[trigger] text::occurs_at(x + rest, tr, i) by {
        if text::occurs_at(x + rest, tr, i) {
            let t = (x + rest).subrange(i, i + 3);
            assert(t[0] == x[i]);
            if i < body.len() {
                assert(x[i] == body[i]);
                assert(body[i] == '<');
                assert(i + 2 < body.len() && (body[i + 1] == '/' || body[i + 2] == 'd'));
                assert(t[1] == body[i + 1] && t[2] == body[i + 2]);
            } else {
                assert(x[i] == end[i - body.len()]);
                assert(i == body.len());
                assert(t[1] == end[1]);
            }
        }
    }
    text::lemma_split_front(x, rest, tr);
    let parts = text::split(rest, tr);
    let got = text::split(x + rest, tr);
    let first = x + parts[0];
    assert(got =~= seq![first] + parts.skip(1));
    lemma_rows_front(first, parts.skip(1));
    assert(first =~= body + end + parts[0]);
    assert(!text::has(body, end)) by {
        text::lemma_has(body, end);
        if text::has(body, end) {
            let i = choose|i: int| text::occurs_at(body, end, i);
            let t = body.subrange(i, i + 5);
            assert(t[0] == body[i] && t[1] == body[i + 1] && t[2] == body[i + 2] && t[3] == body[i
                + 3]);
            assert(body[i] == '<');
        }
    }
    text::lemma_found_behind(body, end, parts[0]);
    assert(first.take(body.len() as int) =~= body);
    lemma_body_cells(a, b, c, d);
    assert(row_of(first) == Some(
        seq![text::trimmed(a), text::trimmed(b), text::trimmed(c), text::trimmed(d)],
    ));
}

/// In a row, an angle bracket opens or closes a cell.
proof fn lemma_body_marks(a: Seq<char>, b: Seq<char>, c: Seq<char>, d: Seq<char>)
    requires
        is_plain(a),
        is_plain(b),
        is_plain(c),
        is_plain(d),
    ensures
        ({
            let body = written_row(a, b, c, d);
            forall|i: int|
                0 <= i < body.len() && #[trigger] body[i] == '<' ==> i + 3 < body.len() && (body[i
                    + 1] == '/' && body[i + 3] == 'd' || body[i + 1] == 't' && body[i + 2] == 'd')
        }),
{
    lemma_marks();
    lemma_cell_marks(">"@, a);
    lemma_cell_marks(">"@ + written_cell(a), b);
    lemma_cell_marks(">"@ + written_cell(a) + written_cell(b), c);
    lemma_cell_marks(">"@ + written_cell(a) + written_cell(b) + written_cell(c), d);
}

proof fn lemma_cell_marks(x: Seq<char>, s: Seq<char>)
    requires
        is_plain(s),
        forall|i: int|
            0 <= i < x.len() && #[trigger] x[i] == '<' ==> i + 3 < x.len() && (x[i + 1] == '/' && x[i
                + 3] == 'd' || x[i + 1] == 't' && x[i + 2] == 'd'),
    ensures
        ({
            let y = x + written_cell(s);
            forall|i: int|
                0 <= i < y.len() && #[trigger] y[i] == '<' ==> i + 3 < y.len() && (y[i + 1] == '/'
                    && y[i + 3] == 'd' || y[i + 1] == 't' && y[i + 2] == 'd')
        }),
{
    lemma_marks();
    let w = written_cell(s);
    let y = x + w;
    let n = x.len() as int;
    assert forall|i: int| 0 <= i < y.len() && #[trigger] y[i] == '<' implies i + 3 < y.len() && (y[i
        + 1] == '/' && y[i + 3] == 'd' || y[i + 1] == 't' && y[i + 2] == 'd') by {
        if i < n {
            assert(x[i] == '<');
            assert(y[i + 1] == x[i + 1] && y[i + 2] == x[i + 2] && y[i + 3] == x[i + 3]);
        } else {
            let k = i - n;
            assert(y[i] == w[k]);
            if 4 <= k < 4 + s.len() {
                assert(w[k] == s[k - 4]);
                assert(s.contains('<'));
            }
            if k == 0 {
                assert(y[i + 1] == w[1] && y[i + 2] == w[2]);
            } else {
                assert(k == 4 + s.len());
                assert(y[i + 1] == w[k + 1] && y[i + 3] == w[k + 3]);
            }
        }
    }
}

proof fn lemma_body_cells(a: Seq<char>, b: Seq<char>, c: Seq<char>, d: Seq<char>)
    requires
        is_plain(a),
        is_plain(b),
        is_plain(c),
        is_plain(d),
    ensures
        plain_cells(text::split(written_row(a, b, c, d), "<td"@).skip(1)) == seq![
            text::trimmed(a),
            text::trimmed(b),
            text::trimmed(c),
            text::trimmed(d),
        ],
{
    lemma_marks();
    let td = "<td"@;
    let none = Seq::<char>::empty();
    let w4 = written_cell(d) + none;
    let w3 = written_cell(c) + w4;
    let w2 = written_cell(b) + w3;
    let w1 = written_cell(a) + w2;
    text::lemma_needs(none, td, '<');
    text::lemma_split_cuts(none, td, none);
    assert(text::split(none, td).skip(1) =~= Seq::<Seq<char>>::empty());
    lemma_written_cells(d, none);
    lemma_written_cells(c, w4);
    lemma_written_cells(b, w3);
    lemma_written_cells(a, w2);
    let row = written_row(a, b, c, d);
    assert(row =~= ">"@ + w1);
    assert forall|i: int| 0 <= i < (">"@).len() implies !#[trigger] text::occurs_at(
        ">"@ + w1,
        td,
        i,
    ) by {
        if text::occurs_at(">"@ + w1, td, i) {
            assert((">"@ + w1).subrange(i, i + 3)[0] == '>');
        }
    }
    text::lemma_split_front(">"@, w1, td);
    assert(plain_cells(text::split(row, td).skip(1)) =~= seq![
        text::trimmed(a),
        text::trimmed(b),
        text::trimmed(c),
        text::trimmed(d),
    ]);
}

} // verus!
