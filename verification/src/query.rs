//! Queries: which list a question looks up, and what is answered where the exact
//! name of a brand or a series is not known.

use crate::kv;
use crate::kv::{Damaged, IndexTable, Stats};
use crate::number;
use crate::order;
use crate::text;
use vstd::prelude::*;

verus! {

broadcast use vstd::string::group_string_axioms;

// ---------------------------------------------------------------------------
// Exact lookups
// ---------------------------------------------------------------------------

/// The table and the key that a question of a kind looks up. A brand is asked for
/// by its exact name, all else without regard to the case of ASCII letters.
pub open spec fn lookup_of(kind: Seq<char>, key: Seq<char>) -> Option<(IndexTable, Seq<char>)> {
    if kind == "model"@ {
        Some((IndexTable::ModelId, text::ascii_lowered(key)))
    } else if kind == "code"@ {
        Some((IndexTable::Code, text::ascii_lowered(key)))
    } else if kind == "codename"@ {
        Some((IndexTable::Codename, text::ascii_lowered(key)))
    } else if kind == "name"@ {
        Some((IndexTable::Name, text::ascii_lowered(key)))
    } else if kind == "brand"@ {
        Some((IndexTable::Brand, key))
    } else {
        None
    }
}

/// The table and the key that a question of a kind looks up; None where the kind
/// is not known.
pub fn lookup(kind: &str, key: &str) -> (r: Option<(IndexTable, String)>)
    ensures
        match r {
            Some(p) => lookup_of(kind@, key@) == Some((p.0, p.1@)),
            None => lookup_of(kind@, key@) is None,
        },
{
    if text::same_str(kind, "model") {
        Some((IndexTable::ModelId, kv::norm(key)))
    } else if text::same_str(kind, "code") {
        Some((IndexTable::Code, kv::norm(key)))
    } else if text::same_str(kind, "codename") {
        Some((IndexTable::Codename, kv::norm(key)))
    } else if text::same_str(kind, "name") {
        Some((IndexTable::Name, kv::norm(key)))
    } else if text::same_str(kind, "brand") {
        Some((IndexTable::Brand, key.to_owned()))
    } else {
        None
    }
}

/// What is said of a kind that is not known.
pub fn unknown_kind(kind: &str) -> (r: String)
    ensures
        r@ == "unknown kind `"@ + kind@ + "` (model|code|codename|name|brand)"@,
{
    let mut out: Vec<char> = text::chars_of("unknown kind `");
    text::append_str(&mut out, kind);
    text::append_str(&mut out, "` (model|code|codename|name|brand)");
    text::string_of(out.as_slice())
}

/// The key under which the text of a search is looked up among model ids,
/// codenames and names; None where the text is blank.
pub open spec fn search_key_of(q: Seq<char>) -> Option<Seq<char>> {
    if text::trimmed(q).len() > 0 {
        Some(text::ascii_lowered(q))
    } else {
        None
    }
}

/// The key under which the text of a search is looked up.
pub fn search_key(q: &str) -> (r: Option<String>)
    ensures
        text::opt_str(r) == search_key_of(q@),
{
    if text::trim_str(q).as_str().is_empty() {
        None
    } else {
        Some(kv::norm(q))
    }
}

// ---------------------------------------------------------------------------
// Questions of the command line
// ---------------------------------------------------------------------------

/// What a query asks for.
pub enum Question {
    /// A key in a table.
    Lookup { table: IndexTable, key: String },
    /// A series of a brand.
    Series { brand: String, series: String },
}

/// The contents of a question.
pub enum QuestionView {
    Lookup { table: IndexTable, key: Seq<char> },
    Series { brand: Seq<char>, series: Seq<char> },
}

impl View for Question {
    type V = QuestionView;

    open spec fn view(&self) -> QuestionView {
        match *self {
            Question::Lookup { table, key } => QuestionView::Lookup { table, key: key@ },
            Question::Series { brand, series } => QuestionView::Series {
                brand: brand@,
                series: series@,
            },
        }
    }
}

/// What the arguments of a query ask for: a kind and a key, and for a series its
/// brand and its name. None where they do not say.
pub open spec fn question_of(args: Seq<Seq<char>>) -> Option<QuestionView> {
    if args.len() < 2 {
        None
    } else if args[0] == "series"@ {
        if args.len() < 3 {
            None
        } else {
            Some(QuestionView::Series { brand: args[1], series: args[2] })
        }
    } else {
        match lookup_of(args[0], args[1]) {
            Some(p) => Some(QuestionView::Lookup { table: p.0, key: p.1 }),
            None => None,
        }
    }
}

/// What the arguments of a query ask for; None where they do not say.
pub fn question(args: &[String]) -> (r: Option<Question>)
    ensures
        match r {
            Some(q) => question_of(text::strs(args@)) == Some(q@),
            None => question_of(text::strs(args@)) is None,
        },
{
    let ghost all = text::strs(args@);
    if args.len() < 2 {
        return None;
    }
    assert(all[0] == args@[0]@ && all[1] == args@[1]@);
    if text::same_str(args[0].as_str(), "series") {
        if args.len() < 3 {
            return None;
        }
        assert(all[2] == args@[2]@);
        Some(Question::Series { brand: args[1].clone(), series: args[2].clone() })
    } else {
        match lookup(args[0].as_str(), args[1].as_str()) {
            Some(p) => Some(Question::Lookup { table: p.0, key: p.1 }),
            None => None,
        }
    }
}

/// What is said above the answer to a query with `n` results.
pub fn answer_headline(n: usize, kind: &str, key: &str) -> (r: String)
    ensures
        r@ == (if n == 0 {
            "no results for "@ + kind@ + " = \""@ + key@ + "\""@
        } else {
            number::decimal(n as nat) + " result(s) for "@ + kind@ + " = \""@ + key@ + "\":"@
        }),
{
    let mut out: Vec<char> = Vec::new();
    if n == 0 {
        text::append_str(&mut out, "no results for ");
        text::append_str(&mut out, kind);
        text::append_str(&mut out, " = \"");
        text::append_str(&mut out, key);
        text::append_str(&mut out, "\"");
        assert(out@ =~= "no results for "@ + kind@ + " = \""@ + key@ + "\""@);
    } else {
        number::push_decimal(&mut out, n as u64);
        text::append_str(&mut out, " result(s) for ");
        text::append_str(&mut out, kind);
        text::append_str(&mut out, " = \"");
        text::append_str(&mut out, key);
        text::append_str(&mut out, "\":");
        assert(out@ =~= number::decimal(n as nat) + " result(s) for "@ + kind@ + " = \""@ + key@
            + "\":"@);
    }
    text::string_of(out.as_slice())
}

/// What is said where a brand is not known by its exact name.
pub fn brand_note(key: &str, brands: &Vec<String>) -> (r: String)
    ensures
        r@ == "(exact brand \""@ + key@ + "\" not found; matching "@ + text::joined(
            text::strs(brands@),
            ", "@,
        ) + ")"@,
{
    let mut out: Vec<char> = text::chars_of("(exact brand \"");
    text::append_str(&mut out, key);
    text::append_str(&mut out, "\" not found; matching ");
    text::append_str(&mut out, text::join(brands, ", ").as_str());
    text::append_str(&mut out, ")");
    text::string_of(out.as_slice())
}

/// What is said where a series is not known by its exact name.
pub fn series_note(brands: &Vec<String>) -> (r: String)
    ensures
        r@ == "(matched brand(s): "@ + text::joined(text::strs(brands@), ", "@) + ")"@,
{
    let mut out: Vec<char> = text::chars_of("(matched brand(s): ");
    text::append_str(&mut out, text::join(brands, ", ").as_str());
    text::append_str(&mut out, ")");
    text::string_of(out.as_slice())
}

/// What is said of a device that the store does not have.
pub fn missing_device(id: u32) -> (r: String)
    ensures
        r@ == "device "@ + number::decimal(id as nat) + " not found"@,
{
    let mut out: Vec<char> = text::chars_of("device ");
    number::push_decimal(&mut out, id as u64);
    text::append_str(&mut out, " not found");
    text::string_of(out.as_slice())
}

// ---------------------------------------------------------------------------
// Table contents
// ---------------------------------------------------------------------------

/// The contents of the entries of a table: keys with the bytes held there.
pub open spec fn entries_view(v: Seq<(String, Vec<u8>)>) -> Seq<(Seq<char>, Seq<u8>)> {
    Seq::new(v.len(), |i: int| (v[i].0@, v[i].1@))
}

/// A name contains a text, without regard to case.
pub open spec fn name_has(name: Seq<char>, sub: Seq<char>) -> bool {
    text::has(text::lowered(name), text::lowered(sub))
}

/// The case of the text that is asked for plays no part.
pub proof fn lemma_name_match_ignores_case(name: Seq<char>, a: Seq<char>, b: Seq<char>)
    requires
        text::lowered(a) == text::lowered(b),
    ensures
        name_has(name, a) == name_has(name, b),
{
}

/// Whether a name contains a text, both in lower case.
pub fn lowered_has(low_name: &str, low: &str) -> (r: bool)
    ensures
        r == text::has(low_name@, low@),
{
    let s = text::chars_of(low_name);
    text::contains_str(s.as_slice(), low)
}

/// Whether a name contains a text that is in lower case.
fn lower_has(name: &str, low: &str) -> (r: bool)
    ensures
        r == text::has(text::lowered(name@), low@),
{
    lowered_has(text::lower(name).as_str(), low)
}

/// Case-insensitive substring match over stored brand names.
pub fn brands_containing(brands: &Vec<String>, sub: &str) -> (r: Vec<String>)
    ensures
        text::strs(r@) == text::select(text::strs(brands@), |b: Seq<char>| name_has(b, sub@)),
{
    let low = text::lower(sub);
    let ghost all = text::strs(brands@);
    let ghost p = |b: Seq<char>| name_has(b, sub@);
    let mut out: Vec<String> = Vec::new();
    assert(text::strs(out@) =~= text::select(all.take(0), p));
    for i in 0..brands.len()
        invariant
            all == text::strs(brands@),
            low@ == text::lowered(sub@),
            p == (|b: Seq<char>| name_has(b, sub@)),
            text::strs(out@) == text::select(all.take(i as int), p),
    {
        let b = &brands[i];
        proof {
            assert(all.take(i + 1).drop_last() =~= all.take(i as int));
            assert(all.take(i + 1).last() == b@);
            assert(p(b@) == name_has(b@, sub@));
        }
        if lower_has(b.as_str(), low.as_str()) {
            let ghost before = text::strs(out@);
            out.push(b.clone());
            assert(text::strs(out@) =~= before.push(b@));
        }
    }
    assert(all.take(brands@.len() as int) =~= all);
    out
}

/// The ids that an entry adds to an answer: those of its list where it is wanted.
/// A list that is damaged spoils a strict answer and adds nothing to another.
pub open spec fn with_ids(
    before: Option<Seq<u64>>,
    wanted: bool,
    held: Seq<u8>,
    strict: bool,
) -> Option<Seq<u64>> {
    match before {
        None => None,
        Some(ids) => if !wanted {
            Some(ids)
        } else {
            match kv::ids_read(held) {
                Some(more) => Some(ids + more),
                None => if strict {
                    None
                } else {
                    Some(ids)
                },
            }
        },
    }
}

/// Adds the ids of an entry to an answer.
fn add_ids(out: &mut Vec<u64>, held: &Vec<u8>, strict: bool) -> (r: Result<(), Damaged>)
    ensures
        match r {
            Ok(()) => with_ids(Some(old(out)@), true, held@, strict) == Some(final(out)@),
            Err(_) => with_ids(Some(old(out)@), true, held@, strict) is None,
        },
{
    match kv::ids_for(Some(held.as_slice())) {
        Ok(more) => {
            let mut list = more;
            out.append(&mut list);
            Ok(())
        },
        Err(e) => if strict {
            Err(e)
        } else {
            Ok(())
        },
    }
}

/// The ids of all brands whose name contains a text.
pub open spec fn fuzzy_brand_ids(
    entries: Seq<(Seq<char>, Seq<u8>)>,
    sub: Seq<char>,
    strict: bool,
) -> Option<Seq<u64>>
    decreases entries.len(),
{
    if entries.len() == 0 {
        Some(Seq::empty())
    } else {
        with_ids(
            fuzzy_brand_ids(entries.drop_last(), sub, strict),
            name_has(entries.last().0, sub),
            entries.last().1,
            strict,
        )
    }
}

/// An answer that was spoiled stays so.
proof fn lemma_brand_ids_spoiled(
    entries: Seq<(Seq<char>, Seq<u8>)>,
    sub: Seq<char>,
    strict: bool,
    i: int,
)
    requires
        0 <= i <= entries.len(),
        fuzzy_brand_ids(entries.take(i), sub, strict) is None,
    ensures
        fuzzy_brand_ids(entries, sub, strict) is None,
    decreases entries.len(),
{
    if i < entries.len() {
        assert(entries.drop_last().take(i) =~= entries.take(i));
        lemma_brand_ids_spoiled(entries.drop_last(), sub, strict, i);
    } else {
        assert(entries.take(i) =~= entries);
    }
}

/// The answer to a question for a brand: the ids of the brand with that name, or
/// those of all brands whose name contains it where there is none.
pub open spec fn brand_answer(
    exact: Seq<u64>,
    entries: Seq<(Seq<char>, Seq<u8>)>,
    key: Seq<char>,
    strict: bool,
) -> Option<Seq<u64>> {
    if exact.len() > 0 {
        Some(exact)
    } else {
        fuzzy_brand_ids(entries, key, strict)
    }
}

/// Answers a question for a brand. `exact` are the ids under the name as it
/// stands and `entries` the whole table of brands, which is looked at only where
/// there are none. A strict answer fails on a damaged list, another passes over
/// it.
pub fn answer_brand(
    exact: Vec<u64>,
    entries: &Vec<(String, Vec<u8>)>,
    key: &str,
    strict: bool,
) -> (r: Result<Vec<u64>, Damaged>)
    ensures
        match r {
            Ok(ids) => brand_answer(exact@, entries_view(entries@), key@, strict) == Some(ids@),
            Err(_) => brand_answer(exact@, entries_view(entries@), key@, strict) is None,
        },
{
    if exact.len() > 0 {
        return Ok(exact);
    }
    let low = text::lower(key);
    let ghost all = entries_view(entries@);
    let mut out: Vec<u64> = Vec::new();
    assert(out@ =~= Seq::<u64>::empty());
    for i in 0..entries.len()
        invariant
            all == entries_view(entries@),
            low@ == text::lowered(key@),
            exact@.len() == 0,
            fuzzy_brand_ids(all.take(i as int), key@, strict) == Some(out@),
    {
        proof {
            assert(all.take(i + 1).drop_last() =~= all.take(i as int));
            assert(all.take(i + 1).last() == (entries@[i as int].0@, entries@[i as int].1@));
        }
        if lower_has(entries[i].0.as_str(), low.as_str()) {
            if let Err(e) = add_ids(&mut out, &entries[i].1, strict) {
                proof {
                    lemma_brand_ids_spoiled(all, key@, strict, i + 1);
                }
                return Err(e);
            }
        }
    }
    assert(all.take(entries@.len() as int) =~= all);
    Ok(out)
}

/// An entry of the table of series is of a brand, where one is given, and its
/// series contains a text.
pub open spec fn series_match(key: Seq<char>, brand: Option<Seq<char>>, sub: Seq<char>) -> bool {
    match text::index_of(key, seq!['\0']) {
        Some(i) => name_has(key.skip(i + 1), sub) && (brand matches Some(b) ==> key.take(i) == b),
        None => false,
    }
}

/// The ids of all series of a brand that contain a text; None where a list that
/// is wanted is damaged.
pub open spec fn series_ids(
    entries: Seq<(Seq<char>, Seq<u8>)>,
    brand: Option<Seq<char>>,
    sub: Seq<char>,
) -> Option<Seq<u64>>
    decreases entries.len(),
{
    if entries.len() == 0 {
        Some(Seq::empty())
    } else {
        with_ids(
            series_ids(entries.drop_last(), brand, sub),
            series_match(entries.last().0, brand, sub),
            entries.last().1,
            true,
        )
    }
}

proof fn lemma_series_ids_spoiled(
    entries: Seq<(Seq<char>, Seq<u8>)>,
    brand: Option<Seq<char>>,
    sub: Seq<char>,
    i: int,
)
    requires
        0 <= i <= entries.len(),
        series_ids(entries.take(i), brand, sub) is None,
    ensures
        series_ids(entries, brand, sub) is None,
    decreases entries.len(),
{
    if i < entries.len() {
        assert(entries.drop_last().take(i) =~= entries.take(i));
        lemma_series_ids_spoiled(entries.drop_last(), brand, sub, i);
    } else {
        assert(entries.take(i) =~= entries);
    }
}

/// The contents of an optional text.
pub open spec fn opt_text(s: Option<&str>) -> Option<Seq<char>> {
    match s {
        Some(t) => Some(t@),
        None => None,
    }
}

/// Whether an entry of the table of series is wanted; `low` is in lower case.
fn is_series_match(key: &str, brand: Option<&str>, low: &str, Ghost(sub): Ghost<Seq<char>>) -> (r:
    bool)
    requires
        low@ == text::lowered(sub),
    ensures
        r == series_match(key@, opt_text(brand), sub),
{
    let chars = text::chars_of(key);
    let mut sep: Vec<char> = Vec::new();
    sep.push('\0');
    assert(sep@ =~= seq!['\0']);
    let n: usize = chars.len();
    match text::find(chars.as_slice(), sep.as_slice()) {
        Some(i) => {
            let b: &[char] = &chars.as_slice()[0..i];
            let s: &[char] = &chars.as_slice()[i + 1..n];
            assert(b@ =~= key@.take(i as int));
            assert(s@ =~= key@.skip(i + 1));
            let series = text::string_of(s);
            let right_brand = match brand {
                Some(q) => text::is_str(b, q),
                None => true,
            };
            lower_has(series.as_str(), low) && right_brand
        },
        None => false,
    }
}

/// Case-insensitive substring match over stored series names.
/// brand: optional filter (exact brand name, e.g. "华为").
pub fn series_contains(
    entries: &Vec<(String, Vec<u8>)>,
    brand: Option<&str>,
    series_sub: &str,
) -> (r: Result<Vec<u64>, Damaged>)
    ensures
        match r {
            Ok(ids) => series_ids(entries_view(entries@), opt_text(brand), series_sub@) == Some(
                ids@,
            ),
            Err(_) => series_ids(entries_view(entries@), opt_text(brand), series_sub@) is None,
        },
{
    let low = text::lower(series_sub);
    let ghost all = entries_view(entries@);
    let ghost bv = opt_text(brand);
    let mut out: Vec<u64> = Vec::new();
    assert(out@ =~= Seq::<u64>::empty());
    for i in 0..entries.len()
        invariant
            all == entries_view(entries@),
            bv == opt_text(brand),
            low@ == text::lowered(series_sub@),
            series_ids(all.take(i as int), bv, series_sub@) == Some(out@),
    {
        proof {
            assert(all.take(i + 1).drop_last() =~= all.take(i as int));
            assert(all.take(i + 1).last() == (entries@[i as int].0@, entries@[i as int].1@));
        }
        if is_series_match(entries[i].0.as_str(), brand, low.as_str(), Ghost(series_sub@)) {
            if let Err(e) = add_ids(&mut out, &entries[i].1, true) {
                proof {
                    lemma_series_ids_spoiled(all, bv, series_sub@, i + 1);
                }
                return Err(e);
            }
        }
    }
    assert(all.take(entries@.len() as int) =~= all);
    Ok(out)
}

/// The ids of all series of brands that contain a text, brand by brand. A damaged
/// list spoils a strict answer; otherwise the brand adds nothing.
pub open spec fn fuzzy_series_ids(
    brands: Seq<Seq<char>>,
    entries: Seq<(Seq<char>, Seq<u8>)>,
    sub: Seq<char>,
    strict: bool,
) -> Option<Seq<u64>>
    decreases brands.len(),
{
    if brands.len() == 0 {
        Some(Seq::empty())
    } else {
        match (
            fuzzy_series_ids(brands.drop_last(), entries, sub, strict),
            series_ids(entries, Some(brands.last()), sub),
        ) {
            (Some(ids), Some(more)) => Some(ids + more),
            (Some(ids), None) => if strict {
                None
            } else {
                Some(ids)
            },
            (None, _) => None,
        }
    }
}

proof fn lemma_fuzzy_series_spoiled(
    brands: Seq<Seq<char>>,
    entries: Seq<(Seq<char>, Seq<u8>)>,
    sub: Seq<char>,
    strict: bool,
    i: int,
)
    requires
        0 <= i <= brands.len(),
        fuzzy_series_ids(brands.take(i), entries, sub, strict) is None,
    ensures
        fuzzy_series_ids(brands, entries, sub, strict) is None,
    decreases brands.len(),
{
    if i < brands.len() {
        assert(brands.drop_last().take(i) =~= brands.take(i));
        lemma_fuzzy_series_spoiled(brands.drop_last(), entries, sub, strict, i);
    } else {
        assert(brands.take(i) =~= brands);
    }
}

/// The answer to a question for a series.
pub struct SeriesAnswer {
    pub ids: Vec<u64>,
    /// The series was not known by its exact name.
    pub fuzzy: bool,
    /// The brands that were tried where it was not.
    pub brands: Vec<String>,
}

/// The contents of an answer for a series.
pub struct SeriesAnswerView {
    pub ids: Seq<u64>,
    pub fuzzy: bool,
    pub brands: Seq<Seq<char>>,
}

impl View for SeriesAnswer {
    type V = SeriesAnswerView;

    open spec fn view(&self) -> SeriesAnswerView {
        SeriesAnswerView {
            ids: self.ids@,
            fuzzy: self.fuzzy,
            brands: text::strs(self.brands@),
        }
    }
}

/// The answer to a question for a series of a brand: the ids under the exact
/// names, or, where there are none, those of the series that contain the text, of
/// the brands that contain the name.
pub open spec fn series_answer(
    exact: Seq<u64>,
    brands: Seq<Seq<char>>,
    entries: Seq<(Seq<char>, Seq<u8>)>,
    brand: Seq<char>,
    series: Seq<char>,
    strict: bool,
) -> Option<SeriesAnswerView> {
    if exact.len() > 0 {
        Some(SeriesAnswerView { ids: exact, fuzzy: false, brands: Seq::empty() })
    } else {
        let tried = text::select(brands, |b: Seq<char>| name_has(b, brand));
        match fuzzy_series_ids(tried, entries, series, strict) {
            Some(ids) => Some(SeriesAnswerView { ids, fuzzy: true, brands: tried }),
            None => None,
        }
    }
}

/// Answers a question for a series. `exact` are the ids under the exact names,
/// `brands` the names in the table of brands and `entries` the whole table of
/// series, which are looked at only where there are none.
pub fn answer_series(
    exact: Vec<u64>,
    brands: &Vec<String>,
    entries: &Vec<(String, Vec<u8>)>,
    brand: &str,
    series: &str,
    strict: bool,
) -> (r: Result<SeriesAnswer, Damaged>)
    ensures
        ({
            let answer = series_answer(
                exact@,
                text::strs(brands@),
                entries_view(entries@),
                brand@,
                series@,
                strict,
            );
            match r {
                Ok(a) => answer == Some(a@),
                Err(_) => answer is None,
            }
        }),
{
    if exact.len() > 0 {
        let none: Vec<String> = Vec::new();
        assert(text::strs(none@) =~= Seq::<Seq<char>>::empty());
        return Ok(SeriesAnswer { ids: exact, fuzzy: false, brands: none });
    }
    let tried = brands_containing(brands, brand);
    let ghost all = text::strs(tried@);
    let ghost ev = entries_view(entries@);
    let mut out: Vec<u64> = Vec::new();
    assert(out@ =~= Seq::<u64>::empty());
    for i in 0..tried.len()
        invariant
            all == text::strs(tried@),
            all == text::select(text::strs(brands@), |b: Seq<char>| name_has(b, brand@)),
            ev == entries_view(entries@),
            exact@.len() == 0,
            fuzzy_series_ids(all.take(i as int), ev, series@, strict) == Some(out@),
    {
        proof {
            assert(all.take(i + 1).drop_last() =~= all.take(i as int));
            assert(all.take(i + 1).last() == tried@[i as int]@);
        }
        match series_contains(entries, Some(tried[i].as_str()), series) {
            Ok(more) => {
                let mut list = more;
                out.append(&mut list);
            },
            Err(e) => {
                if strict {
                    proof {
                        lemma_fuzzy_series_spoiled(all, ev, series@, strict, i + 1);
                    }
                    return Err(e);
                }
            },
        }
    }
    assert(all.take(tried@.len() as int) =~= all);
    Ok(SeriesAnswer { ids: out, fuzzy: true, brands: tried })
}

// ---------------------------------------------------------------------------
// Statistics
// ---------------------------------------------------------------------------

/// The number of devices of each brand, in the order of the table; None where a
/// list is damaged.
pub open spec fn brand_counts(entries: Seq<(Seq<char>, Seq<u8>)>) -> Option<
    Seq<(Seq<char>, u64)>,
>
    decreases entries.len(),
{
    if entries.len() == 0 {
        Some(Seq::empty())
    } else {
        match (brand_counts(entries.drop_last()), kv::ids_read(entries.last().1)) {
            (Some(before), Some(ids)) => Some(before.push((entries.last().0, ids.len() as u64))),
            _ => None,
        }
    }
}

/// The contents of a list of counts.
pub open spec fn counts_view(v: Seq<(String, u64)>) -> Seq<(Seq<char>, u64)> {
    Seq::new(v.len(), |i: int| (v[i].0@, v[i].1))
}

/// The keys that put the largest count first.
pub open spec fn count_keys(counts: Seq<(Seq<char>, u64)>) -> Seq<u64> {
    Seq::new(counts.len(), |i: int| (u64::MAX - counts[i].1) as u64)
}

/// The counts in an order of their positions.
pub open spec fn arranged(counts: Seq<(Seq<char>, u64)>, v: Seq<usize>) -> Seq<(Seq<char>, u64)> {
    Seq::new(v.len(), |i: int| counts[v[i] as int])
}

proof fn lemma_counts_spoiled(entries: Seq<(Seq<char>, Seq<u8>)>, i: int)
    requires
        0 <= i <= entries.len(),
        brand_counts(entries.take(i)) is None,
    ensures
        brand_counts(entries) is None,
    decreases entries.len(),
{
    if i < entries.len() {
        assert(entries.drop_last().take(i) =~= entries.take(i));
        lemma_counts_spoiled(entries.drop_last(), i);
    } else {
        assert(entries.take(i) =~= entries);
    }
}

/// The number of devices of each brand, the largest first and brands with the
/// same number in the order of the table.
pub fn per_brand(entries: &Vec<(String, Vec<u8>)>) -> (r: Result<Vec<(String, u64)>, Damaged>)
    ensures
        match r {
            Ok(v) => brand_counts(entries_view(entries@)) is Some && exists|o: Seq<usize>| #[trigger]
                order::is_order(count_keys(brand_counts(entries_view(entries@))->0), o)
                    && counts_view(v@) == arranged(
                    brand_counts(entries_view(entries@))->0,
                    o,
                ),
            Err(_) => brand_counts(entries_view(entries@)) is None,
        },
{
    let ghost all = entries_view(entries@);
    let mut keys: Vec<u64> = Vec::new();
    let mut counts: Vec<u64> = Vec::new();
    for i in 0..entries.len()
        invariant
            all == entries_view(entries@),
            brand_counts(all.take(i as int)) is Some,
            (brand_counts(all.take(i as int))->0).len() == i,
            keys@ == count_keys(brand_counts(all.take(i as int))->0),
            counts@.len() == i,
            forall|k: int|
                0 <= k < i ==> (brand_counts(all.take(i as int))->0)[k] == (
                entries@[k].0@,
                #[trigger] counts@[k],
            ),
    {
        proof {
            assert(all.take(i + 1).drop_last() =~= all.take(i as int));
            assert(all.take(i + 1).last() == (entries@[i as int].0@, entries@[i as int].1@));
        }
        match kv::ids_for(Some(entries[i].1.as_slice())) {
            Ok(ids) => {
                let n: u64 = ids.len() as u64;
                let ghost before = brand_counts(all.take(i as int))->0;
                keys.push(u64::MAX - n);
                counts.push(n);
                assert(keys@ =~= count_keys(before.push((entries@[i as int].0@, n))));
            },
            Err(e) => {
                proof {
                    lemma_counts_spoiled(all, i + 1);
                }
                return Err(e);
            },
        }
    }
    assert(all.take(entries@.len() as int) =~= all);
    let ghost cv = brand_counts(all)->0;
    let o = order::order(&keys);
    let mut out: Vec<(String, u64)> = Vec::new();
    for i in 0..o.len()
        invariant
            order::is_order(keys@, o@),
            keys@.len() == entries@.len(),
            cv.len() == entries@.len(),
            counts@.len() == entries@.len(),
            forall|k: int|
                0 <= k < entries@.len() ==> cv[k] == (entries@[k].0@, #[trigger] counts@[k]),
            counts_view(out@) == arranged(cv, o@.take(i as int)),
    {
        let p: usize = o[i];
        let ghost before = out@;
        out.push((entries[p].0.clone(), counts[p]));
        proof {
            assert(cv[p as int] == (entries@[p as int].0@, counts@[p as int]));
            assert(counts_view(out@) =~= counts_view(before).push(cv[p as int]));
            assert(arranged(cv, o@.take(i + 1)) =~= arranged(cv, o@.take(i as int)).push(
                cv[p as int],
            ));
        }
    }
    assert(o@.take(o@.len() as int) =~= o@);
    Ok(out)
}

/// The largest brand comes first, and no brand is behind a smaller one.
pub proof fn lemma_largest_brands_first(
    counts: Seq<(Seq<char>, u64)>,
    o: Seq<usize>,
    i: int,
    j: int,
)
    requires
        order::is_order(count_keys(counts), o),
        0 <= i < j < o.len(),
    ensures
        arranged(counts, o)[i].1 >= arranged(counts, o)[j].1,
{
    assert(order::precedes(count_keys(counts), o[i] as int, o[j] as int));
}

/// The statistics of a store, from the sizes of its tables, the time at which it
/// was built and its table of brands.
pub fn stats(
    devices: u64,
    model_ids: u64,
    codenames: u64,
    built_at: Option<String>,
    brands: &Vec<(String, Vec<u8>)>,
) -> (r: Result<Stats, Damaged>)
    ensures
        match r {
            Ok(s) => {
                &&& s.devices == devices
                &&& s.model_ids == model_ids
                &&& s.codenames == codenames
                &&& s.built_at@ == (match built_at {
                    Some(t) => t@,
                    None => Seq::empty(),
                })
                &&& brand_counts(entries_view(brands@)) is Some
                &&& exists|o: Seq<usize>| #[trigger]
                    order::is_order(count_keys(brand_counts(entries_view(brands@))->0), o)
                        && counts_view(s.per_brand@) == arranged(
                        brand_counts(entries_view(brands@))->0,
                        o,
                    )
            },
            Err(_) => brand_counts(entries_view(brands@)) is None,
        },
{
    match per_brand(brands) {
        Ok(per_brand) => {
            let built_at = match built_at {
                Some(t) => t,
                None => String::new(),
            };
            Ok(Stats { devices, model_ids, codenames, built_at, per_brand })
        },
        Err(e) => Err(e),
    }
}

// ---------------------------------------------------------------------------
// What is answered
// ---------------------------------------------------------------------------

/// What stands behind the key, and behind brand and series, plays no part; a series
/// is asked for with three arguments, all else with two, and the key is looked up as
/// a question of its kind.
pub proof fn lemma_question(
    kind: Seq<char>,
    key: Seq<char>,
    third: Seq<char>,
    more: Seq<Seq<char>>,
)
    ensures
        kind == "series"@ ==> question_of(seq![kind, key, third] + more) == Some(
            QuestionView::Series { brand: key, series: third },
        ),
        kind == "series"@ ==> question_of(seq![kind, key]) is None,
        kind != "series"@ ==> question_of(seq![kind, key] + more) == question_of(seq![kind, key]),
        kind != "series"@ ==> (question_of(seq![kind, key]) is Some <==> lookup_of(
            kind,
            key,
        ) is Some),
        question_of(seq![kind]) is None,
        question_of(seq![kind, key]) matches Some(q) ==> (q matches QuestionView::Lookup {
            table,
            key: k,
        } && lookup_of(kind, key) == Some((table, k))),
{
}

/// The list of an entry is damaged.
pub open spec fn damaged(entry: (Seq<char>, Seq<u8>)) -> bool {
    kv::ids_read(entry.1) is None
}

/// The id stands in the list of an entry.
pub open spec fn lists_id(entry: (Seq<char>, Seq<u8>), id: u64) -> bool {
    kv::ids_read(entry.1) matches Some(ids) && ids.contains(id)
}

/// The entry is of a brand whose lowered name contains the lowered text.
pub open spec fn is_like(entry: (Seq<char>, Seq<u8>), sub: Seq<char>) -> bool {
    text::has(text::lowered(entry.0), text::lowered(sub))
}

proof fn lemma_added(ids: Seq<u64>, more: Seq<u64>, id: u64)
    ensures
        (ids + more).contains(id) <==> ids.contains(id) || more.contains(id),
{
    let all = ids + more;
    if ids.contains(id) {
        let k = choose|k: int| 0 <= k < ids.len() && ids[k] == id;
        assert(all[k] == id);
    }
    if more.contains(id) {
        let k = choose|k: int| 0 <= k < more.len() && more[k] == id;
        assert(all[ids.len() + k] == id);
    }
    if all.contains(id) {
        let k = choose|k: int| 0 <= k < all.len() && all[k] == id;
        if k < ids.len() {
            assert(ids[k] == id);
        } else {
            assert(more[k - ids.len()] == id);
        }
    }
}

/// A brand that is not known by its exact name, in words: a strict answer fails
/// exactly where a list of a brand like it is damaged, another never does, and the
/// answer has just the ids in the lists of these brands.
pub proof fn lemma_like_brands(
    entries: Seq<(Seq<char>, Seq<u8>)>,
    sub: Seq<char>,
    strict: bool,
    id: u64,
)
    ensures
        brand_answer(Seq::empty(), entries, sub, strict) is None <==> strict && exists|k: int|
            0 <= k < entries.len() && is_like(#[trigger] entries[k], sub) && damaged(entries[k]),
        brand_answer(Seq::empty(), entries, sub, strict) matches Some(ids) ==> (ids.contains(id)
            <==> exists|k: int|
            0 <= k < entries.len() && is_like(#[trigger] entries[k], sub) && lists_id(
                entries[k],
                id,
            )),
    decreases entries.len(),
{
    if entries.len() > 0 {
        let init = entries.drop_last();
        let n = init.len() as int;
        lemma_like_brands(init, sub, strict, id);
        assert(entries[n] == entries.last());
        assert forall|k: int| 0 <= k < n implies #[trigger] init[k] == entries[k] by {}
        if exists|k: int|
            0 <= k < n && is_like(#[trigger] init[k], sub) && damaged(init[k]) {
            let k = choose|k: int|
                0 <= k < n && is_like(#[trigger] init[k], sub) && damaged(init[k]);
            assert(is_like(entries[k], sub) && damaged(entries[k]));
        }
        if exists|k: int|
            0 <= k < entries.len() && is_like(#[trigger] entries[k], sub) && damaged(entries[k]) {
            let k = choose|k: int|
                0 <= k < entries.len() && is_like(#[trigger] entries[k], sub) && damaged(
                    entries[k],
                );
            if k < n {
                assert(is_like(init[k], sub) && damaged(init[k]));
            }
        }
        if exists|k: int|
            0 <= k < n && is_like(#[trigger] init[k], sub) && lists_id(init[k], id) {
            let k = choose|k: int|
                0 <= k < n && is_like(#[trigger] init[k], sub) && lists_id(init[k], id);
            assert(is_like(entries[k], sub) && lists_id(entries[k], id));
        }
        if exists|k: int|
            0 <= k < entries.len() && is_like(#[trigger] entries[k], sub) && lists_id(
                entries[k],
                id,
            ) {
            let k = choose|k: int|
                0 <= k < entries.len() && is_like(#[trigger] entries[k], sub) && lists_id(
                    entries[k],
                    id,
                );
            if k < n {
                assert(is_like(init[k], sub) && lists_id(init[k], id));
            }
        }
        match (fuzzy_brand_ids(init, sub, strict), kv::ids_read(entries.last().1)) {
            (Some(ids), Some(more)) => {
                lemma_added(ids, more, id);
            },
            _ => {},
        }
    }
}

/// The key of the entry has a brand, which is the one that is asked for where one is,
/// and behind it a series whose lowered name contains the lowered text.
pub open spec fn is_like_series(
    entry: (Seq<char>, Seq<u8>),
    brand: Option<Seq<char>>,
    sub: Seq<char>,
) -> bool {
    exists|b: Seq<char>, s: Seq<char>|
        entry.0 == #[trigger] kv::series_key_of(b, s) && !b.contains('\0') && (brand matches Some(
            q,
        ) ==> b == q) && text::has(text::lowered(s), text::lowered(sub))
}

proof fn lemma_series_match(entry: (Seq<char>, Seq<u8>), brand: Option<Seq<char>>, sub: Seq<char>)
    ensures
        series_match(entry.0, brand, sub) <==> is_like_series(entry, brand, sub),
{
    let key = entry.0;
    let zero = seq!['\0'];
    text::lemma_index_from(key, zero, 0);
    if series_match(key, brand, sub) {
        let i = text::index_of(key, zero)->0;
        let b = key.take(i);
        let s = key.skip(i + 1);
        assert(key.subrange(i, i + 1)[0] == '\0');
        assert(key =~= kv::series_key_of(b, s));
        assert forall|j: int| 0 <= j < b.len() implies b[j] != '\0' by {
            if b[j] == '\0' {
                assert(key.subrange(j, j + 1) =~= zero);
                assert(text::occurs_at(key, zero, j));
            }
        }
    }
    if is_like_series(entry, brand, sub) {
        let (b, s) = choose|b: Seq<char>, s: Seq<char>|
            entry.0 == #[trigger] kv::series_key_of(b, s) && !b.contains('\0') && (brand matches Some(
                q,
            ) ==> b == q) && text::has(text::lowered(s), text::lowered(sub));
        let n = b.len() as int;
        assert(key.subrange(n, n + 1) =~= zero);
        assert(text::occurs_at(key, zero, n));
        assert forall|j: int| 0 <= j < n implies !text::occurs_at(key, zero, j) by {
            if text::occurs_at(key, zero, j) {
                assert(key.subrange(j, j + 1)[0] == '\0');
                assert(b[j] == '\0');
            }
        }
        text::lemma_index_is(key, zero, n);
        assert(key.take(n) =~= b);
        assert(key.skip(n + 1) =~= s);
    }
}

/// A series that is asked for by a part of its name, in words: there is an answer
/// exactly where no list of a series like it is damaged, and it has just the ids in
/// the lists of these series.
pub proof fn lemma_like_series(
    entries: Seq<(Seq<char>, Seq<u8>)>,
    brand: Option<Seq<char>>,
    sub: Seq<char>,
    id: u64,
)
    ensures
        series_ids(entries, brand, sub) is None <==> exists|k: int|
            0 <= k < entries.len() && is_like_series(#[trigger] entries[k], brand, sub) && damaged(
                entries[k],
            ),
        series_ids(entries, brand, sub) matches Some(ids) ==> (ids.contains(id) <==> exists|k: int|
            0 <= k < entries.len() && is_like_series(#[trigger] entries[k], brand, sub) && lists_id(
                entries[k],
                id,
            )),
    decreases entries.len(),
{
    if entries.len() > 0 {
        let init = entries.drop_last();
        let n = init.len() as int;
        lemma_like_series(init, brand, sub, id);
        lemma_series_match(entries.last(), brand, sub);
        assert(entries[n] == entries.last());
        assert forall|k: int| 0 <= k < n implies #[trigger] init[k] == entries[k] by {}
        if exists|k: int|
            0 <= k < n && is_like_series(#[trigger] init[k], brand, sub) && damaged(init[k]) {
            let k = choose|k: int|
                0 <= k < n && is_like_series(#[trigger] init[k], brand, sub) && damaged(init[k]);
            assert(is_like_series(entries[k], brand, sub) && damaged(entries[k]));
        }
        if exists|k: int|
            0 <= k < entries.len() && is_like_series(#[trigger] entries[k], brand, sub) && damaged(
                entries[k],
            ) {
            let k = choose|k: int|
                0 <= k < entries.len() && is_like_series(#[trigger] entries[k], brand, sub)
                    && damaged(entries[k]);
            if k < n {
                assert(is_like_series(init[k], brand, sub) && damaged(init[k]));
            }
        }
        if exists|k: int|
            0 <= k < n && is_like_series(#[trigger] init[k], brand, sub) && lists_id(init[k], id) {
            let k = choose|k: int|
                0 <= k < n && is_like_series(#[trigger] init[k], brand, sub) && lists_id(
                    init[k],
                    id,
                );
            assert(is_like_series(entries[k], brand, sub) && lists_id(entries[k], id));
        }
        if exists|k: int|
            0 <= k < entries.len() && is_like_series(#[trigger] entries[k], brand, sub) && lists_id(
                entries[k],
                id,
            ) {
            let k = choose|k: int|
                0 <= k < entries.len() && is_like_series(#[trigger] entries[k], brand, sub)
                    && lists_id(entries[k], id);
            if k < n {
                assert(is_like_series(init[k], brand, sub) && lists_id(init[k], id));
            }
        }
        match (series_ids(init, brand, sub), kv::ids_read(entries.last().1)) {
            (Some(ids), Some(more)) => {
                lemma_added(ids, more, id);
            },
            _ => {},
        }
    }
}

/// What brands add to an answer for a series, in words: a strict answer fails exactly
/// where one of the brands has no answer of its own, another passes over such brands,
/// and the answer has just the ids that the brands answer with.
pub proof fn lemma_brands_series(
    brands: Seq<Seq<char>>,
    entries: Seq<(Seq<char>, Seq<u8>)>,
    sub: Seq<char>,
    strict: bool,
    id: u64,
)
    ensures
        fuzzy_series_ids(brands, entries, sub, strict) is None <==> strict && exists|k: int|
            0 <= k < brands.len() && series_ids(entries, Some(#[trigger] brands[k]), sub) is None,
        fuzzy_series_ids(brands, entries, sub, strict) matches Some(ids) ==> (ids.contains(id)
            <==> exists|k: int|
            0 <= k < brands.len() && (series_ids(entries, Some(#[trigger] brands[k]), sub) matches Some(
                more,
            ) && more.contains(id))),
    decreases brands.len(),
{
    if brands.len() > 0 {
        let init = brands.drop_last();
        let n = init.len() as int;
        lemma_brands_series(init, entries, sub, strict, id);
        assert(brands[n] == brands.last());
        assert forall|k: int| 0 <= k < n implies #[trigger] init[k] == brands[k] by {}
        if exists|k: int|
            0 <= k < n && series_ids(entries, Some(#[trigger] init[k]), sub) is None {
            let k = choose|k: int|
                0 <= k < n && series_ids(entries, Some(#[trigger] init[k]), sub) is None;
            assert(series_ids(entries, Some(brands[k]), sub) is None);
        }
        if exists|k: int|
            0 <= k < brands.len() && series_ids(entries, Some(#[trigger] brands[k]), sub) is None {
            let k = choose|k: int|
                0 <= k < brands.len() && series_ids(
                    entries,
                    Some(#[trigger] brands[k]),
                    sub,
                ) is None;
            if k < n {
                assert(series_ids(entries, Some(init[k]), sub) is None);
            }
        }
        if exists|k: int|
            0 <= k < n && (series_ids(entries, Some(#[trigger] init[k]), sub) matches Some(more)
                && more.contains(id)) {
            let k = choose|k: int|
                0 <= k < n && (series_ids(entries, Some(#[trigger] init[k]), sub) matches Some(more)
                    && more.contains(id));
            assert(series_ids(entries, Some(brands[k]), sub) is Some);
        }
        if exists|k: int|
            0 <= k < brands.len() && (series_ids(
                entries,
                Some(#[trigger] brands[k]),
                sub,
            ) matches Some(more) && more.contains(id)) {
            let k = choose|k: int|
                0 <= k < brands.len() && (series_ids(
                    entries,
                    Some(#[trigger] brands[k]),
                    sub,
                ) matches Some(more) && more.contains(id));
            if k < n {
                assert(series_ids(entries, Some(init[k]), sub) is Some);
            }
        }
        match (
            fuzzy_series_ids(init, entries, sub, strict),
            series_ids(entries, Some(brands.last()), sub),
        ) {
            (Some(ids), Some(more)) => {
                lemma_added(ids, more, id);
            },
            _ => {},
        }
    }
}

/// Each brand is counted once, with as many devices as its list has ids; there are no
/// counts exactly where a list is damaged.
pub proof fn lemma_each_brand_is_counted(entries: Seq<(Seq<char>, Seq<u8>)>, k: int)
    requires
        0 <= k < entries.len(),
    ensures
        damaged(entries[k]) ==> brand_counts(entries) is None,
        brand_counts(entries) is None ==> exists|j: int|
            0 <= j < entries.len() && damaged(#[trigger] entries[j]),
        brand_counts(entries) matches Some(counts) ==> {
            &&& counts.len() == entries.len()
            &&& counts[k].0 == entries[k].0
            &&& counts[k].1 == (kv::ids_read(entries[k].1)->0).len() as u64
        },
    decreases entries.len(),
{
    let init = entries.drop_last();
    let n = init.len() as int;
    assert(entries[n] == entries.last());
    if n > 0 {
        let j = if k < n {
            k
        } else {
            0
        };
        lemma_each_brand_is_counted(init, j);
        assert(init[j] == entries[j]);
        if brand_counts(init) is None {
            let i = choose|i: int| 0 <= i < init.len() && damaged(#[trigger] init[i]);
            assert(damaged(entries[i]));
        }
        if damaged(entries.last()) {
            assert(damaged(entries[n]));
        }
    } else {
        assert(brand_counts(init) == Some(Seq::<(Seq<char>, u64)>::empty()));
    }
}

/// A name that is known exactly is answered with its own ids, whatever else the store
/// holds and whether or not it is damaged; the brands that are tried for another are
/// those whose lowered name contains the lowered text.
pub proof fn lemma_exact_names_win(
    exact: Seq<u64>,
    brands: Seq<Seq<char>>,
    entries: Seq<(Seq<char>, Seq<u8>)>,
    brand: Seq<char>,
    series: Seq<char>,
    strict: bool,
    x: Seq<char>,
)
    ensures
        exact.len() >= 1 ==> brand_answer(exact, entries, brand, strict) == Some(exact),
        exact.len() >= 1 ==> (series_answer(
            exact,
            brands,
            entries,
            brand,
            series,
            strict,
        ) matches Some(a) && a.ids == exact && !a.fuzzy && a.brands.len() == 0),
        exact.len() == 0 ==> (series_answer(
            exact,
            brands,
            entries,
            brand,
            series,
            strict,
        ) matches Some(a) ==> a.fuzzy && (a.brands.contains(x) <==> brands.contains(x)
            && text::has(text::lowered(x), text::lowered(brand)))),
{
    let p = |b: Seq<char>| name_has(b, brand);
    text::lemma_select(brands, p, x);
    assert(p(x) == name_has(x, brand));
}

/// A series that is not known exactly, in words: the answer has just the ids in the
/// lists of series like it, of a known brand like the one that is asked for; a list
/// that is damaged spoils a strict answer.
pub proof fn lemma_series_like(
    brands: Seq<Seq<char>>,
    entries: Seq<(Seq<char>, Seq<u8>)>,
    brand: Seq<char>,
    series: Seq<char>,
    strict: bool,
    id: u64,
)
    ensures
        ({
            let answer = series_answer(Seq::empty(), brands, entries, brand, series, strict);
            let some = |b: Seq<char>|
                brands.contains(b) && text::has(text::lowered(b), text::lowered(brand));
            &&& answer is None <==> strict && exists|b: Seq<char>| #[trigger]
                some(b) && series_ids(entries, Some(b), series) is None
            &&& answer matches Some(a) ==> (a.ids.contains(id) <==> exists|b: Seq<char>| #[trigger]
                some(b) && (series_ids(entries, Some(b), series) matches Some(ids) && ids.contains(
                    id,
                )))
        }),
{
    let p = |b: Seq<char>| name_has(b, brand);
    let tried = text::select(brands, p);
    let some = |b: Seq<char>|
        brands.contains(b) && text::has(text::lowered(b), text::lowered(brand));
    lemma_brands_series(tried, entries, series, strict, id);
    assert forall|b: Seq<char>| tried.contains(b) <==> #[trigger] some(b) by {
        text::lemma_select(brands, p, b);
        assert(p(b) == name_has(b, brand));
    }
    assert forall|k: int| 0 <= k < tried.len() implies some(#[trigger] tried[k]) by {
        assert(tried.contains(tried[k]));
    }
    if exists|b: Seq<char>| #[trigger] some(b) && series_ids(entries, Some(b), series) is None {
        let b = choose|b: Seq<char>| #[trigger]
            some(b) && series_ids(entries, Some(b), series) is None;
        assert(tried.contains(b));
        let k = choose|k: int| 0 <= k < tried.len() && tried[k] == b;
        assert(series_ids(entries, Some(tried[k]), series) is None);
    }
    if exists|b: Seq<char>| #[trigger]
        some(b) && (series_ids(entries, Some(b), series) matches Some(ids) && ids.contains(id)) {
        let b = choose|b: Seq<char>| #[trigger]
            some(b) && (series_ids(entries, Some(b), series) matches Some(ids) && ids.contains(id));
        assert(tried.contains(b));
        let k = choose|k: int| 0 <= k < tried.len() && tried[k] == b;
        assert(series_ids(entries, Some(tried[k]), series) is Some);
    }
}

/// Brands with as many devices as others come in the order of the table, and each
/// brand of the table is there.
pub proof fn lemma_equal_brands_keep_their_order(
    counts: Seq<(Seq<char>, u64)>,
    o: Seq<usize>,
    i: int,
    j: int,
    k: int,
)
    requires
        order::is_order(count_keys(counts), o),
        0 <= i < j < o.len(),
        0 <= k < counts.len() <= usize::MAX,
    ensures
        arranged(counts, o)[i].1 == arranged(counts, o)[j].1 ==> o[i] < o[j],
        arranged(counts, o).len() == counts.len(),
        arranged(counts, o).contains(counts[k]),
{
    order::lemma_order(count_keys(counts), o, i, j, 0);
    assert(o.contains(k as usize));
    let n = choose|n: int| 0 <= n < o.len() && o[n] == k as usize;
    assert(arranged(counts, o)[n] == counts[k]);
}

} // verus!
