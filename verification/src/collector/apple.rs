//! Apple's page "Identify your iPhone model".
//!
//! The page has a heading for each device, `<h2 class="gb-header">NAME</h2>`,
//! and a paragraph `Model numbers: A2849 (...), A3105 (...)` below it.

use crate::collector::entry;
use crate::collector::entry::DeviceEntry;
use crate::collector::html;
use crate::collector::tables;
use crate::collector::wiki;
use crate::seen::SeenSet;
use crate::text;
use vstd::prelude::*;

verus! {

broadcast use vstd::string::group_string_axioms;

/// The position of the first heading or list of model numbers.
pub open spec fn marker(s: Seq<char>) -> Option<int> {
    tables::earliest(text::index_of(s, "gb-header"@), text::index_of(s, "Model numbers:"@))
}

/// The text of a heading that begins at the start of `s`: what stands between
/// the end of its tag and the next tag. None where either is missing.
pub open spec fn heading(s: Seq<char>) -> Option<Seq<char>> {
    match text::index_of(s, ">"@) {
        None => None,
        Some(p) => match text::index_of(s.skip(p + 1), "<"@) {
            None => None,
            Some(q) => Some(text::trimmed(html::untagged(s.skip(p + 1).take(q)))),
        },
    }
}

/// The model numbers of a list that begins at the start of `s` and ends at the
/// next tag.
pub open spec fn listed(s: Seq<char>) -> Seq<Seq<char>> {
    let end = match text::index_of(s, "<"@) {
        Some(p) => p,
        None => s.len() as int,
    };
    wiki::a_numbers(html::untagged(s.take(end)), true)
}

/// The lists of model numbers with the last heading before each. A list counts
/// where it is not empty and the heading names an iPhone. Reading stops at a
/// heading that is cut off.
pub open spec fn pairs_from(s: Seq<char>, header: Option<Seq<char>>) -> Seq<
    (Seq<char>, Seq<Seq<char>>),
>
    decreases s.len(),
{
    match marker(s) {
        None => Seq::empty(),
        Some(i) => {
            proof {
                lemma_marker(s);
            }
            let here = s.skip(i);
            if text::begins(here, "gb-header"@) {
                match heading(here) {
                    None => Seq::empty(),
                    Some(name) => pairs_from(
                        s.skip(i + 8),
                        if name.len() > 0 {
                            Some(name)
                        } else {
                            header
                        },
                    ),
                }
            } else {
                let more = pairs_from(s.skip(i + 1), header);
                match header {
                    Some(name) if listed(here).len() > 0 && text::has(name, "iPhone"@) => seq![
                        (name, listed(here)),
                    ] + more,
                    _ => more,
                }
            }
        },
    }
}

/// By what a pair is recognised: its name and its model numbers.
pub open spec fn pair_key(p: (Seq<char>, Seq<Seq<char>>)) -> Seq<Seq<char>> {
    seq![p.0, text::joined(p.1, "|"@)]
}

/// An earlier pair has the same key.
pub open spec fn repeated(v: Seq<(Seq<char>, Seq<Seq<char>>)>, key: Seq<Seq<char>>) -> bool {
    exists|j: int| 0 <= j < v.len() && pair_key(#[trigger] v[j]) == key
}

/// The pairs without the repeated ones.
pub open spec fn unique_pairs(v: Seq<(Seq<char>, Seq<Seq<char>>)>) -> Seq<
    (Seq<char>, Seq<Seq<char>>),
>
    decreases v.len(),
{
    if v.len() == 0 {
        Seq::empty()
    } else if repeated(v.drop_last(), pair_key(v.last())) {
        unique_pairs(v.drop_last())
    } else {
        unique_pairs(v.drop_last()).push(v.last())
    }
}

/// The devices of the page with their model numbers.
pub open spec fn support_pairs(page: Seq<char>) -> Seq<(Seq<char>, Seq<Seq<char>>)> {
    unique_pairs(pairs_from(page, None))
}

/// The contents of a list of pairs.
pub open spec fn pairs_view(v: Seq<(String, Vec<String>)>) -> Seq<(Seq<char>, Seq<Seq<char>>)> {
    Seq::new(v.len(), |i: int| (v[i].0@, text::strs(v[i].1@)))
}

/// A marker lies within the text and is at least nine characters long.
pub proof fn lemma_marker(s: Seq<char>)
    ensures
        marker(s) matches Some(i) ==> 0 <= i && i + 9 <= s.len(),
{
    reveal_strlit("gb-header");
    reveal_strlit("Model numbers:");
    tables::lemma_found(s, "gb-header");
    tables::lemma_found(s, "Model numbers:");
}

/// `p` is how `v` begins.
pub open spec fn leads(
    p: Seq<(Seq<char>, Seq<Seq<char>>)>,
    v: Seq<(Seq<char>, Seq<Seq<char>>)>,
) -> bool {
    p.len() <= v.len() && p == v.take(p.len() as int)
}

/// In a page that ends with a closing tag, a marker is where it is whatever
/// follows the page, and the closing tag stands behind it.
proof fn lemma_marker_stays(a: Seq<char>, b: Seq<char>)
    requires
        text::ends(a, "</p>"@),
        marker(a) is Some,
    ensures
        marker(a + b) == marker(a),
        marker(a)->0 + 13 <= a.len(),
{
    reveal_strlit("gb-header");
    reveal_strlit("Model numbers:");
    reveal_strlit("</p>");
    let g = "gb-header"@;
    let m = "Model numbers:"@;
    let n = a.len() as int;
    assert(a.subrange(n - 4, n)[3] == a.last());
    assert(a.subrange(n - 4, n)[0] == a[n - 4]);
    text::lemma_index_from(a, g, 0);
    text::lemma_index_from(a, m, 0);
    text::lemma_index_from(b, g, 0);
    text::lemma_index_from(b, m, 0);
    match text::index_of(a, g) {
        Some(i) => {
            text::lemma_index_before(a, b, g);
            if i + 9 > n - 4 {
                assert(a.subrange(i, i + 9)[n - 4 - i] == '<' || i > n - 4);
                if i > n - 4 {
                    assert(a.subrange(i, i + 9).len() == 9);
                }
            }
        },
        None => {
            text::lemma_index_beyond(a, b, g);
        },
    }
    match text::index_of(a, m) {
        Some(i) => {
            text::lemma_index_before(a, b, m);
            if i + 14 > n - 4 {
                assert(a.subrange(i, i + 14)[n - 4 - i] == '<' || i > n - 4);
            }
        },
        None => {
            text::lemma_index_beyond(a, b, m);
        },
    }
}

/// What is read at a marker of such a page does not depend on what follows it,
/// unless a heading is cut off by its end.
proof fn lemma_reading_stays(a: Seq<char>, b: Seq<char>)
    requires
        text::ends(a, "</p>"@),
    ensures
        listed(a + b) == listed(a),
        heading(a) is Some ==> heading(a + b) == heading(a),
{
    reveal_strlit("<");
    reveal_strlit(">");
    reveal_strlit("</p>");
    let n = a.len() as int;
    let open = "<"@;
    let close = ">"@;
    assert(a.subrange(n - 4, n - 3) =~= open) by {
        assert(a.subrange(n - 4, n)[0] == a[n - 4]);
    }
    assert(text::occurs_at(a, open, n - 4));
    text::lemma_index_from(a, open, 0);
    text::lemma_index_before(a, b, open);
    let end = text::index_of(a, open)->0;
    assert((a + b).take(end) =~= a.take(end));
    match text::index_of(a, close) {
        None => {},
        Some(p) => {
            text::lemma_index_from(a, close, 0);
            text::lemma_index_before(a, b, close);
            let rest = a.skip(p + 1);
            assert((a + b).skip(p + 1) =~= rest + b);
            match text::index_of(rest, open) {
                None => {},
                Some(q) => {
                    text::lemma_index_from(rest, open, 0);
                    text::lemma_index_before(rest, b, open);
                    assert((rest + b).take(q) =~= rest.take(q));
                },
            }
        },
    }
}

proof fn lemma_pairs_stay(a: Seq<char>, b: Seq<char>, header: Option<Seq<char>>)
    requires
        text::ends(a, "</p>"@),
    ensures
        leads(pairs_from(a, header), pairs_from(a + b, header)),
    decreases a.len(),
{
    reveal_strlit("</p>");
    reveal_strlit("gb-header");
    let none = Seq::<(Seq<char>, Seq<Seq<char>>)>::empty();
    let all = pairs_from(a + b, header);
    assert(all.take(0) =~= none);
    match marker(a) {
        None => {},
        Some(i) => {
            lemma_marker(a);
            lemma_marker_stays(a, b);
            let here = a.skip(i);
            let n = a.len() as int;
            assert((a + b).skip(i) =~= here + b);
            assert(here.subrange(here.len() - 4, here.len() as int) =~= a.subrange(n - 4, n));
            lemma_reading_stays(here, b);
            assert((here + b).subrange(0, 9) =~= here.subrange(0, 9));
            if text::begins(here, "gb-header"@) {
                match heading(here) {
                    None => {},
                    Some(name) => {
                        let rest = a.skip(i + 8);
                        let h = if name.len() > 0 {
                            Some(name)
                        } else {
                            header
                        };
                        assert((a + b).skip(i + 8) =~= rest + b);
                        assert(rest.subrange(rest.len() - 4, rest.len() as int) =~= a.subrange(
                            n - 4,
                            n,
                        ));
                        lemma_pairs_stay(rest, b, h);
                    },
                }
            } else {
                let rest = a.skip(i + 1);
                assert((a + b).skip(i + 1) =~= rest + b);
                assert(rest.subrange(rest.len() - 4, rest.len() as int) =~= a.subrange(n - 4, n));
                lemma_pairs_stay(rest, b, header);
                let more = pairs_from(rest, header);
                let more_all = pairs_from(rest + b, header);
                match header {
                    Some(name) if listed(here).len() > 0 && text::has(name, "iPhone"@) => {
                        let one = seq![(name, listed(here))];
                        assert((one + more_all).take(more.len() + 1int) =~= one + more_all.take(
                            more.len() as int,
                        ));
                    },
                    _ => {},
                }
            }
        },
    }
}

proof fn lemma_unique_pairs_stay(v: Seq<(Seq<char>, Seq<Seq<char>>)>, n: int)
    requires
        0 <= n <= v.len(),
    ensures
        leads(unique_pairs(v.take(n)), unique_pairs(v)),
    decreases v.len(),
{
    if n < v.len() {
        assert(v.drop_last().take(n) =~= v.take(n));
        lemma_unique_pairs_stay(v.drop_last(), n);
        let p = unique_pairs(v.take(n));
        assert(p =~= unique_pairs(v).take(p.len() as int));
    } else {
        assert(v.take(n) =~= v);
        let p = unique_pairs(v);
        assert(p.take(p.len() as int) =~= p);
    }
}

/// Later text changes no entry: the devices of a page that ends with a closing tag
/// are the first devices of that page with anything behind it.
pub proof fn lemma_later_text_changes_nothing(page: Seq<char>, more: Seq<char>)
    requires
        text::ends(page, "</p>"@),
    ensures
        leads(support_pairs(page), support_pairs(page + more)),
{
    lemma_pairs_stay(page, more, None);
    let v = pairs_from(page + more, None);
    lemma_unique_pairs_stay(v, pairs_from(page, None).len() as int);
}

/// The earliest of the two markers.
pub fn next_marker(s: &[char]) -> (r: Option<usize>)
    ensures
        text::as_int(r) == marker(s@),
{
    match (text::find_str(s, "gb-header"), text::find_str(s, "Model numbers:")) {
        (Some(a), Some(b)) => Some(
            if a <= b {
                a
            } else {
                b
            },
        ),
        (Some(a), None) => Some(a),
        (None, b) => b,
    }
}

/// Reads the heading at the start of a slice.
fn read_heading(s: &[char]) -> (r: Option<String>)
    ensures
        text::opt_str(r) == heading(s@),
{
    proof {
        reveal_strlit(">");
        tables::lemma_found(s@, ">");
    }
    let n: usize = s.len();
    match text::find_str(s, ">") {
        None => None,
        Some(p) => {
            let after: &[char] = &s[p + 1..n];
            assert(after@ =~= s@.skip(p + 1));
            match text::find_str(after, "<") {
                None => None,
                Some(q) => {
                    let inner: &[char] = &after[0..q];
                    assert(inner@ =~= after@.take(q as int));
                    let plain = html::strip(inner);
                    Some(text::string_of(text::trim(plain.as_slice())))
                },
            }
        },
    }
}

/// Reads the list of model numbers at the start of a slice.
fn read_numbers(s: &[char]) -> (r: Vec<String>)
    ensures
        text::strs(r@) == listed(s@),
{
    let end: usize = match text::find_str(s, "<") {
        Some(p) => p,
        None => s.len(),
    };
    let inner: &[char] = &s[0..end];
    assert(inner@ =~= s@.take(end as int));
    let plain = html::strip(inner);
    let found = wiki::find_a_numbers(plain.as_slice(), true);
    text::strings_of(&found)
}

/// What has been read so far: the pairs met, kept without repetitions.
struct PairList {
    seen: SeenSet,
    out: Vec<(String, Vec<String>)>,
}

impl PairList {
    spec fn holds(&self, v: Seq<(Seq<char>, Seq<Seq<char>>)>) -> bool {
        &&& pairs_view(self.out@) == unique_pairs(v)
        &&& forall|k: Seq<Seq<char>>| #[trigger] self.seen@.contains(k) <==> repeated(v, k)
    }

    fn offer(&mut self, name: String, ids: Vec<String>)
        ensures
            forall|v: Seq<(Seq<char>, Seq<Seq<char>>)>| #[trigger]
                old(self).holds(v) ==> final(self).holds(v.push((name@, text::strs(ids@)))),
    {
        let ghost pair = (name@, text::strs(ids@));
        let mut key: Vec<String> = Vec::new();
        key.push(name.clone());
        key.push(text::join(&ids, "|"));
        assert(text::strs(key@) =~= pair_key(pair));
        if self.seen.insert(key) {
            self.out.push((name, ids));
            assert(pairs_view(self.out@) =~= pairs_view(old(self).out@).push(pair));
        }
        proof {
            assert forall|v: Seq<(Seq<char>, Seq<Seq<char>>)>| #[trigger]
                old(self).holds(v) implies self.holds(v.push(pair)) by {
                assert(v.push(pair).drop_last() =~= v);
                assert forall|k: Seq<Seq<char>>| #[trigger]
                    self.seen@.contains(k) <==> repeated(v.push(pair), k) by {
                    if repeated(v, k) {
                        let j = choose|j: int| 0 <= j < v.len() && pair_key(#[trigger] v[j]) == k;
                        assert(pair_key(v.push(pair)[j]) == k);
                    }
                    assert(pair_key(v.push(pair)[v.len() as int]) == pair_key(pair));
                    if repeated(v.push(pair), k) && k != pair_key(pair) {
                        let j = choose|j: int|
                            0 <= j < v.push(pair).len() && pair_key(#[trigger] v.push(pair)[j])
                                == k;
                        assert(pair_key(v[j]) == k);
                    }
                }
            }
        }
    }
}

/// Parses the page into device names and their model numbers.
pub fn parse_apple_support(html: &str) -> (r: Vec<(String, Vec<String>)>)
    ensures
        pairs_view(r@) == support_pairs(html@),
{
    let chars = text::chars_of(html);
    let mut rest: &[char] = chars.as_slice();
    let mut header: Option<String> = None;
    let mut list = PairList { seen: SeenSet::new(), out: Vec::new() };
    let ghost mut met: Seq<(Seq<char>, Seq<Seq<char>>)> = Seq::empty();
    assert(pairs_view(list.out@) =~= unique_pairs(met));
    assert(list.holds(met));
    assert(met + pairs_from(rest@, None) =~= pairs_from(html@, None));
    loop
        invariant
            list.holds(met),
            met + pairs_from(rest@, text::opt_str(header)) == pairs_from(html@, None),
        decreases rest.len(),
    {
        let ghost r0 = rest@;
        let ghost h0 = text::opt_str(header);
        proof {
            lemma_marker(r0);
            assert(met + Seq::<(Seq<char>, Seq<Seq<char>>)>::empty() =~= met);
        }
        let i = match next_marker(rest) {
            Some(i) => i,
            None => {
                return list.out;
            },
        };
        let here: &[char] = &rest[i..rest.len()];
        assert(here@ =~= r0.skip(i as int));
        if text::starts_with_str(here, "gb-header") {
            match read_heading(here) {
                None => {
                    return list.out;
                },
                Some(name) => {
                    if !name.as_str().is_empty() {
                        header = Some(name);
                    }
                },
            }
            rest = &rest[i + 8..rest.len()];
            assert(rest@ =~= r0.skip(i + 8));
        } else {
            let ids = read_numbers(here);
            let ghost idv = text::strs(ids@);
            rest = &rest[i + 1..rest.len()];
            assert(rest@ =~= r0.skip(i + 1));
            if let Some(name) = &header {
                let name_chars = text::chars_of(name.as_str());
                if ids.len() > 0 && text::contains_str(name_chars.as_slice(), "iPhone") {
                    let ghost before = met;
                    proof {
                        met = met.push((name@, idv));
                        assert(met + pairs_from(rest@, h0) =~= before + (seq![(name@, idv)]
                            + pairs_from(rest@, h0)));
                    }
                    list.offer(name.clone(), ids);
                }
            }
        }
    }
}

/// The entry of a device of the page.
pub open spec fn pair_entry(p: (Seq<char>, Seq<Seq<char>>)) -> entry::EntryView {
    entry::EntryView {
        brand: "Apple"@,
        name: p.0,
        series: None,
        code: None,
        codename: None,
        models: entry::one_model(p.1, p.0),
    }
}

/// The entries of the first devices of the page, up to the limit.
pub open spec fn support_entries(page: Seq<char>, limit: Option<usize>) -> Seq<entry::EntryView> {
    let all = support_pairs(page);
    let n = match limit {
        Some(l) if l < all.len() => l as nat,
        _ => all.len(),
    };
    Seq::new(n, |i: int| pair_entry(all[i]))
}

/// The entries of the page.
pub fn apple_support_entries(page: &str, limit: Option<usize>) -> (r: Vec<DeviceEntry>)
    ensures
        entry::entries_view(r@) == support_entries(page@, limit),
{
    let pairs = parse_apple_support(page);
    let ghost all = support_pairs(page@);
    let n: usize = match limit {
        Some(l) => if l < pairs.len() {
            l
        } else {
            pairs.len()
        },
        None => pairs.len(),
    };
    let mut out: Vec<DeviceEntry> = Vec::new();
    for i in 0..n
        invariant
            n <= pairs@.len(),
            pairs_view(pairs@) == all,
            out@.len() == i,
            forall|k: int| 0 <= k < i ==> (#[trigger] out@[k])@ == pair_entry(all[k]),
    {
        let name = pairs[i].0.clone();
        let ids = text::clone_strings(&pairs[i].1);
        assert(pairs_view(pairs@)[i as int] == (name@, text::strs(ids@)));
        out.push(
            DeviceEntry {
                brand: "Apple".to_owned(),
                name: name.clone(),
                series: None,
                code: None,
                codename: None,
                models: entry::single_model(ids, name),
            },
        );
    }
    assert(entry::entries_view(out@) =~= support_entries(page@, limit));
    out
}

// ---------------------------------------------------------------------------
// What becomes of the devices of a page
// ---------------------------------------------------------------------------

proof fn lemma_page_marks()
    ensures
        "gb-header"@ =~= seq!['g', 'b', '-', 'h', 'e', 'a', 'd', 'e', 'r'],
        "Model numbers:"@ =~= seq![
            'M',
            'o',
            'd',
            'e',
            'l',
            ' ',
            'n',
            'u',
            'm',
            'b',
            'e',
            'r',
            's',
            ':',
        ],
        "<"@ =~= seq!['<'],
        ">"@ =~= seq!['>'],
{
    reveal_strlit("gb-header");
    reveal_strlit("Model numbers:");
    reveal_strlit("<");
    reveal_strlit(">");
}

/// Neither a heading nor a list of model numbers begins in the text.
pub open spec fn unmarked(s: Seq<char>) -> bool {
    !text::has(s, "gb-header"@) && !text::has(s, "Model numbers:"@)
}

/// What stands before the next mark plays no part.
proof fn lemma_passed_over(a: Seq<char>, b: Seq<char>, header: Option<Seq<char>>)
    requires
        unmarked(a),
        b.len() == 0 || b[0] == 'g' || b[0] == 'M' || b[0] == '<',
    ensures
        pairs_from(a + b, header) == pairs_from(b, header),
{
    lemma_page_marks();
    let g = "gb-header"@;
    let m = "Model numbers:"@;
    text::lemma_none_across(a, b, g);
    text::lemma_none_across(a, b, m);
    text::lemma_index_behind(a, b, g);
    text::lemma_index_behind(a, b, m);
    let n = a.len() as int;
    let s = a + b;
    match marker(b) {
        Some(i) => {
            assert(marker(s) == Some(n + i));
            lemma_marker(b);
            lemma_marker(s);
            assert(s.skip(n + i) =~= b.skip(i));
            assert(s.skip(n + i + 8) =~= b.skip(i + 8));
            assert(s.skip(n + i + 1) =~= b.skip(i + 1));
        },
        None => {
            assert(marker(s) is None);
        },
    }
}

/// A device as the page has it: a heading with a name, and below it a list of model
/// numbers.
pub open spec fn written_device(
    tag: Seq<char>,
    name: Seq<char>,
    between: Seq<char>,
    numbers: Seq<char>,
) -> Seq<char> {
    "gb-header"@ + tag + ">"@ + name + "<"@ + between + "Model numbers:"@ + numbers
}

proof fn lemma_heading_text(tag: Seq<char>, name: Seq<char>, more: Seq<char>)
    requires
        !tag.contains('>'),
        !name.contains('<'),
        !name.contains('>'),
    ensures
        heading("gb-header"@ + tag + ">"@ + name + "<"@ + more) == Some(text::trimmed(name)),
{
    lemma_page_marks();
    let here = "gb-header"@ + tag + ">"@ + name + "<"@ + more;
    let open = "gb-header"@ + tag;
    assert(!open.contains('>')) by {
        assert forall|i: int| 0 <= i < open.len() implies open[i] != '>' by {
            if i >= 9 {
                assert(open[i] == tag[i - 9]);
            }
        }
    }
    assert(">"@[0] == '>' && "<"@[0] == '<');
    text::lemma_needs(open, ">"@, '>');
    let behind = name + "<"@ + more;
    assert(here =~= open + ">"@ + behind);
    text::lemma_found_behind(open, ">"@, behind);
    let p = open.len() as int;
    assert(here.skip(p + 1) =~= behind);
    text::lemma_needs(name, "<"@, '<');
    text::lemma_found_behind(name, "<"@, more);
    assert(behind.take(name.len() as int) =~= name);
    html::lemma_untagged_keeps_plain_text(name);
}

/// A heading that is written is read, and what follows stands below it.
pub proof fn lemma_written_heading(
    before: Seq<char>,
    tag: Seq<char>,
    name: Seq<char>,
    between: Seq<char>,
    rest: Seq<char>,
    header: Option<Seq<char>>,
)
    requires
        unmarked(before),
        !tag.contains('>'),
        !name.contains('<'),
        !name.contains('>'),
        text::trimmed(name).len() > 0,
        unmarked(seq!['r'] + tag + ">"@ + name + "<"@ + between),
        rest.len() == 0 || rest[0] == 'g' || rest[0] == 'M' || rest[0] == '<',
    ensures
        pairs_from(
            before + "gb-header"@ + tag + ">"@ + name + "<"@ + between + rest,
            header,
        ) == pairs_from(rest, Some(text::trimmed(name))),
{
    lemma_page_marks();
    let g = "gb-header"@;
    let front = tag + ">"@ + name + "<"@ + between;
    let here = g + front + rest;
    assert(before + g + tag + ">"@ + name + "<"@ + between + rest =~= before + here);
    lemma_passed_over(before, here, header);
    let title = text::trimmed(name);
    assert(here =~= g + tag + ">"@ + name + "<"@ + (between + rest));
    lemma_heading_text(tag, name, between + rest);
    let r = seq!['r'] + tag + ">"@ + name + "<"@ + between;
    assert(here.skip(8) =~= r + rest);
    assert(here =~= g + (front + rest));
    lemma_at_heading(front + rest, title, header);
    lemma_passed_over(r, rest, Some(title));
}

proof fn lemma_at_heading(more: Seq<char>, title: Seq<char>, header: Option<Seq<char>>)
    requires
        heading("gb-header"@ + more) == Some(title),
        title.len() > 0,
    ensures
        pairs_from("gb-header"@ + more, header) == pairs_from(
            ("gb-header"@ + more).skip(8),
            Some(title),
        ),
{
    lemma_page_marks();
    let g = "gb-header"@;
    let here = g + more;
    assert(here.subrange(0, 9) =~= g);
    assert(text::occurs_at(here, g, 0));
    assert(text::index_of(here, g) == Some(0int));
    text::lemma_index_from(here, "Model numbers:"@, 0);
    assert(marker(here) == Some(0int));
    assert(here.skip(0) =~= here);
    assert(text::begins(here, g));
}

/// A list of model numbers that is written is read: the numbers in ascending order
/// and each once belong to the heading, where that is of an iPhone and there is a
/// number. What follows is read as if it were not there.
pub proof fn lemma_written_list(numbers: Seq<char>, rest: Seq<char>, title: Seq<char>) -> (ids: Seq<
    Seq<char>,
>)
    requires
        !numbers.contains('<'),
        !numbers.contains('>'),
        unmarked("odel numbers:"@ + numbers),
        rest.len() > 0 ==> rest[0] == '<',
    ensures
        text::increasing(ids),
        forall|x: Seq<char>| #[trigger]
            ids.contains(x) <==> wiki::names_number("Model numbers:"@ + numbers, x, true),
        pairs_from("Model numbers:"@ + numbers + rest, Some(title)) == (if text::has(
            title,
            "iPhone"@,
        ) && ids.len() > 0 {
            seq![(title, ids)]
        } else {
            Seq::empty()
        }) + pairs_from(rest, Some(title)),
{
    lemma_page_marks();
    reveal_strlit("odel numbers:");
    let m = "Model numbers:"@;
    let list = m + numbers + rest;
    let ids = wiki::a_numbers(m + numbers, true);
    lemma_numbers_of_list(numbers, rest);
    wiki::lemma_a_numbers(m + numbers, true);
    assert(list =~= m + (numbers + rest));
    lemma_at_list(numbers + rest, title);
    let o = "odel numbers:"@ + numbers;
    assert(list.skip(1) =~= o + rest);
    lemma_passed_over(o, rest, Some(title));
    ids
}

proof fn lemma_numbers_of_list(numbers: Seq<char>, rest: Seq<char>)
    requires
        !numbers.contains('<'),
        !numbers.contains('>'),
        rest.len() > 0 ==> rest[0] == '<',
    ensures
        listed("Model numbers:"@ + numbers + rest) == wiki::a_numbers(
            "Model numbers:"@ + numbers,
            true,
        ),
{
    lemma_page_marks();
    let list = "Model numbers:"@ + numbers + rest;
    let inner = "Model numbers:"@ + numbers;
    assert(!inner.contains('<') && !inner.contains('>')) by {
        assert forall|i: int| 0 <= i < inner.len() implies inner[i] != '<' && inner[i] != '>' by {
            if i >= 14 {
                assert(inner[i] == numbers[i - 14]);
            }
        }
    }
    assert("<"@[0] == '<');
    text::lemma_needs(inner, "<"@, '<');
    if rest.len() > 0 {
        assert(list =~= inner + "<"@ + rest.skip(1));
        text::lemma_found_behind(inner, "<"@, rest.skip(1));
        assert(list.take(inner.len() as int) =~= inner);
    } else {
        assert(list =~= inner);
        assert(list.take(list.len() as int) =~= inner);
    }
    html::lemma_untagged_keeps_plain_text(inner);
}

proof fn lemma_at_list(more: Seq<char>, title: Seq<char>)
    ensures
        ({
            let list = "Model numbers:"@ + more;
            pairs_from(list, Some(title)) == (if text::has(title, "iPhone"@) && listed(list).len()
                > 0 {
                seq![(title, listed(list))]
            } else {
                Seq::empty()
            }) + pairs_from(list.skip(1), Some(title))
        }),
{
    lemma_page_marks();
    let g = "gb-header"@;
    let m = "Model numbers:"@;
    let list = m + more;
    assert(list.subrange(0, 14) =~= m);
    assert(text::occurs_at(list, m, 0));
    assert(text::index_of(list, m) == Some(0int));
    text::lemma_index_from(list, g, 0);
    assert(marker(list) == Some(0int));
    assert(list.skip(0) =~= list);
    assert(!text::begins(list, g)) by {
        if text::begins(list, g) {
            assert(list.subrange(0, 9)[0] == 'M');
        }
    }
    let rest = pairs_from(list.skip(1), Some(title));
    assert(Seq::<(Seq<char>, Seq<Seq<char>>)>::empty() + rest =~= rest);
}

/// A device that is written is read: its name, trimmed, with the model numbers of
/// its list in ascending order and each once, where the name is that of an iPhone
/// and the list has a number. What follows is read as if it were not there, below
/// the heading.
pub proof fn lemma_written_device(
    before: Seq<char>,
    tag: Seq<char>,
    name: Seq<char>,
    between: Seq<char>,
    numbers: Seq<char>,
    rest: Seq<char>,
    header: Option<Seq<char>>,
) -> (ids: Seq<Seq<char>>)
    requires
        unmarked(before),
        !tag.contains('>'),
        !name.contains('<'),
        !name.contains('>'),
        text::trimmed(name).len() > 0,
        unmarked(seq!['r'] + tag + ">"@ + name + "<"@ + between),
        !numbers.contains('<'),
        !numbers.contains('>'),
        unmarked("odel numbers:"@ + numbers),
        rest.len() > 0 ==> rest[0] == '<',
    ensures
        text::increasing(ids),
        forall|x: Seq<char>| #[trigger]
            ids.contains(x) <==> wiki::names_number("Model numbers:"@ + numbers, x, true),
        pairs_from(before + written_device(tag, name, between, numbers) + rest, header) == (
        if text::has(text::trimmed(name), "iPhone"@) && ids.len() > 0 {
            seq![(text::trimmed(name), ids)]
        } else {
            Seq::empty()
        }) + pairs_from(rest, Some(text::trimmed(name))),
{
    lemma_page_marks();
    let list = "Model numbers:"@ + numbers + rest;
    lemma_written_heading(before, tag, name, between, list, header);
    assert(before + "gb-header"@ + tag + ">"@ + name + "<"@ + between + list =~= before
        + written_device(tag, name, between, numbers) + rest);
    lemma_written_list(numbers, rest, text::trimmed(name))
}

/// A pair is that of an iPhone: its name says so, and it has model numbers, each an
/// `A` with four digits, in ascending order.
pub open spec fn is_iphone(pair: (Seq<char>, Seq<Seq<char>>)) -> bool {
    &&& text::has(pair.0, "iPhone"@)
    &&& pair.1.len() > 0
    &&& text::increasing(pair.1)
    &&& forall|k: int|
        0 <= k < pair.1.len() ==> {
            let x = #[trigger] pair.1[k];
            &&& x.len() == 5
            &&& x[0] == 'A'
            &&& forall|j: int| 1 <= j < 5 ==> '0' <= #[trigger] x[j] <= '9'
        }
}

proof fn lemma_listed_numbers(here: Seq<char>, name: Seq<char>)
    requires
        listed(here).len() > 0,
        text::has(name, "iPhone"@),
    ensures
        is_iphone((name, listed(here))),
{
    let ids = listed(here);
    let end = match text::index_of(here, "<"@) {
        Some(p) => p,
        None => here.len() as int,
    };
    let source = html::untagged(here.take(end));
    wiki::lemma_a_numbers(source, true);
    assert forall|k: int| 0 <= k < ids.len() implies {
        let x = #[trigger] ids[k];
        &&& x.len() == 5
        &&& x[0] == 'A'
        &&& forall|j: int| 1 <= j < 5 ==> '0' <= #[trigger] x[j] <= '9'
    } by {
        assert(ids.contains(ids[k]));
        assert(wiki::names_number(source, ids[k], true));
    }
}

spec fn all_iphones(v: Seq<(Seq<char>, Seq<Seq<char>>)>) -> bool {
    forall|k: int| 0 <= k < v.len() ==> is_iphone(#[trigger] v[k])
}

proof fn lemma_pairs_are_iphones(s: Seq<char>, header: Option<Seq<char>>)
    ensures
        all_iphones(pairs_from(s, header)),
    decreases s.len(),
{
    let all = pairs_from(s, header);
    match marker(s) {
        None => {},
        Some(i) => {
            lemma_marker(s);
            let here = s.skip(i);
            if text::begins(here, "gb-header"@) {
                match heading(here) {
                    None => {},
                    Some(name) => {
                        let next = if name.len() > 0 {
                            Some(name)
                        } else {
                            header
                        };
                        lemma_pairs_are_iphones(s.skip(i + 8), next);
                        assert(all == pairs_from(s.skip(i + 8), next));
                    },
                }
            } else {
                lemma_pairs_are_iphones(s.skip(i + 1), header);
                let more = pairs_from(s.skip(i + 1), header);
                match header {
                    Some(name) if listed(here).len() > 0 && text::has(name, "iPhone"@) => {
                        lemma_listed_numbers(here, name);
                        assert(all == seq![(name, listed(here))] + more);
                        assert forall|k: int| 0 <= k < all.len() implies is_iphone(
                            #[trigger] all[k],
                        ) by {
                            if k > 0 {
                                assert(all[k] == more[k - 1]);
                            }
                        }
                    },
                    _ => {
                        assert(all == more);
                    },
                }
            }
        },
    }
}

proof fn lemma_unique_pairs(v: Seq<(Seq<char>, Seq<Seq<char>>)>)
    requires
        forall|k: int| 0 <= k < v.len() ==> is_iphone(#[trigger] v[k]),
    ensures
        unique_pairs(v).no_duplicates(),
        forall|p: (Seq<char>, Seq<Seq<char>>)| #[trigger]
            unique_pairs(v).contains(p) <==> v.contains(p),
    decreases v.len(),
{
    if v.len() > 0 {
        let init = v.drop_last();
        let last = v.last();
        assert forall|k: int| 0 <= k < init.len() implies is_iphone(#[trigger] init[k]) by {
            assert(v[k] == init[k]);
        }
        lemma_unique_pairs(init);
        let before = unique_pairs(init);
        let all = unique_pairs(v);
        assert(v[v.len() - 1] == last);
        assert(repeated(init, pair_key(last)) == init.contains(last)) by {
            if repeated(init, pair_key(last)) {
                let j = choose|j: int| 0 <= j < init.len() && pair_key(#[trigger] init[j]) == pair_key(last);
                lemma_same_pair(init[j], last);
            }
            if init.contains(last) {
                let j = choose|j: int| 0 <= j < init.len() && init[j] == last;
                assert(pair_key(init[j]) == pair_key(last));
            }
        }
        assert forall|p: (Seq<char>, Seq<Seq<char>>)| #[trigger]
            all.contains(p) <==> v.contains(p) by {
            if v.contains(p) {
                let j = choose|j: int| 0 <= j < v.len() && v[j] == p;
                if j < init.len() {
                    assert(init[j] == p);
                    assert(before.contains(p));
                    let k = choose|k: int| 0 <= k < before.len() && before[k] == p;
                    assert(all[k] == p);
                } else if init.contains(last) {
                    assert(before.contains(p));
                } else {
                    assert(all[before.len() as int] == p);
                }
            }
            if all.contains(p) {
                let k = choose|k: int| 0 <= k < all.len() && all[k] == p;
                if k < before.len() {
                    assert(before[k] == p);
                    assert(before.contains(p));
                    let j = choose|j: int| 0 <= j < init.len() && init[j] == p;
                    assert(v[j] == p);
                }
            }
        }
        if !init.contains(last) {
            assert(!before.contains(last));
            assert forall|i: int, j: int|
                0 <= i < all.len() && 0 <= j < all.len() && i != j implies all[i] != all[j] by {
                if i == before.len() {
                    assert(before[j] == all[j]);
                } else if j == before.len() {
                    assert(before[i] == all[i]);
                }
            }
        }
    }
}

proof fn lemma_same_pair(a: (Seq<char>, Seq<Seq<char>>), b: (Seq<char>, Seq<Seq<char>>))
    requires
        is_iphone(a),
        is_iphone(b),
        pair_key(a) == pair_key(b),
    ensures
        a == b,
{
    reveal_strlit("|");
    assert("|"@ =~= seq!['|']);
    assert(pair_key(a)[0] == pair_key(b)[0] && pair_key(a)[1] == pair_key(b)[1]);
    lemma_no_bar(a);
    lemma_no_bar(b);
    text::lemma_joined_apart(a.1, b.1, '|');
}

proof fn lemma_no_bar(a: (Seq<char>, Seq<Seq<char>>))
    requires
        is_iphone(a),
    ensures
        text::free_of(a.1, '|'),
{
    assert forall|i: int| 0 <= i < a.1.len() implies !(#[trigger] a.1[i]).contains('|') by {
        let x = a.1[i];
        assert forall|j: int| 0 <= j < x.len() implies x[j] != '|' by {
            if j > 0 {
                assert('0' <= x[j] <= '9');
            }
        }
    }
}

/// The devices of a page are those that are read from it, none of them lost and none
/// twice: devices that differ in their name or in one model number are two devices.
pub proof fn lemma_no_device_is_lost(page: Seq<char>)
    ensures
        support_pairs(page).no_duplicates(),
        forall|p: (Seq<char>, Seq<Seq<char>>)| #[trigger]
            support_pairs(page).contains(p) <==> pairs_from(page, None).contains(p),
        forall|k: int|
            0 <= k < support_pairs(page).len() ==> is_iphone(#[trigger] support_pairs(page)[k]),
{
    let v = pairs_from(page, None);
    lemma_pairs_are_iphones(page, None);
    lemma_unique_pairs(v);
    assert forall|k: int| 0 <= k < support_pairs(page).len() implies is_iphone(
        #[trigger] support_pairs(page)[k],
    ) by {
        let p = support_pairs(page)[k];
        assert(support_pairs(page).contains(p));
        let j = choose|j: int| 0 <= j < v.len() && v[j] == p;
        assert(is_iphone(v[j]));
    }
}

/// Each device of the page is an entry of its own in the order of the page, of Apple,
/// with its name for the market name and its model numbers for the ids; a limit keeps
/// the first ones.
pub proof fn lemma_support_entries(page: Seq<char>, limit: usize, i: int)
    ensures
        support_entries(page, None).len() == support_pairs(page).len(),
        support_entries(page, Some(limit)).len() == (if support_pairs(page).len() < limit {
            support_pairs(page).len() as int
        } else {
            limit as int
        }),
        0 <= i < support_entries(page, Some(limit)).len() ==> support_entries(page, Some(limit))[i]
            == support_entries(page, None)[i],
        0 <= i < support_pairs(page).len() ==> {
            let e = support_entries(page, None)[i];
            &&& e.brand == "Apple"@
            &&& e.name == support_pairs(page)[i].0
            &&& e.series is None && e.code is None && e.codename is None
            &&& e.models.len() == 1
            &&& e.models[0].ids == support_pairs(page)[i].1
            &&& e.models[0].market_name == e.name
        },
{
}

} // verus!
