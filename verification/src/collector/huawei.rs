//! Huawei's devices: the info boxes of the articles on single devices, which a
//! category lists, and the Chinese list of all models.

use crate::collector::entry;
use crate::collector::entry::{DeviceEntry, Entries};
use crate::collector::page;
use crate::collector::tables;
use crate::collector::url;
use crate::collector::wiki;
use crate::json;
use crate::json::Json;
use crate::json::JsonView;
use crate::pattern;
use crate::pattern::BadPattern;
use crate::seen::SeenSet;
use crate::text;
use vstd::prelude::*;

verus! {

broadcast use vstd::string::group_string_axioms;

/// The info box of an article.
pub const INFOBOX: &'static str =
    "(?is)<table[^>]*class=\"[^\"]*infobox[^\"]*\"[^>]*>(.*?)</table>";

/// The data cell of a row of an info box that is about the model.
pub const MODEL_ROW: &'static str = "(?is)<th[^>]*>.*?Model.*?</th>\\s*<td[^>]*>(.*?)</td>";

/// A model code in an info box.
pub const BOX_CODE: &'static str = "\\b[A-Z]{2,4}-[A-Z]{2}\\d{2,3}\\b";

/// A model code in the list of all models.
pub const LIST_CODE: &'static str = "\\b[A-Z]{2,4}[0-9]?-[A-Z]{1,3}[0-9]{1,3}\\b";

// ---------------------------------------------------------------------------
// Info boxes
// ---------------------------------------------------------------------------

/// A list with further texts at its end, those that it does not have yet.
pub open spec fn extended(base: Seq<Seq<char>>, more: Seq<Seq<char>>) -> Seq<Seq<char>>
    decreases more.len(),
{
    if more.len() == 0 {
        base
    } else {
        let before = extended(base, more.drop_last());
        if before.contains(more.last()) {
            before
        } else {
            before.push(more.last())
        }
    }
}

/// The texts without those that stand before.
pub open spec fn unrepeated(v: Seq<Seq<char>>) -> Seq<Seq<char>> {
    extended(Seq::empty(), v)
}

/// The codes in the cells, from the first cell to the last.
pub open spec fn codes_in(cells: Seq<Option<Seq<char>>>) -> Seq<Seq<char>>
    decreases cells.len(),
{
    if cells.len() == 0 {
        Seq::empty()
    } else {
        let before = codes_in(cells.drop_last());
        match cells.last() {
            Some(cell) => before + pattern::matches_of(BOX_CODE@, cell),
            None => before,
        }
    }
}

/// The model codes of an article: those of the model rows of its info box.
pub open spec fn box_codes(html: Seq<char>) -> Seq<Seq<char>> {
    match pattern::first_group(INFOBOX@, html) {
        Some(table) => unrepeated(codes_in(pattern::groups(MODEL_ROW@, table))),
        None => Seq::empty(),
    }
}

/// The patterns of the info boxes are accepted.
pub open spec fn box_patterns() -> bool {
    pattern::compiles(INFOBOX@) && pattern::compiles(MODEL_ROW@) && pattern::compiles(BOX_CODE@)
}

/// `unrepeated` keeps each text once, and each of them.
pub proof fn lemma_unrepeated(v: Seq<Seq<char>>)
    ensures
        unrepeated(v).no_duplicates(),
        forall|x: Seq<char>| #[trigger] unrepeated(v).contains(x) <==> v.contains(x),
    decreases v.len(),
{
    if v.len() > 0 {
        let init = v.drop_last();
        let before = unrepeated(init);
        lemma_unrepeated(init);
        let r = unrepeated(v);
        assert forall|x: Seq<char>| #[trigger] r.contains(x) <==> v.contains(x) by {
            if init.contains(x) {
                let i = choose|i: int| 0 <= i < init.len() && init[i] == x;
                assert(v[i] == x);
            }
            if v.contains(x) && x != v.last() {
                let i = choose|i: int| 0 <= i < v.len() && v[i] == x;
                assert(init[i] == x);
            }
            assert(v[v.len() - 1] == v.last());
            if !before.contains(v.last()) {
                assert(r[before.len() as int] == v.last());
                if before.contains(x) {
                    let i = choose|i: int| 0 <= i < before.len() && before[i] == x;
                    assert(r[i] == x);
                }
                if r.contains(x) && x != v.last() {
                    let i = choose|i: int| 0 <= i < r.len() && r[i] == x;
                    assert(before[i] == x);
                }
            }
        }
    }
}

/// Extending twice is extending by both at once.
proof fn lemma_extended_twice(base: Seq<Seq<char>>, a: Seq<Seq<char>>, b: Seq<Seq<char>>)
    ensures
        extended(extended(base, a), b) == extended(base, a + b),
    decreases b.len(),
{
    if b.len() > 0 {
        lemma_extended_twice(base, a, b.drop_last());
        assert((a + b).drop_last() =~= a + b.drop_last());
    } else {
        assert(a + b =~= a);
    }
}

/// Adds texts to a list, those that it does not have yet.
pub fn add_unrepeated(out: &mut Vec<String>, more: Vec<String>)
    ensures
        text::strs(final(out)@) == extended(text::strs(old(out)@), text::strs(more@)),
{
    let ghost added = text::strs(more@);
    let ghost start = text::strs(out@);
    for i in 0..more.len()
        invariant
            added == text::strs(more@),
            text::strs(out@) == extended(start, added.take(i as int)),
    {
        let ghost before = text::strs(out@);
        proof {
            assert(added.take(i + 1).drop_last() =~= added.take(i as int));
            assert(added.take(i + 1).last() == more@[i as int]@);
        }
        if !text::has_text(out, &more[i]) {
            out.push(more[i].clone());
            assert(text::strs(out@) =~= before.push(more@[i as int]@));
        }
    }
    assert(added.take(more@.len() as int) =~= added);
}

/// The model codes of an article.
pub fn extract_huawei_models(html: &str) -> (r: Result<Vec<String>, BadPattern>)
    ensures
        r is Ok <==> box_patterns(),
        r matches Ok(codes) ==> text::strs(codes@) == box_codes(html@),
{
    match (pattern::check(INFOBOX), pattern::check(MODEL_ROW), pattern::check(BOX_CODE)) {
        (Ok(()), Ok(()), Ok(())) => {},
        (Err(e), _, _) => {
            return Err(e);
        },
        (_, Err(e), _) => {
            return Err(e);
        },
        (_, _, Err(e)) => {
            return Err(e);
        },
    }
    let mut out: Vec<String> = Vec::new();
    assert(text::strs(out@) =~= Seq::<Seq<char>>::empty());
    if let Some(table) = pattern::find_first_group(INFOBOX, html) {
        let cells = pattern::find_groups(MODEL_ROW, table.as_str());
        let ghost all = pattern::groups(MODEL_ROW@, table@);
        for i in 0..cells.len()
            invariant
                pattern::opt_strs(cells@) == all,
                pattern::compiles(BOX_CODE@),
                text::strs(out@) == unrepeated(codes_in(all.take(i as int))),
        {
            proof {
                assert(all.take(i + 1).drop_last() =~= all.take(i as int));
                assert(all.take(i + 1).last() == text::opt_str(cells@[i as int]));
            }
            if let Some(cell) = &cells[i] {
                let found = pattern::find_matches(BOX_CODE, cell.as_str());
                proof {
                    lemma_extended_twice(
                        Seq::empty(),
                        codes_in(all.take(i as int)),
                        text::strs(found@),
                    );
                }
                add_unrepeated(&mut out, found);
            }
        }
        assert(all.take(cells@.len() as int) =~= all);
    }
    Ok(out)
}

// ---------------------------------------------------------------------------
// The pages of a category
// ---------------------------------------------------------------------------

/// A tour of a category and the categories below it. It asks for the members of
/// a category part by part and gathers the titles of the pages.
pub struct Tour {
    pub titles: Vec<String>,
    pub seen_titles: SeenSet,
    pub seen_categories: SeenSet,
    pub waiting: Vec<String>,
    pub current: Option<(String, String)>,
}

/// The contents of a tour: the titles met, the categories met, those that wait
/// (the last is next), and the part that is asked for: the category with the mark
/// where the part before ended.
pub struct TourView {
    pub titles: Seq<Seq<char>>,
    pub seen_titles: Set<Seq<Seq<char>>>,
    pub seen_categories: Set<Seq<Seq<char>>>,
    pub waiting: Seq<Seq<char>>,
    pub current: Option<(Seq<char>, Seq<char>)>,
}

impl View for Tour {
    type V = TourView;

    open spec fn view(&self) -> TourView {
        TourView {
            titles: text::strs(self.titles@),
            seen_titles: self.seen_titles@,
            seen_categories: self.seen_categories@,
            waiting: text::strs(self.waiting@),
            current: match self.current {
                Some(p) => Some((p.0@, p.1@)),
                None => None,
            },
        }
    }
}

impl TourView {
    /// The tour with the part that is to be asked for next. Where a category is
    /// under way that is its next part; otherwise the first part of the next
    /// category that was not met before.
    pub open spec fn advanced(self) -> TourView
        decreases self.waiting.len(),
    {
        if self.current is Some || self.waiting.len() == 0 {
            self
        } else {
            let category = self.waiting.last();
            let popped = TourView { waiting: self.waiting.drop_last(), ..self };
            if self.seen_categories.contains(seq![category]) {
                popped.advanced()
            } else {
                TourView {
                    seen_categories: self.seen_categories.insert(seq![category]),
                    current: Some((category, Seq::empty())),
                    ..popped
                }
            }
        }
    }

    /// The tour with one more member: a category waits, a page that is new is
    /// gathered.
    pub open spec fn with_member(self, title: Seq<char>) -> TourView {
        if text::begins(title, "Category:"@) {
            TourView { waiting: self.waiting.push(title), ..self }
        } else if self.seen_titles.contains(seq![title]) {
            self
        } else {
            TourView {
                titles: self.titles.push(title),
                seen_titles: self.seen_titles.insert(seq![title]),
                ..self
            }
        }
    }

    /// The tour with the first `n` members of a reply.
    pub open spec fn with_members(self, members: Seq<JsonView>, n: nat) -> TourView
        decreases n,
    {
        if n == 0 {
            self
        } else {
            self.with_members(members, (n - 1) as nat).with_member(
                members[n - 1].get("title"@).text_or_empty(),
            )
        }
    }

    /// The tour after a reply; None stands for no reply that can be read. The
    /// category is done where the reply has no mark to go on from.
    pub open spec fn replied(self, reply: Option<JsonView>) -> TourView {
        match (reply, self.current) {
            (Some(v), Some(part)) => {
                let members = v.get("query"@).get("categorymembers"@).items();
                let more = v.get("continue"@).get("cmcontinue"@).text_or_empty();
                TourView {
                    current: if more.len() == 0 {
                        None
                    } else {
                        Some((part.0, more))
                    },
                    ..self.with_members(members, members.len())
                }
            },
            _ => TourView { current: None, ..self },
        }
    }

    /// No title is gathered twice, and each of them counts as met.
    pub open spec fn titles_once(self) -> bool {
        &&& forall|i: int, j: int|
            0 <= i < j < self.titles.len() ==> #[trigger] self.titles[i] != #[trigger] self.titles[j]
        &&& forall|i: int|
            0 <= i < self.titles.len() ==> self.seen_titles.contains(seq![#[trigger] self.titles[i]])
    }
}

/// The members of a reply keep each title to one place.
pub proof fn lemma_members_keep_titles_apart(t: TourView, members: Seq<JsonView>, n: nat)
    requires
        t.titles_once(),
    ensures
        t.with_members(members, n).titles_once(),
        t.with_members(members, n).seen_categories == t.seen_categories,
        t.with_members(members, n).current == t.current,
    decreases n,
{
    if n > 0 {
        lemma_members_keep_titles_apart(t, members, (n - 1) as nat);
        let s = t.with_members(members, (n - 1) as nat);
        let title = members[n - 1].get("title"@).text_or_empty();
        let r = s.with_member(title);
        assert forall|i: int, j: int| 0 <= i < j < r.titles.len() implies #[trigger] r.titles[i]
            != #[trigger] r.titles[j] by {
            assert(s.titles[i] == r.titles[i]);
            assert(s.seen_titles.contains(seq![s.titles[i]]));
            if j == s.titles.len() {
                assert(seq![r.titles[i]][0] == r.titles[i]);
                assert(seq![title][0] == title);
            }
        }
        assert forall|i: int| 0 <= i < r.titles.len() implies r.seen_titles.contains(
            seq![#[trigger] r.titles[i]],
        ) by {
            if i < s.titles.len() {
                assert(s.titles[i] == r.titles[i]);
                assert(s.seen_titles.contains(seq![s.titles[i]]));
            }
        }
    }
}

/// Whatever the service replies, no title is gathered twice.
pub proof fn lemma_tour_keeps_titles_apart(t: TourView, reply: Option<JsonView>)
    requires
        t.titles_once(),
    ensures
        t.replied(reply).titles_once(),
{
    match (reply, t.current) {
        (Some(v), Some(part)) => {
            let members = v.get("query"@).get("categorymembers"@).items();
            lemma_members_keep_titles_apart(t, members, members.len());
        },
        _ => {},
    }
}

/// A category is begun only where it was not met before, and counts as met from
/// then on, so that the tour ends where categories contain each other.
pub proof fn lemma_tour_begins_new_categories(t: TourView)
    ensures
        t.current is None ==> (t.advanced().current matches Some(part) ==> part.1.len() == 0
            && !t.seen_categories.contains(seq![part.0])
            && t.advanced().seen_categories.contains(seq![part.0])),
        t.advanced().titles == t.titles,
        t.advanced().seen_titles == t.seen_titles,
        t.advanced().current is None ==> t.advanced().waiting.len() == 0,
    decreases t.waiting.len(),
{
    if !(t.current is Some || t.waiting.len() == 0) {
        let category = t.waiting.last();
        if t.seen_categories.contains(seq![category]) {
            lemma_tour_begins_new_categories(
                TourView { waiting: t.waiting.drop_last(), ..t },
            );
        }
    }
}

impl Tour {
    /// A tour that begins with one category.
    pub fn new(category: &str) -> (r: Self)
        ensures
            r@ == (TourView {
                titles: Seq::empty(),
                seen_titles: Set::empty(),
                seen_categories: Set::empty(),
                waiting: seq![category@],
                current: None,
            }),
            r@.titles_once(),
    {
        let r = Tour {
            titles: Vec::new(),
            seen_titles: SeenSet::new(),
            seen_categories: SeenSet::new(),
            waiting: entry::one_string(category.to_owned()),
            current: None,
        };
        assert(r@.titles =~= Seq::<Seq<char>>::empty());
        r
    }

    /// The address of the part that is to be asked for next; None where the tour
    /// is done.
    pub fn advance(&mut self) -> (r: Option<String>)
        ensures
            final(self)@ == old(self)@.advanced(),
            text::opt_str(r) == (match final(self)@.current {
                Some(part) => Some(url::category_address(part.0, part.1)),
                None => None,
            }),
    {
        while self.current.is_none() && self.waiting.len() > 0
            invariant
                self@.advanced() == old(self)@.advanced(),
            decreases self@.waiting.len(),
        {
            let ghost before = self@;
            if let Some(category) = self.waiting.pop() {
                let ghost popped = TourView { waiting: before.waiting.drop_last(), ..before };
                proof {
                    assert(before.waiting.last() == category@);
                    assert(self@.waiting =~= popped.waiting);
                    assert(self@ == popped);
                }
                if self.seen_categories.insert(entry::one_string(category.clone())) {
                    self.current = Some((category, String::new()));
                    assert((self@.current->0).1 =~= Seq::<char>::empty());
                } else {
                    assert(self.seen_categories@ =~= before.seen_categories);
                }
            }
        }
        match &self.current {
            Some(part) => Some(url::category_url(part.0.as_str(), part.1.as_str())),
            None => None,
        }
    }

    /// Takes a member.
    fn take_member(&mut self, title: String)
        ensures
            final(self)@ == old(self)@.with_member(title@),
    {
        let ghost before = self@;
        let chars = text::chars_of(title.as_str());
        if text::starts_with_str(chars.as_slice(), "Category:") {
            self.waiting.push(title);
            assert(self@.waiting =~= before.waiting.push(title@));
        } else if self.seen_titles.insert(entry::one_string(title.clone())) {
            self.titles.push(title);
            assert(self@.titles =~= before.titles.push(title@));
        } else {
            assert(self@.seen_titles =~= before.seen_titles);
        }
    }

    /// Takes the reply for the part that was asked for, given as a JSON value, and
    /// tells whether the category is done.
    pub fn take_value(&mut self, reply: Option<&Json>) -> (r: bool)
        ensures
            final(self)@ == old(self)@.replied(
                match reply {
                    Some(v) => Some(v@),
                    None => None,
                },
            ),
            r == (final(self)@.current is None),
    {
        let ghost before = self@;
        let category = match (reply, &self.current) {
            (Some(_), Some(part)) => part.0.clone(),
            _ => {
                self.current = None;
                assert(self@ == (TourView { current: None, ..before }));
                return true;
            },
        };
        let members = json::items(json::get(json::get(reply, "query"), "categorymembers"));
        let ghost all = json::opt_contents(reply).get("query"@).get("categorymembers"@).items();
        for i in 0..members.len()
            invariant
                members@.len() == all.len(),
                forall|k: int| 0 <= k < members@.len() ==> (*#[trigger] members@[k])@ == all[k],
                self@ == before.with_members(all, i as nat),
        {
            assert((*members@[i as int])@ == all[i as int]);
            let title = json::text_or_empty(json::get(Some(members[i]), "title"));
            self.take_member(title);
        }
        let more = json::text_or_empty(json::get(json::get(reply, "continue"), "cmcontinue"));
        let done = more.as_str().is_empty();
        if done {
            self.current = None;
        } else {
            self.current = Some((category, more));
        }
        proof {
            let goal = before.replied(Some(reply->0@));
            assert(self@.current == goal.current);
            assert(self@ == goal);
        }
        done
    }

    /// Takes the text of the reply for the part that was asked for; None where
    /// there was no reply. A text that is no JSON ends the category.
    pub fn take_reply(&mut self, reply: Option<&str>) -> (r: bool)
        ensures
            final(self)@ == old(self)@.replied(
                match reply {
                    Some(s) => json::parsed(s@),
                    None => None,
                },
            ),
            r == (final(self)@.current is None),
    {
        match reply {
            Some(s) => match json::parse(s) {
                Ok(v) => self.take_value(Some(&v)),
                Err(_) => self.take_value(None),
            },
            None => self.take_value(None),
        }
    }
}

// ---------------------------------------------------------------------------
// The articles
// ---------------------------------------------------------------------------

/// The category of Huawei's phones.
pub const HUAWEI_CATEGORY: &'static str = "Category:Huawei_mobile_phones";

/// The title of an article on a device.
pub open spec fn on_device(title: Seq<char>) -> bool {
    !text::begins(title, "List of"@) && !text::has(title, "Mobile Services"@) && !text::has(
        title,
        "Smartphone"@,
    )
}

/// The text without a prefix, however often it stands there.
pub open spec fn unprefixed(s: Seq<char>, prefix: Seq<char>) -> Seq<char>
    decreases s.len(),
{
    if prefix.len() > 0 && text::begins(s, prefix) {
        unprefixed(s.skip(prefix.len() as int), prefix)
    } else {
        s
    }
}

/// The name of the device of an article.
pub open spec fn device_name(title: Seq<char>) -> Seq<char> {
    unprefixed(unprefixed(title, "Huawei "@), "HUAWEI "@)
}

/// What an article with model codes gives.
pub open spec fn article_candidate(title: Seq<char>, codes: Seq<Seq<char>>) -> Option<
    entry::Candidate,
> {
    if codes.len() == 0 {
        None
    } else {
        Some(
            entry::Candidate {
                key: seq![text::joined(codes, "|"@)],
                entry: Some(
                    entry::EntryView {
                        brand: "华为 (Huawei)"@,
                        name: device_name(title),
                        series: Some("维基百科"@),
                        code: None,
                        codename: None,
                        models: entry::one_model(codes, device_name(title)),
                    },
                ),
            },
        )
    }
}

/// The candidates so far with another one, if there is one.
pub open spec fn joined_by(
    c: Seq<entry::Candidate>,
    more: Option<entry::Candidate>,
) -> Seq<entry::Candidate> {
    match more {
        Some(x) => c.push(x),
        None => c,
    }
}

/// What was found with another candidate, if there is one.
pub open spec fn found_with(
    found: entry::EntriesView,
    more: Option<entry::Candidate>,
) -> entry::EntriesView {
    match more {
        Some(x) => found.with(x),
        None => found,
    }
}

/// An article that is read below the limit does not pass it.
pub proof fn lemma_articles_keep_the_limit(
    found: entry::EntriesView,
    more: Option<entry::Candidate>,
    limit: usize,
)
    requires
        found.entries.len() < limit,
    ensures
        found_with(found, more).entries.len() <= limit,
{
}

/// The titles of the articles on devices.
pub fn device_titles(titles: &Vec<String>) -> (r: Vec<String>)
    ensures
        text::strs(r@) == text::select(text::strs(titles@), |t: Seq<char>| on_device(t)),
{
    let ghost all = text::strs(titles@);
    let ghost p = |t: Seq<char>| on_device(t);
    let mut out: Vec<String> = Vec::new();
    assert(text::strs(out@) =~= text::select(all.take(0), p));
    for i in 0..titles.len()
        invariant
            all == text::strs(titles@),
            p == (|t: Seq<char>| on_device(t)),
            text::strs(out@) == text::select(all.take(i as int), p),
    {
        let t = text::chars_of(titles[i].as_str());
        proof {
            assert(all.take(i + 1).drop_last() =~= all.take(i as int));
            assert(all.take(i + 1).last() == t@);
            assert(p(t@) == on_device(t@));
        }
        if !text::starts_with_str(t.as_slice(), "List of") && !text::contains_str(
            t.as_slice(),
            "Mobile Services",
        ) && !text::contains_str(t.as_slice(), "Smartphone") {
            let ghost before = text::strs(out@);
            out.push(titles[i].clone());
            assert(text::strs(out@) =~= before.push(t@));
        }
    }
    assert(all.take(titles@.len() as int) =~= all);
    out
}

/// Removes a prefix as often as it stands there.
fn without_prefix<'a>(s: &'a [char], prefix: &str) -> (r: &'a [char])
    requires
        prefix@.len() > 0,
    ensures
        r@ == unprefixed(s@, prefix@),
{
    let p = text::chars_of(prefix);
    let mut rest: &'a [char] = s;
    while p.len() <= rest.len() && text::starts_with_str(rest, prefix)
        invariant
            p@ == prefix@,
            prefix@.len() > 0,
            unprefixed(s@, prefix@) == unprefixed(rest@, prefix@),
        decreases rest@.len(),
    {
        let next: &'a [char] = &rest[p.len()..rest.len()];
        assert(next@ =~= rest@.skip(p@.len() as int));
        rest = next;
    }
    rest
}

/// The articles to read and what was found in them.
pub struct Articles {
    pub titles: Vec<String>,
    pub next: usize,
    pub limit: Option<usize>,
    pub found: Entries,
}

impl Articles {
    /// The articles with these titles, of which none was read.
    pub fn new(titles: Vec<String>, limit: Option<usize>) -> (r: Self)
        ensures
            r.titles == titles,
            r.next == 0,
            r.limit == limit,
            r.found.holds(Seq::empty()),
            r.found.entries@.len() == 0,
    {
        Articles { titles, next: 0, limit, found: Entries::new() }
    }

    /// The next article to read: none where the limit of devices is reached.
    pub fn advance(&mut self) -> (r: Option<String>)
        ensures
            text::opt_str(r) == (if old(self).next < old(self).titles@.len() && !(old(self).limit
                matches Some(l) && old(self).found.entries@.len() >= l) {
                Some(old(self).titles@[old(self).next as int]@)
            } else {
                None
            }),
            final(self).next == old(self).next + (if r is Some {
                1int
            } else {
                0int
            }),
            final(self).titles == old(self).titles,
            final(self).limit == old(self).limit,
            final(self).found == old(self).found,
    {
        if self.next < self.titles.len() && !entry::reached(
            self.found.entries.len(),
            self.limit,
        ) {
            let title = self.titles[self.next].clone();
            self.next = self.next + 1;
            Some(title)
        } else {
            None
        }
    }

    /// Takes the model codes of an article and tells whether they gave a device.
    pub fn take_codes(&mut self, title: &str, codes: Vec<String>) -> (r: bool)
        ensures
            final(self).found@ == found_with(
                old(self).found@,
                article_candidate(title@, text::strs(codes@)),
            ),
            r == (article_candidate(title@, text::strs(codes@)) matches Some(c)
                && old(self).found@.takes(c)),
            forall|c: Seq<entry::Candidate>| #[trigger]
                old(self).found.holds(c) ==> final(self).found.holds(
                    joined_by(c, article_candidate(title@, text::strs(codes@))),
                ),
            final(self).titles == old(self).titles,
            final(self).next == old(self).next,
            final(self).limit == old(self).limit,
    {
        if codes.len() == 0 {
            assert(text::strs(codes@).len() == 0);
            return false;
        }
        let chars = text::chars_of(title);
        proof {
            reveal_strlit("Huawei ");
            reveal_strlit("HUAWEI ");
        }
        let bare = without_prefix(without_prefix(chars.as_slice(), "Huawei "), "HUAWEI ");
        let name = text::string_of(bare);
        let key = entry::one_string(text::join(&codes, "|"));
        let e = DeviceEntry {
            brand: "华为 (Huawei)".to_owned(),
            name: name.clone(),
            series: Some("维基百科".to_owned()),
            code: None,
            codename: None,
            models: entry::single_model(codes, name),
        };
        self.found.offer(key, Some(e))
    }

    /// Takes the page of an article.
    pub fn take_page(&mut self, title: &str, html: &str) -> (r: Result<bool, BadPattern>)
        ensures
            r is Ok <==> box_patterns(),
            r matches Ok(added) ==> final(self).found@ == found_with(
                old(self).found@,
                article_candidate(title@, box_codes(html@)),
            ) && added == (article_candidate(title@, box_codes(html@)) matches Some(c)
                && old(self).found@.takes(c)),
            r is Ok ==> forall|c: Seq<entry::Candidate>| #[trigger]
                old(self).found.holds(c) ==> final(self).found.holds(
                    joined_by(c, article_candidate(title@, box_codes(html@))),
                ),
            r is Err ==> *final(self) == *old(self),
            final(self).titles == old(self).titles,
            final(self).next == old(self).next,
            final(self).limit == old(self).limit,
    {
        match extract_huawei_models(html) {
            Ok(codes) => Ok(self.take_codes(title, codes)),
            Err(e) => Err(e),
        }
    }

    /// Takes the text of the reply with the page of an article. A reply without a
    /// page gives no device.
    pub fn take_reply(&mut self, title: &str, reply: &str) -> (r: Result<bool, BadPattern>)
        ensures
            match page::page_text(json::parsed(reply@)) {
                Some(html) => {
                    &&& r is Ok <==> box_patterns()
                    &&& r matches Ok(added) ==> final(self).found@ == found_with(
                        old(self).found@,
                        article_candidate(title@, box_codes(html)),
                    ) && added == (article_candidate(title@, box_codes(html)) matches Some(c)
                        && old(self).found@.takes(c))
                    &&& r is Ok ==> forall|c: Seq<entry::Candidate>| #[trigger]
                        old(self).found.holds(c) ==> final(self).found.holds(
                            joined_by(c, article_candidate(title@, box_codes(html))),
                        )
                    &&& r is Err ==> *final(self) == *old(self)
                },
                None => r is Ok && !r->Ok_0 && *final(self) == *old(self),
            },
            final(self).titles == old(self).titles,
            final(self).next == old(self).next,
            final(self).limit == old(self).limit,
    {
        let v = match json::parse(reply) {
            Ok(v) => v,
            Err(_) => {
                return Ok(false);
            },
        };
        match json::text(json::get(json::get(Some(&v), "parse"), "text")) {
            Some(html) => self.take_page(title, html),
            None => Ok(false),
        }
    }
}

// ---------------------------------------------------------------------------
// The list of all models
// ---------------------------------------------------------------------------

/// The page with the list of all models, of the Chinese Wikipedia.
pub const LIST_API: &'static str = "https://zh.wikipedia.org/w/api.php";

/// The title of that page.
pub const LIST_TITLE: &'static str = "华为智能手机型号列表";

/// The trimmed text of a row in a column, where the row reaches so far and there
/// is one.
pub open spec fn list_cell(row: Seq<(bool, Seq<char>)>, column: Option<int>) -> Option<Seq<char>> {
    match column {
        Some(i) if 0 <= i < row.len() && text::trimmed(row[i].1).len() > 0 => Some(
            text::trimmed(row[i].1),
        ),
        _ => None,
    }
}

/// The columns of a table of the list.
pub open spec fn list_columns(header: Seq<(bool, Seq<char>)>) -> wiki::Columns {
    wiki::Columns {
        name: wiki::column_of(header, seq!["名称"@]),
        number: wiki::column_of(header, seq!["型号"@]),
        codename: wiki::column_of(header, seq!["代号"@]),
    }
}

/// What a row of the list gives with the model codes that were found in it: a
/// device where there are any, with the codes in order and each once.
pub open spec fn coded_candidate(
    row: Seq<(bool, Seq<char>)>,
    cols: wiki::Columns,
    found: Seq<Seq<char>>,
) -> Option<entry::Candidate> {
    let name = wiki::or_empty(
        wiki::either(list_cell(row, cols.name), list_cell(row, cols.number)),
    );
    let codes = text::sorted_set(found);
    if wiki::is_section(row) || codes.len() == 0 {
        None
    } else {
        Some(
            entry::Candidate {
                key: seq![text::joined(codes, "|"@)],
                entry: Some(
                    entry::EntryView {
                        brand: "华为 (Huawei)"@,
                        name,
                        series: Some("华为智能手机型号列表"@),
                        code: None,
                        codename: Some(wiki::or_empty(list_cell(row, cols.codename))),
                        models: entry::one_model(codes, name),
                    },
                ),
            },
        )
    }
}

/// What a row of the list gives: the model codes are found in the column of models.
pub open spec fn list_candidate(row: Seq<(bool, Seq<char>)>, cols: wiki::Columns) -> Option<
    entry::Candidate,
> {
    coded_candidate(
        row,
        cols,
        pattern::matches_of(LIST_CODE@, wiki::or_empty(list_cell(row, cols.number))),
    )
}

/// What the rows of a table give.
pub open spec fn list_rows(rows: Seq<Seq<(bool, Seq<char>)>>, cols: wiki::Columns) -> Seq<
    entry::Candidate,
>
    decreases rows.len(),
{
    if rows.len() == 0 {
        Seq::empty()
    } else {
        joined_by(list_rows(rows.drop_last(), cols), list_candidate(rows.last(), cols))
    }
}

/// A table of devices: one with a column of names or of models.
pub open spec fn is_list(table: Seq<Seq<(bool, Seq<char>)>>) -> bool {
    table.len() > 0 && !(list_columns(table[0]).name is None && list_columns(
        table[0],
    ).number is None)
}

/// What the tables give.
pub open spec fn list_candidates(all: Seq<Seq<Seq<(bool, Seq<char>)>>>) -> Seq<entry::Candidate>
    decreases all.len(),
{
    if all.len() == 0 {
        Seq::empty()
    } else {
        let before = list_candidates(all.drop_last());
        if is_list(all.last()) {
            before + list_rows(all.last().skip(1), list_columns(all.last()[0]))
        } else {
            before
        }
    }
}

/// The number of tables up to the first table of devices and with it.
pub open spec fn up_to_list(all: Seq<Seq<Seq<(bool, Seq<char>)>>>, i: int) -> int
    decreases all.len() - i,
{
    if i < 0 || i >= all.len() {
        all.len() as int
    } else if is_list(all[i]) {
        i + 1
    } else {
        up_to_list(all, i + 1)
    }
}

/// The devices of the list, up to the limit. A limit of nothing is looked at when
/// a device has been added or a table of devices is done.
pub open spec fn list_entries(
    all: Seq<Seq<Seq<(bool, Seq<char>)>>>,
    limit: Option<usize>,
) -> Seq<entry::EntryView> {
    let read = if limit == Some(0usize) {
        all.take(up_to_list(all, 0))
    } else {
        all
    };
    entry::limited(entry::distinct(list_candidates(read)), limit)
}

proof fn lemma_list_rows_head(rows: Seq<Seq<(bool, Seq<char>)>>, cols: wiki::Columns, i: int)
    requires
        0 <= i <= rows.len(),
    ensures
        entry::heads(list_rows(rows.take(i), cols), list_rows(rows, cols)),
    decreases rows.len(),
{
    let c = list_rows(rows, cols);
    if i < rows.len() {
        assert(rows.drop_last().take(i) =~= rows.take(i));
        lemma_list_rows_head(rows.drop_last(), cols, i);
        let p = list_rows(rows.take(i), cols);
        assert(p =~= c.take(p.len() as int));
    } else {
        assert(rows.take(i) =~= rows);
        assert(c.take(c.len() as int) =~= c);
    }
}

proof fn lemma_list_head(all: Seq<Seq<Seq<(bool, Seq<char>)>>>, i: int)
    requires
        0 <= i <= all.len(),
    ensures
        entry::heads(list_candidates(all.take(i)), list_candidates(all)),
    decreases all.len(),
{
    let c = list_candidates(all);
    if i < all.len() {
        assert(all.drop_last().take(i) =~= all.take(i));
        lemma_list_head(all.drop_last(), i);
        let p = list_candidates(all.take(i));
        assert(p =~= c.take(p.len() as int));
    } else {
        assert(all.take(i) =~= all);
        assert(c.take(c.len() as int) =~= c);
    }
}

proof fn lemma_up_to_list(all: Seq<Seq<Seq<(bool, Seq<char>)>>>, i: int, j: int)
    requires
        0 <= i <= j <= all.len(),
        forall|k: int| i <= k < j ==> !is_list(#[trigger] all[k]),
    ensures
        up_to_list(all, i) == up_to_list(all, j),
        j <= up_to_list(all, i) <= all.len(),
    decreases all.len() - i,
{
    if i < j {
        lemma_up_to_list(all, i + 1, j);
    } else if i < all.len() && !is_list(all[i]) {
        lemma_up_to_list(all, i + 1, i + 1);
    }
}

/// The trimmed text of a row in a column.
fn read_list_cell(row: &Vec<(bool, String)>, column: Option<usize>) -> (r: Option<String>)
    ensures
        text::opt_str(r) == list_cell(tables::row_view(row@), text::as_int(column)),
{
    let ghost view = tables::row_view(row@);
    match column {
        Some(i) => {
            if i < row.len() {
                assert(view[i as int].1 == row@[i as int].1@);
                let s = text::trim_str(row[i].1.as_str());
                if !s.as_str().is_empty() {
                    return Some(s);
                }
            }
            None
        },
        None => None,
    }
}

/// The key and the entry of a row with the model codes that were found in it.
pub fn coded_row_entry(
    row: &Vec<(bool, String)>,
    name_col: Option<usize>,
    model_col: Option<usize>,
    codename_col: Option<usize>,
    found: &Vec<String>,
) -> (r: Option<(Vec<String>, DeviceEntry)>)
    ensures
        ({
            let cols = wiki::Columns {
                name: text::as_int(name_col),
                number: text::as_int(model_col),
                codename: text::as_int(codename_col),
            };
            let candidate = coded_candidate(tables::row_view(row@), cols, text::strs(found@));
            match r {
                Some(p) => candidate == Some(
                    entry::Candidate { key: text::strs(p.0@), entry: Some(p.1@) },
                ),
                None => candidate is None,
            }
        }),
{
    let ghost view = tables::row_view(row@);
    if row.len() == 1 {
        assert(view[0].0 == row@[0].0);
        if row[0].0 {
            return None;
        }
    }
    let codes = text::sort_unique(found);
    let ghost cv = text::strs(codes@);
    if codes.len() == 0 {
        return None;
    }
    let name = match read_list_cell(row, name_col) {
        Some(s) => s,
        None => match read_list_cell(row, model_col) {
            Some(s) => s,
            None => String::new(),
        },
    };
    let codename = match read_list_cell(row, codename_col) {
        Some(s) => s,
        None => String::new(),
    };
    let key = entry::one_string(text::join(&codes, "|"));
    let e = DeviceEntry {
        brand: "华为 (Huawei)".to_owned(),
        name: name.clone(),
        series: Some("华为智能手机型号列表".to_owned()),
        code: None,
        codename: Some(codename),
        models: entry::single_model(codes, name),
    };
    assert(cv.len() > 0);
    Some((key, e))
}

/// The key and the entry of a row.
fn list_row_entry(
    row: &Vec<(bool, String)>,
    name_col: Option<usize>,
    model_col: Option<usize>,
    codename_col: Option<usize>,
) -> (r: Option<(Vec<String>, DeviceEntry)>)
    requires
        pattern::compiles(LIST_CODE@),
    ensures
        ({
            let cols = wiki::Columns {
                name: text::as_int(name_col),
                number: text::as_int(model_col),
                codename: text::as_int(codename_col),
            };
            match r {
                Some(p) => list_candidate(tables::row_view(row@), cols) == Some(
                    entry::Candidate { key: text::strs(p.0@), entry: Some(p.1@) },
                ),
                None => list_candidate(tables::row_view(row@), cols) is None,
            }
        }),
{
    let raw = match read_list_cell(row, model_col) {
        Some(s) => s,
        None => String::new(),
    };
    let found = pattern::find_matches(LIST_CODE, raw.as_str());
    coded_row_entry(row, name_col, model_col, codename_col, &found)
}

/// Finds a column by its heading.
fn list_column(header: &Vec<(bool, String)>, key: &str) -> (r: Option<usize>)
    ensures
        text::as_int(r) == wiki::column_of(tables::row_view(header@), seq![key@]),
{
    let keys: [&str; 1] = [key];
    let s: &[&str] = &keys;
    assert(text::lits(s@) =~= seq![key@]);
    wiki::col_index(header.as_slice(), s)
}

/// The devices of the list, each with its model codes in order.
pub fn huawei_list_entries(
    tables: &Vec<Vec<Vec<(bool, String)>>>,
    limit: Option<usize>,
) -> (r: Result<Vec<DeviceEntry>, BadPattern>)
    ensures
        r is Ok <==> pattern::compiles(LIST_CODE@),
        r matches Ok(v) ==> entry::entries_view(v@) == list_entries(
            tables::tables_view(tables@),
            limit,
        ),
{
    match pattern::check(LIST_CODE) {
        Ok(()) => {},
        Err(e) => {
            return Err(e);
        },
    }
    let ghost all = tables::tables_view(tables@);
    let mut state = Entries::new();
    assert(list_candidates(all.take(0)) =~= Seq::empty());
    for i in 0..tables.len()
        invariant
            pattern::compiles(LIST_CODE@),
            all == tables::tables_view(tables@),
            state.holds(list_candidates(all.take(i as int))),
            entry::room(state.entries@.len(), limit),
            limit == Some(0usize) ==> forall|k: int| 0 <= k < i ==> !is_list(#[trigger] all[k]),
    {
        let table = &tables[i];
        let ghost view = all[i as int];
        let ghost done = list_candidates(all.take(i as int));
        proof {
            assert(view == tables::table_view(table@));
            assert(all.take(i + 1).drop_last() =~= all.take(i as int));
            assert(all.take(i + 1).last() == view);
        }
        if table.len() > 0 {
            assert(view[0] == tables::row_view(table@[0]@));
            let name_col = list_column(&table[0], "名称");
            let codename_col = list_column(&table[0], "代号");
            let model_col = list_column(&table[0], "型号");
            let ghost cols = list_columns(view[0]);
            if name_col.is_some() || model_col.is_some() {
                let ghost rows = view.skip(1);
                assert(list_rows(rows.take(0), cols) =~= Seq::empty());
                assert(done + Seq::<entry::Candidate>::empty() =~= done);
                for j in 1..table.len()
                    invariant
                        pattern::compiles(LIST_CODE@),
                        i < tables@.len(),
                        all == tables::tables_view(tables@),
                        table == tables@[i as int],
                        view == tables::table_view(table@),
                        view == all[i as int],
                        is_list(view),
                        cols == list_columns(view[0]),
                        cols == (wiki::Columns {
                            name: text::as_int(name_col),
                            number: text::as_int(model_col),
                            codename: text::as_int(codename_col),
                        }),
                        rows == view.skip(1),
                        done == list_candidates(all.take(i as int)),
                        list_candidates(all.take(i + 1)) == done + list_rows(rows, cols),
                        state.holds(done + list_rows(rows.take(j - 1), cols)),
                        entry::room(state.entries@.len(), limit),
                        limit == Some(0usize) ==> forall|k: int|
                            0 <= k < i ==> !is_list(#[trigger] all[k]),
                {
                    let ghost before = list_rows(rows.take(j - 1), cols);
                    proof {
                        assert(rows.take(j as int).drop_last() =~= rows.take(j - 1));
                        assert(rows.take(j as int).last() == tables::row_view(table@[j as int]@));
                    }
                    if let Some((key, e)) = list_row_entry(
                        &table[j],
                        name_col,
                        model_col,
                        codename_col,
                    ) {
                        let ghost cand = entry::Candidate {
                            key: text::strs(key@),
                            entry: Some(e@),
                        };
                        let added = state.offer(key, Some(e));
                        let ghost now = done + list_rows(rows.take(j as int), cols);
                        assert((done + before).push(cand) =~= now);
                        if added && entry::reached(state.entries.len(), limit) {
                            proof {
                                lemma_list_rows_head(rows, cols, j as int);
                                let next = list_candidates(all.take(i + 1));
                                assert(now =~= next.take(now.len() as int));
                                if limit == Some(0usize) {
                                    lemma_up_to_list(all, 0, i as int);
                                    entry::lemma_filled(now, next, limit);
                                } else {
                                    lemma_list_head(all, i + 1);
                                    entry::lemma_heads(now, next, list_candidates(all));
                                    entry::lemma_filled(now, list_candidates(all), limit);
                                }
                            }
                            return Ok(state.entries);
                        }
                    }
                }
                assert(rows.take(table@.len() - 1) =~= rows);
                if entry::reached(state.entries.len(), limit) {
                    proof {
                        lemma_up_to_list(all, 0, i as int);
                        assert(limit == Some(0usize));
                    }
                    return Ok(state.entries);
                }
            }
        }
    }
    proof {
        assert(all.take(tables@.len() as int) =~= all);
        if limit == Some(0usize) {
            lemma_up_to_list(all, 0, all.len() as int);
        }
    }
    Ok(state.entries)
}

// ---------------------------------------------------------------------------
// What is gathered
// ---------------------------------------------------------------------------

/// Position `i` is the first with its text.
pub open spec fn is_first(v: Seq<Seq<char>>) -> spec_fn(int) -> bool {
    |i: int| forall|j: int| 0 <= j < i ==> #[trigger] v[j] != v[i]
}

/// Texts without repetitions stand in the order in which they came first.
pub proof fn lemma_unrepeated_positions(v: Seq<Seq<char>>) -> (at: Seq<int>)
    ensures
        text::lists(at, v.len() as int, is_first(v)),
        at.len() == unrepeated(v).len(),
        forall|k: int| 0 <= k < at.len() ==> unrepeated(v)[k] == v[#[trigger] at[k]],
    decreases v.len(),
{
    let q = is_first(v);
    if v.len() == 0 {
        let none = Seq::<int>::empty();
        assert(text::lists(none, 0, q));
        none
    } else {
        let init = v.drop_last();
        let n = init.len() as int;
        let p = is_first(init);
        let before = lemma_unrepeated_positions(init);
        assert forall|i: int| 0 <= i < n implies #[trigger] p(i) == q(i) by {
            if p(i) {
                assert forall|j: int| 0 <= j < i implies #[trigger] v[j] != v[i] by {
                    assert(init[j] != init[i]);
                }
            }
            if q(i) {
                assert forall|j: int| 0 <= j < i implies #[trigger] init[j] != init[i] by {
                    assert(v[j] != v[i]);
                }
            }
        }
        text::lemma_lists_next(before, n, p, q);
        lemma_unrepeated(init);
        assert(v[n] == v.last());
        assert(q(n) == !unrepeated(init).contains(v.last())) by {
            if init.contains(v.last()) {
                let j = choose|j: int| 0 <= j < init.len() && init[j] == v.last();
                assert(v[j] == v[n]);
            }
            if !q(n) {
                let j = choose|j: int| 0 <= j < n && #[trigger] v[j] == v[n];
                assert(init[j] == v.last());
            }
        }
        let at = if q(n) {
            before.push(n)
        } else {
            before
        };
        assert forall|k: int| 0 <= k < at.len() implies unrepeated(v)[k] == v[#[trigger] at[k]] by {
            if k < before.len() {
                assert(at[k] == before[k]);
                assert(init[before[k]] == v[before[k]]);
            }
        }
        at
    }
}

proof fn lemma_codes_in(cells: Seq<Option<Seq<char>>>, x: Seq<char>)
    ensures
        codes_in(cells).contains(x) <==> exists|k: int|
            0 <= k < cells.len() && (#[trigger] cells[k]) is Some && pattern::matches_of(
                BOX_CODE@,
                cells[k]->0,
            ).contains(x),
    decreases cells.len(),
{
    if cells.len() > 0 {
        let init = cells.drop_last();
        lemma_codes_in(init, x);
        let before = codes_in(init);
        let all = codes_in(cells);
        let n = init.len() as int;
        assert(cells[n] == cells.last());
        if before.contains(x) {
            let k = choose|k: int|
                0 <= k < init.len() && (#[trigger] init[k]) is Some && pattern::matches_of(
                    BOX_CODE@,
                    init[k]->0,
                ).contains(x);
            assert(cells[k] == init[k]);
            let j = choose|j: int| 0 <= j < before.len() && before[j] == x;
            assert(all[j] == x);
        }
        if exists|k: int|
            0 <= k < cells.len() && (#[trigger] cells[k]) is Some && pattern::matches_of(
                BOX_CODE@,
                cells[k]->0,
            ).contains(x) {
            let k = choose|k: int|
                0 <= k < cells.len() && (#[trigger] cells[k]) is Some && pattern::matches_of(
                    BOX_CODE@,
                    cells[k]->0,
                ).contains(x);
            if k < n {
                assert(init[k] == cells[k]);
            } else {
                let more = pattern::matches_of(BOX_CODE@, cells[k]->0);
                let j = choose|j: int| 0 <= j < more.len() && more[j] == x;
                assert(all[before.len() + j] == x);
            }
        }
        if all.contains(x) && !before.contains(x) {
            let j = choose|j: int| 0 <= j < all.len() && all[j] == x;
            if j < before.len() {
                assert(before[j] == x);
            }
            let more = pattern::matches_of(BOX_CODE@, cells.last()->0);
            assert(more[j - before.len()] == x);
        }
    }
}

/// The model codes of an article are all codes that the pattern finds in a cell of a
/// model row of the info box, each once.
pub proof fn lemma_codes_of_an_article(html: Seq<char>, x: Seq<char>)
    ensures
        box_codes(html).no_duplicates(),
        ({
            let info_box = pattern::first_group(
                "(?is)<table[^>]*class=\"[^\"]*infobox[^\"]*\"[^>]*>(.*?)</table>"@,
                html,
            );
            let cells = pattern::groups(
                "(?is)<th[^>]*>.*?Model.*?</th>\\s*<td[^>]*>(.*?)</td>"@,
                info_box->0,
            );
            box_codes(html).contains(x) <==> info_box is Some && exists|k: int|
                0 <= k < cells.len() && (#[trigger] cells[k]) is Some && pattern::matches_of(
                    "\\b[A-Z]{2,4}-[A-Z]{2}\\d{2,3}\\b"@,
                    cells[k]->0,
                ).contains(x)
        }),
{
    match pattern::first_group(INFOBOX@, html) {
        Some(table) => {
            let cells = pattern::groups(MODEL_ROW@, table);
            lemma_unrepeated(codes_in(cells));
            lemma_codes_in(cells, x);
        },
        None => {},
    }
}

/// The title of a member of a reply.
pub open spec fn member_title(reply: JsonView, k: int) -> Seq<char> {
    reply.get("query"@).get("categorymembers"@).items()[k].get("title"@).text_or_empty()
}

/// Each title that counts as met is gathered.
pub open spec fn met_is_gathered(t: TourView) -> bool {
    forall|title: Seq<char>| #[trigger]
        t.seen_titles.contains(seq![title]) ==> t.titles.contains(title)
}

proof fn lemma_with_members(t: TourView, members: Seq<JsonView>, n: nat)
    requires
        met_is_gathered(t),
        n <= members.len(),
    ensures
        ({
            let r = t.with_members(members, n);
            &&& met_is_gathered(r)
            &&& t.titles.len() <= r.titles.len() && r.titles.take(t.titles.len() as int) == t.titles
            &&& t.waiting.len() <= r.waiting.len() && r.waiting.take(t.waiting.len() as int)
                == t.waiting
            &&& forall|k: int|
                0 <= k < n ==> {
                    let title = (#[trigger] members[k]).get("title"@).text_or_empty();
                    if text::begins(title, "Category:"@) {
                        r.waiting.contains(title)
                    } else {
                        r.titles.contains(title)
                    }
                }
            &&& forall|x: int|
                t.titles.len() <= x < r.titles.len() ==> exists|k: int|
                    0 <= k < n && (#[trigger] r.titles[x]) == (#[trigger] members[k]).get(
                        "title"@,
                    ).text_or_empty() && !text::begins(r.titles[x], "Category:"@)
        }),
    decreases n,
{
    if n > 0 {
        let m = (n - 1) as nat;
        lemma_with_members(t, members, m);
        let s = t.with_members(members, m);
        let r = t.with_members(members, n);
        let title = members[n - 1].get("title"@).text_or_empty();
        assert forall|x: Seq<char>| s.titles.contains(x) implies #[trigger] r.titles.contains(x) by {
            let i = choose|i: int| 0 <= i < s.titles.len() && s.titles[i] == x;
            assert(r.titles[i] == x);
        }
        assert forall|x: Seq<char>| s.waiting.contains(x) implies #[trigger] r.waiting.contains(
            x,
        ) by {
            let i = choose|i: int| 0 <= i < s.waiting.len() && s.waiting[i] == x;
            assert(r.waiting[i] == x);
        }
        assert(seq![title][0] == title);
        assert forall|x: Seq<char>| #[trigger] r.seen_titles.contains(seq![x]) implies r.titles.contains(
            x,
        ) by {
            if s.seen_titles.contains(seq![x]) {
                assert(s.titles.contains(x));
            } else {
                assert(seq![x][0] == seq![title][0]);
                assert(r.titles[s.titles.len() as int] == x);
            }
        }
        if text::begins(title, "Category:"@) {
            assert(r.waiting[s.waiting.len() as int] == title);
        } else if s.seen_titles.contains(seq![title]) {
            assert(s.titles.contains(title));
        } else {
            assert(r.titles[s.titles.len() as int] == title);
        }
        assert forall|k: int| 0 <= k < n implies {
            let title = (#[trigger] members[k]).get("title"@).text_or_empty();
            if text::begins(title, "Category:"@) {
                r.waiting.contains(title)
            } else {
                r.titles.contains(title)
            }
        } by {
            if k < m {
                let x = members[k].get("title"@).text_or_empty();
                assert(text::begins(x, "Category:"@) ==> s.waiting.contains(x));
                assert(!text::begins(x, "Category:"@) ==> s.titles.contains(x));
            }
        }
        assert(r.titles.take(t.titles.len() as int) =~= s.titles.take(t.titles.len() as int));
        assert(r.waiting.take(t.waiting.len() as int) =~= s.waiting.take(t.waiting.len() as int));
        assert forall|x: int| t.titles.len() <= x < r.titles.len() implies exists|k: int|
            0 <= k < n && (#[trigger] r.titles[x]) == (#[trigger] members[k]).get(
                "title"@,
            ).text_or_empty() && !text::begins(r.titles[x], "Category:"@) by {
            if x < s.titles.len() {
                assert(r.titles[x] == s.titles[x]);
                let k = choose|k: int|
                    0 <= k < m && s.titles[x] == (#[trigger] members[k]).get(
                        "title"@,
                    ).text_or_empty() && !text::begins(s.titles[x], "Category:"@);
                assert(r.titles[x] == members[k].get("title"@).text_or_empty());
            } else {
                assert(r.titles[x] == members[n - 1].get("title"@).text_or_empty());
            }
        }
    } else {
        assert(t.titles.take(t.titles.len() as int) =~= t.titles);
        assert(t.waiting.take(t.waiting.len() as int) =~= t.waiting);
    }
}

/// No member of a category is lost: after a reply each page among its members is
/// gathered and each category among them waits, what was there stays, and where the
/// reply has a mark to go on from, the next part of the category is asked for.
pub proof fn lemma_each_member_is_gathered(t: TourView, reply: JsonView, k: int)
    requires
        met_is_gathered(t),
        t.current is Some,
        0 <= k < reply.get("query"@).get("categorymembers"@).items().len(),
    ensures
        ({
            let r = t.replied(Some(reply));
            let title = member_title(reply, k);
            let more = reply.get("continue"@).get("cmcontinue"@).text_or_empty();
            &&& met_is_gathered(r)
            &&& text::begins(title, "Category:"@) ==> r.waiting.contains(title)
            &&& !text::begins(title, "Category:"@) ==> r.titles.contains(title)
            &&& t.titles.len() <= r.titles.len() && r.titles.take(t.titles.len() as int) == t.titles
            &&& t.waiting.len() <= r.waiting.len() && r.waiting.take(t.waiting.len() as int)
                == t.waiting
            &&& r.seen_categories == t.seen_categories
            &&& more.len() == 0 <==> r.current is None
            &&& more.len() > 0 ==> r.current == Some(((t.current->0).0, more))
        }),
{
    let members = reply.get("query"@).get("categorymembers"@).items();
    lemma_with_members(t, members, members.len());
    lemma_members_only(t, members, members.len());
    assert(members[k].get("title"@).text_or_empty() == member_title(reply, k));
}

proof fn lemma_members_only(t: TourView, members: Seq<JsonView>, n: nat)
    ensures
        t.with_members(members, n).seen_categories == t.seen_categories,
        t.with_members(members, n).current == t.current,
    decreases n,
{
    if n > 0 {
        lemma_members_only(t, members, (n - 1) as nat);
    }
}

/// Each category that waits and was not met before is asked for, the last first.
pub proof fn lemma_each_category_is_asked_for(t: TourView, k: int)
    requires
        t.current is None,
        0 <= k < t.waiting.len(),
        !t.seen_categories.contains(seq![t.waiting[k]]),
        forall|j: int|
            k < j < t.waiting.len() ==> t.seen_categories.contains(seq![#[trigger] t.waiting[j]]),
    ensures
        t.advanced().current == Some((t.waiting[k], Seq::<char>::empty())),
        t.advanced().waiting == t.waiting.take(k),
    decreases t.waiting.len(),
{
    let category = t.waiting.last();
    assert(t.waiting[t.waiting.len() - 1] == category);
    let popped = TourView { waiting: t.waiting.drop_last(), ..t };
    if k < t.waiting.len() - 1 {
        assert(t.seen_categories.contains(seq![t.waiting[t.waiting.len() - 1]]));
        assert forall|j: int| k < j < popped.waiting.len() implies popped.seen_categories.contains(
            seq![#[trigger] popped.waiting[j]],
        ) by {
            assert(popped.waiting[j] == t.waiting[j]);
        }
        lemma_each_category_is_asked_for(popped, k);
        assert(popped.waiting.take(k) =~= t.waiting.take(k));
    } else {
        assert(t.waiting.drop_last() =~= t.waiting.take(k));
    }
}

/// The titles of articles on devices are all titles but lists, services and those
/// about smartphones at large.
pub proof fn lemma_device_titles(titles: Seq<Seq<char>>, x: Seq<char>)
    ensures
        text::select(titles, |t: Seq<char>| on_device(t)).contains(x) <==> titles.contains(x) && !(
        x.len() >= 7 && x.take(7) == "List of"@) && !text::has(x, "Mobile Services"@) && !text::has(
            x,
            "Smartphone"@,
        ),
{
    let p = |t: Seq<char>| on_device(t);
    text::lemma_select(titles, p, x);
    assert(p(x) == on_device(x));
    reveal_strlit("List of");
    if x.len() >= 7 {
        assert(x.subrange(0, 7) =~= x.take(7));
    }
}

/// The name of a device is the title of its article without the maker in front,
/// however often it stands there.
pub proof fn lemma_device_name(s: Seq<char>)
    ensures
        device_name("Huawei "@ + s) == device_name(s),
        !text::begins(s, "Huawei "@) ==> device_name("HUAWEI "@ + s) == device_name(s),
        !text::begins(s, "Huawei "@) && !text::begins(s, "HUAWEI "@) ==> device_name(s) == s,
{
    reveal_strlit("Huawei ");
    reveal_strlit("HUAWEI ");
    let a = "Huawei "@;
    let b = "HUAWEI "@;
    assert((a + s).subrange(0, 7) =~= a);
    assert((a + s).skip(7) =~= s);
    assert((b + s).subrange(0, 7) =~= b);
    assert((b + s).skip(7) =~= s);
    assert(a[1] == 'u' && b[1] == 'U');
    if text::begins(b + s, a) {
        assert((b + s).subrange(0, 7)[1] == 'U');
    }
}

/// An article with model codes that were not met together before gives a device with
/// these codes in their order; another article changes nothing that was found.
pub proof fn lemma_article(found: entry::EntriesView, title: Seq<char>, codes: Seq<Seq<char>>)
    ensures
        ({
            let r = found_with(found, article_candidate(title, codes));
            let key = seq![text::joined(codes, "|"@)];
            &&& codes.len() > 0 && !found.seen.contains(key) ==> {
                &&& r.entries.len() == found.entries.len() + 1
                &&& r.entries.drop_last() == found.entries
                &&& r.seen == found.seen.insert(key)
                &&& {
                    let e = r.entries.last();
                    &&& e.brand == "华为 (Huawei)"@
                    &&& e.name == device_name(title)
                    &&& e.series == Some("维基百科"@)
                    &&& e.code is None && e.codename is None
                    &&& e.models.len() == 1
                    &&& e.models[0].ids == codes
                    &&& e.models[0].market_name == e.name
                }
            }
            &&& codes.len() == 0 || found.seen.contains(key) ==> r.entries == found.entries
            &&& codes.len() == 0 ==> r == found
        }),
{
    let r = found_with(found, article_candidate(title, codes));
    if codes.len() > 0 && !found.seen.contains(seq![text::joined(codes, "|"@)]) {
        assert(r.entries.drop_last() =~= found.entries);
    }
}

/// The columns of a table of the list.
pub open spec fn are_list_columns(header: Seq<(bool, Seq<char>)>, cols: wiki::Columns) -> bool {
    &&& wiki::first_column(header, seq!["名称"@], cols.name)
    &&& wiki::first_column(header, seq!["型号"@], cols.number)
    &&& wiki::first_column(header, seq!["代号"@], cols.codename)
}

/// The text of a row in a column, trimmed; empty where the row has none there.
pub open spec fn list_text(row: Seq<(bool, Seq<char>)>, column: Option<int>) -> Seq<char> {
    if column is Some && 0 <= column->0 < row.len() {
        text::trimmed(row[column->0].1)
    } else {
        Seq::empty()
    }
}

/// What a row of the list gives, in words: a device exactly where it is no section
/// heading and codes were found in it; these are its ids, in ascending order and each
/// once.
pub proof fn lemma_list_row(row: Seq<(bool, Seq<char>)>, cols: wiki::Columns, found: Seq<Seq<char>>)
    ensures
        coded_candidate(row, cols, found) is Some <==> !(row.len() == 1 && row[0].0) && found.len()
            > 0,
        coded_candidate(row, cols, found) matches Some(c) ==> {
            &&& c.entry is Some
            &&& c.key == seq![text::joined(c.entry->0.models[0].ids, "|"@)]
            &&& {
                let e = c.entry->0;
                &&& e.brand == "华为 (Huawei)"@
                &&& e.name == (if list_text(row, cols.name).len() > 0 {
                    list_text(row, cols.name)
                } else {
                    list_text(row, cols.number)
                })
                &&& e.series == Some("华为智能手机型号列表"@)
                &&& e.code is None
                &&& e.codename == Some(list_text(row, cols.codename))
                &&& e.models.len() == 1
                &&& e.models[0].market_name == e.name
                &&& text::increasing(e.models[0].ids)
                &&& forall|x: Seq<char>| #[trigger]
                    e.models[0].ids.contains(x) <==> found.contains(x)
            }
        },
{
    text::lemma_sorted_set(found);
    let codes = text::sorted_set(found);
    assert forall|x: Seq<char>| #[trigger] codes.contains(x) <==> found.contains(x) by {}
    if found.len() > 0 {
        assert(found.contains(found[0]));
        assert(codes.contains(found[0]));
    }
    if codes.len() > 0 {
        assert(codes.contains(codes[0]));
    }
    assert(list_text(row, cols.name).len() == 0 ==> list_text(row, cols.name) =~= Seq::empty());
    assert(list_text(row, cols.number).len() == 0 ==> list_text(row, cols.number) =~= Seq::empty());
    assert(list_text(row, cols.codename).len() == 0 ==> list_text(row, cols.codename)
        =~= Seq::empty());
}

proof fn lemma_list_rows(rows: Seq<Seq<(bool, Seq<char>)>>, cols: wiki::Columns) -> (at: Seq<int>)
    ensures
        text::lists(at, rows.len() as int, |k: int| list_candidate(rows[k], cols) is Some),
        at.len() == list_rows(rows, cols).len(),
        forall|j: int|
            0 <= j < at.len() ==> list_candidate(rows[#[trigger] at[j]], cols) == Some(
                list_rows(rows, cols)[j],
            ),
    decreases rows.len(),
{
    let q = |k: int| list_candidate(rows[k], cols) is Some;
    if rows.len() == 0 {
        let none = Seq::<int>::empty();
        assert(text::lists(none, 0, q));
        none
    } else {
        let init = rows.drop_last();
        let n = init.len() as int;
        let p = |k: int| list_candidate(init[k], cols) is Some;
        let before = lemma_list_rows(init, cols);
        assert forall|k: int| 0 <= k < n implies #[trigger] p(k) == q(k) by {}
        text::lemma_lists_next(before, n, p, q);
        assert(rows[n] == rows.last());
        let at = if q(n) {
            before.push(n)
        } else {
            before
        };
        assert forall|j: int| 0 <= j < at.len() implies list_candidate(rows[#[trigger] at[j]], cols)
            == Some(list_rows(rows, cols)[j]) by {
            if j < before.len() {
                assert(at[j] == before[j]);
                assert(init[before[j]] == rows[before[j]]);
            }
        }
        at
    }
}

spec fn all_have_entries(c: Seq<entry::Candidate>) -> bool {
    forall|j: int| 0 <= j < c.len() ==> list_made(#[trigger] c[j])
}

spec fn list_made(c: entry::Candidate) -> bool {
    c.entry is Some && c.entry->0.models.len() == 1 && c.key == seq![
        text::joined(c.entry->0.models[0].ids, "|"@),
    ]
}

proof fn lemma_list_candidates(all: Seq<Seq<Seq<(bool, Seq<char>)>>>)
    ensures
        all_have_entries(list_candidates(all)),
    decreases all.len(),
{
    if all.len() > 0 {
        let init = all.drop_last();
        lemma_list_candidates(init);
        if is_list(all.last()) {
            let rows = all.last().skip(1);
            let cols = list_columns(all.last()[0]);
            let more = list_rows(rows, cols);
            let before = list_candidates(init);
            let at = lemma_list_rows(rows, cols);
            let total = list_candidates(all);
            assert forall|j: int| 0 <= j < total.len() implies list_made(#[trigger] total[j]) by {
                if j < before.len() {
                    assert(total[j] == before[j]);
                } else {
                    let k = j - before.len();
                    assert(total[j] == more[k]);
                    assert(list_candidate(rows[at[k]], cols) == Some(more[k]));
                    lemma_list_row(
                        rows[at[k]],
                        cols,
                        pattern::matches_of(
                            LIST_CODE@,
                            wiki::or_empty(list_cell(rows[at[k]], cols.number)),
                        ),
                    );
                }
            }
        }
    }
}

proof fn lemma_list_position(
    all: Seq<Seq<Seq<(bool, Seq<char>)>>>,
    t: int,
    r: int,
    cols: wiki::Columns,
) -> (n: int)
    requires
        0 <= t < all.len(),
        1 <= r < all[t].len(),
        cols == list_columns(all[t][0]),
        is_list(all[t]),
        list_candidate(all[t][r], cols) is Some,
    ensures
        0 <= n < list_candidates(all).len(),
        list_candidate(all[t][r], cols) == Some(list_candidates(all)[n]),
    decreases all.len(),
{
    let init = all.drop_last();
    let before = list_candidates(init);
    let total = list_candidates(all);
    if t < init.len() {
        assert(init[t] == all[t]);
        let n = lemma_list_position(init, t, r, cols);
        assert(total[n] == before[n]);
        n
    } else {
        let rows = all.last().skip(1);
        let at = lemma_list_rows(rows, cols);
        let q = |k: int| list_candidate(rows[k], cols) is Some;
        assert(rows[r - 1] == all[t][r]);
        assert(q(r - 1));
        let k = choose|k: int| 0 <= k < at.len() && at[k] == r - 1;
        assert(list_candidate(rows[at[k]], cols) == Some(list_rows(rows, cols)[k]));
        assert(total[before.len() + k] == list_rows(rows, cols)[k]);
        before.len() + k
    }
}

/// No row of the list with model codes is lost: where there is no limit, one of the
/// entries has all its codes and no others. The codes are those that the pattern
/// finds in the column of models, and none of them has a bar in it.
pub proof fn lemma_each_list_row_has_an_entry(
    all: Seq<Seq<Seq<(bool, Seq<char>)>>>,
    t: int,
    r: int,
    cols: wiki::Columns,
) -> (i: int)
    requires
        0 <= t < all.len(),
        1 <= r < all[t].len(),
        are_list_columns(all[t][0], cols),
        cols.name is Some || cols.number is Some,
        !(all[t][r].len() == 1 && all[t][r][0].0),
        pattern::matches_of(
            "\\b[A-Z]{2,4}[0-9]?-[A-Z]{1,3}[0-9]{1,3}\\b"@,
            list_text(all[t][r], cols.number),
        ).len() > 0,
    ensures
        ({
            let out = list_entries(all, None);
            let found = pattern::matches_of(
                "\\b[A-Z]{2,4}[0-9]?-[A-Z]{1,3}[0-9]{1,3}\\b"@,
                list_text(all[t][r], cols.number),
            );
            &&& 0 <= i < out.len()
            &&& out[i].models.len() == 1
            &&& text::free_of(found, '|') && text::free_of(out[i].models[0].ids, '|')
                && out[i].models[0].ids.len() > 0 ==> forall|x: Seq<char>| #[trigger]
                out[i].models[0].ids.contains(x) <==> found.contains(x)
        }),
{
    let header = all[t][0];
    wiki::lemma_first_column(header, seq!["名称"@]);
    wiki::lemma_first_column(header, seq!["型号"@]);
    wiki::lemma_first_column(header, seq!["代号"@]);
    wiki::lemma_only_column(
        header,
        seq!["名称"@],
        cols.name,
        wiki::column_of(header, seq!["名称"@]),
    );
    wiki::lemma_only_column(
        header,
        seq!["型号"@],
        cols.number,
        wiki::column_of(header, seq!["型号"@]),
    );
    wiki::lemma_only_column(
        header,
        seq!["代号"@],
        cols.codename,
        wiki::column_of(header, seq!["代号"@]),
    );
    assert(cols == list_columns(header));
    let row = all[t][r];
    let raw = wiki::or_empty(list_cell(row, cols.number));
    assert(raw =~= list_text(row, cols.number));
    let found = pattern::matches_of(LIST_CODE@, raw);
    lemma_list_row(row, cols, found);
    let total = list_candidates(all);
    let n = lemma_list_position(all, t, r, cols);
    lemma_list_candidates(all);
    assert forall|j: int| 0 <= j < total.len() implies (#[trigger] total[j]).entry is Some by {
        assert(list_made(total[j]));
    }
    let i = entry::lemma_each_key_stays(total, n);
    let o = entry::origins(total)[i];
    assert(list_made(total[o]) && list_made(total[n]));
    let a = total[n].entry->0.models[0].ids;
    let b = total[o].entry->0.models[0].ids;
    assert(seq![text::joined(a, "|"@)][0] == seq![text::joined(b, "|"@)][0]);
    reveal_strlit("|");
    assert("|"@ =~= seq!['|']);
    let out = list_entries(all, None);
    assert(out == entry::distinct(total));
    if text::free_of(found, '|') && text::free_of(b, '|') && b.len() > 0 {
        assert(a.contains(found[0])) by {
            assert(found.contains(found[0]));
        }
        assert(text::free_of(a, '|')) by {
            assert forall|k: int| 0 <= k < a.len() implies !(#[trigger] a[k]).contains('|') by {
                assert(a.contains(a[k]));
                let j = choose|j: int| 0 <= j < found.len() && found[j] == a[k];
                assert(!found[j].contains('|'));
            }
        }
        text::lemma_joined_apart(a, b, '|');
    }
    i
}

proof fn lemma_list_source(all: Seq<Seq<Seq<(bool, Seq<char>)>>>, n: int) -> (at: (int, int))
    requires
        0 <= n < list_candidates(all).len(),
    ensures
        0 <= at.0 < all.len(),
        1 <= at.1 < all[at.0].len(),
        is_list(all[at.0]),
        list_candidate(all[at.0][at.1], list_columns(all[at.0][0])) == Some(
            list_candidates(all)[n],
        ),
    decreases all.len(),
{
    let init = all.drop_last();
    let before = list_candidates(init);
    let total = list_candidates(all);
    if n < before.len() {
        let at = lemma_list_source(init, n);
        assert(init[at.0] == all[at.0]);
        assert(total[n] == before[n]);
        at
    } else {
        let t = all.len() - 1;
        let rows = all.last().skip(1);
        let cols = list_columns(all.last()[0]);
        let at = lemma_list_rows(rows, cols);
        let k = n - before.len();
        assert(is_list(all.last()));
        assert(total[n] == list_rows(rows, cols)[k]);
        assert(list_candidate(rows[at[k]], cols) == Some(list_rows(rows, cols)[k]));
        assert(rows[at[k]] == all[t][at[k] + 1]);
        (t, at[k] + 1)
    }
}

/// Each entry of the list is that of a row below a heading of names or models: it has
/// the name of the row, or else its models, its codename, and the codes that the
/// pattern finds in its column of models.
pub proof fn lemma_each_list_entry_has_a_row(
    all: Seq<Seq<Seq<(bool, Seq<char>)>>>,
    i: int,
) -> (at: (int, int, wiki::Columns))
    requires
        0 <= i < list_entries(all, None).len(),
    ensures
        ({
            let e = list_entries(all, None)[i];
            let (t, r, cols) = at;
            let row = all[t][r];
            &&& 0 <= t < all.len()
            &&& 1 <= r < all[t].len()
            &&& are_list_columns(all[t][0], cols)
            &&& !(row.len() == 1 && row[0].0)
            &&& e.brand == "华为 (Huawei)"@
            &&& e.name == (if list_text(row, cols.name).len() > 0 {
                list_text(row, cols.name)
            } else {
                list_text(row, cols.number)
            })
            &&& e.codename == Some(list_text(row, cols.codename))
            &&& e.models.len() == 1
            &&& text::increasing(e.models[0].ids)
            &&& forall|x: Seq<char>| #[trigger]
                e.models[0].ids.contains(x) <==> pattern::matches_of(
                    "\\b[A-Z]{2,4}[0-9]?-[A-Z]{1,3}[0-9]{1,3}\\b"@,
                    list_text(row, cols.number),
                ).contains(x)
        }),
{
    let total = list_candidates(all);
    entry::lemma_distinct_repeats_nothing(total);
    let o = entry::origins(total)[i];
    let at = lemma_list_source(all, o);
    let row = all[at.0][at.1];
    let header = all[at.0][0];
    let cols = list_columns(header);
    wiki::lemma_first_column(header, seq!["名称"@]);
    wiki::lemma_first_column(header, seq!["型号"@]);
    wiki::lemma_first_column(header, seq!["代号"@]);
    let raw = wiki::or_empty(list_cell(row, cols.number));
    assert(raw =~= list_text(row, cols.number));
    lemma_list_row(row, cols, pattern::matches_of(LIST_CODE@, raw));
    assert(total[o].entry == Some(list_entries(all, None)[i]));
    (at.0, at.1, cols)
}

/// A reply that cannot be read ends the category and changes nothing else.
pub proof fn lemma_unreadable_reply(t: TourView)
    ensures
        t.replied(None).current is None,
        t.replied(None).titles == t.titles,
        t.replied(None).waiting == t.waiting,
        t.replied(None).seen_titles == t.seen_titles,
        t.replied(None).seen_categories == t.seen_categories,
{
}

/// A limit keeps the first devices of the list, as many as it says; a limit of nothing
/// keeps one at most.
pub proof fn lemma_list_limit(all: Seq<Seq<Seq<(bool, Seq<char>)>>>, limit: usize)
    ensures
        ({
            let whole = list_entries(all, None);
            let some = list_entries(all, Some(limit));
            &&& some.len() <= whole.len()
            &&& some == whole.take(some.len() as int)
            &&& limit > 0 ==> some.len() == (if whole.len() < limit {
                whole.len() as int
            } else {
                limit as int
            })
            &&& limit == 0 ==> some.len() <= 1
        }),
{
    let whole = list_entries(all, None);
    assert(whole.take(whole.len() as int) =~= whole);
    if limit == 0 {
        let n = up_to_list(all, 0);
        lemma_first_list(all, 0);
        lemma_list_begins(all, n);
        let p = list_candidates(all.take(n));
        entry::lemma_distinct_prefix(list_candidates(all), p.len() as int);
        let read = entry::distinct(p);
        assert(read =~= whole.take(read.len() as int));
        let some = list_entries(all, Some(limit));
        assert(some =~= whole.take(some.len() as int));
    }
}

proof fn lemma_first_list(all: Seq<Seq<Seq<(bool, Seq<char>)>>>, i: int)
    requires
        0 <= i <= all.len(),
    ensures
        0 <= up_to_list(all, i) <= all.len(),
    decreases all.len() - i,
{
    if i < all.len() && !is_list(all[i]) {
        lemma_first_list(all, i + 1);
    }
}

proof fn lemma_list_begins(all: Seq<Seq<Seq<(bool, Seq<char>)>>>, n: int)
    requires
        0 <= n <= all.len(),
    ensures
        ({
            let p = list_candidates(all.take(n));
            let c = list_candidates(all);
            p.len() <= c.len() && p == c.take(p.len() as int)
        }),
    decreases all.len(),
{
    if n < all.len() {
        let init = all.drop_last();
        lemma_list_begins(init, n);
        assert(init.take(n) =~= all.take(n));
        let p = list_candidates(all.take(n));
        assert(p =~= list_candidates(all).take(p.len() as int));
    } else {
        assert(all.take(n) =~= all);
        let c = list_candidates(all);
        assert(c.take(c.len() as int) =~= c);
    }
}

} // verus!
