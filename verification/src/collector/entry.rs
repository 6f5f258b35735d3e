//! Collected device entries, and how repeated ones are dropped.

use crate::model;
use crate::model::Model;
use crate::seen::SeenSet;
use crate::text;
use vstd::prelude::*;

verus! {

broadcast use vstd::string::group_string_axioms;

/// A device as it is written to a collected file. Absent fields are left out of
/// the file.
#[derive(Debug, Clone)]
pub struct DeviceEntry {
    pub brand: String,
    pub name: String,
    pub series: Option<String>,
    pub code: Option<String>,
    pub codename: Option<String>,
    pub models: Vec<Model>,
}

/// The contents of an entry.
pub struct EntryView {
    pub brand: Seq<char>,
    pub name: Seq<char>,
    pub series: Option<Seq<char>>,
    pub code: Option<Seq<char>>,
    pub codename: Option<Seq<char>>,
    pub models: Seq<model::ModelView>,
}

impl View for DeviceEntry {
    type V = EntryView;

    open spec fn view(&self) -> EntryView {
        EntryView {
            brand: self.brand@,
            name: self.name@,
            series: text::opt_str(self.series),
            code: text::opt_str(self.code),
            codename: text::opt_str(self.codename),
            models: model::models_view(self.models@),
        }
    }
}

/// The contents of a list of entries.
pub open spec fn entries_view(v: Seq<DeviceEntry>) -> Seq<EntryView> {
    Seq::new(v.len(), |i: int| v[i]@)
}

/// The contents of an optional entry.
pub open spec fn opt_entry(e: Option<DeviceEntry>) -> Option<EntryView> {
    match e {
        Some(e) => Some(e@),
        None => None,
    }
}

/// The model list with one row.
pub open spec fn one_model(ids: Seq<Seq<char>>, market_name: Seq<char>) -> Seq<model::ModelView> {
    seq![model::ModelView { ids, market_name }]
}

/// Something met while collecting: the key by which it is recognised, and the
/// entry that it gives, if any.
pub struct Candidate {
    pub key: Seq<Seq<char>>,
    pub entry: Option<EntryView>,
}

/// One of the candidates has the key.
pub open spec fn met(c: Seq<Candidate>, key: Seq<Seq<char>>) -> bool {
    exists|j: int| 0 <= j < c.len() && (#[trigger] c[j]).key == key
}

/// The entries of the candidates whose key no earlier candidate has.
pub open spec fn distinct(c: Seq<Candidate>) -> Seq<EntryView>
    decreases c.len(),
{
    if c.len() == 0 {
        Seq::empty()
    } else {
        let before = distinct(c.drop_last());
        match c.last().entry {
            Some(e) if !met(c.drop_last(), c.last().key) => before.push(e),
            _ => before,
        }
    }
}

/// The first entries up to the limit. A limit of nothing lets one through: it is
/// looked at when an entry has been added.
pub open spec fn limited(v: Seq<EntryView>, limit: Option<usize>) -> Seq<EntryView> {
    match limit {
        Some(l) => {
            let n = if l == 0 {
                1
            } else {
                l as int
            };
            if v.len() <= n {
                v
            } else {
                v.take(n)
            }
        },
        None => v,
    }
}

/// There is room for one more entry.
pub open spec fn room(len: nat, limit: Option<usize>) -> bool {
    match limit {
        Some(l) => len < l || len == 0,
        None => true,
    }
}

/// Later candidates only add entries at the end.
pub proof fn lemma_distinct_prefix(c: Seq<Candidate>, i: int)
    requires
        0 <= i <= c.len(),
    ensures
        distinct(c.take(i)).len() <= distinct(c).len(),
        distinct(c.take(i)) == distinct(c).take(distinct(c.take(i)).len() as int),
    decreases c.len(),
{
    if i < c.len() {
        assert(c.drop_last().take(i) =~= c.take(i));
        lemma_distinct_prefix(c.drop_last(), i);
        let n = distinct(c.take(i)).len() as int;
        assert(distinct(c.drop_last()).take(n) =~= distinct(c).take(n));
    } else {
        assert(c.take(i) =~= c);
        assert(distinct(c).take(distinct(c).len() as int) =~= distinct(c));
    }
}

/// `p` is how `c` begins.
pub open spec fn heads(p: Seq<Candidate>, c: Seq<Candidate>) -> bool {
    p.len() <= c.len() && p == c.take(p.len() as int)
}

/// A beginning of a beginning is a beginning, and so is one behind the same
/// candidates.
pub proof fn lemma_heads(p: Seq<Candidate>, q: Seq<Candidate>, c: Seq<Candidate>)
    requires
        heads(p, q),
        heads(q, c),
    ensures
        heads(p, c),
{
    assert(p =~= c.take(p.len() as int));
}

/// Where the entries so far fill the limit, they are the limited result.
pub proof fn lemma_filled(p: Seq<Candidate>, c: Seq<Candidate>, limit: Option<usize>)
    requires
        heads(p, c),
        limit matches Some(l) && distinct(p).len() == (if l == 0 {
            1
        } else {
            l as int
        }),
    ensures
        limited(distinct(c), limit) == distinct(p),
{
    lemma_distinct_prefix(c, p.len() as int);
    assert(distinct(c).take(distinct(c).len() as int) =~= distinct(c));
}

/// The positions of the candidates that the entries stem from.
pub open spec fn origins(c: Seq<Candidate>) -> Seq<int>
    decreases c.len(),
{
    if c.len() == 0 {
        Seq::empty()
    } else {
        let before = origins(c.drop_last());
        if c.last().entry is Some && !met(c.drop_last(), c.last().key) {
            before.push(c.len() - 1)
        } else {
            before
        }
    }
}

/// The entries stem from candidates in their order, and no two of them from
/// candidates with the same key.
pub proof fn lemma_distinct_repeats_nothing(c: Seq<Candidate>)
    ensures
        origins(c).len() == distinct(c).len(),
        forall|i: int|
            0 <= i < origins(c).len() ==> 0 <= #[trigger] origins(c)[i] < c.len()
                && c[origins(c)[i]].entry == Some(distinct(c)[i]),
        forall|i: int, j: int|
            0 <= i < j < origins(c).len() ==> #[trigger] origins(c)[i] < #[trigger] origins(c)[j]
                && c[origins(c)[i]].key != c[origins(c)[j]].key,
    decreases c.len(),
{
    if c.len() > 0 {
        let init = c.drop_last();
        lemma_distinct_repeats_nothing(init);
        let before = origins(init);
        let after = origins(c);
        assert forall|i: int| 0 <= i < after.len() implies 0 <= #[trigger] after[i] < c.len()
            && c[after[i]].entry == Some(distinct(c)[i]) by {
            if i < before.len() {
                assert(after[i] == before[i]);
                assert(c[before[i]] == init[before[i]]);
            }
        }
        assert forall|i: int, j: int| 0 <= i < j < after.len() implies #[trigger] after[i]
            < #[trigger] after[j] && c[after[i]].key != c[after[j]].key by {
            assert(after[i] == before[i]);
            assert(c[before[i]] == init[before[i]]);
            if j < before.len() {
                assert(after[j] == before[j]);
                assert(c[before[j]] == init[before[j]]);
            }
        }
    }
}

/// A candidate with an entry and a key that no earlier one has is not left out.
pub proof fn lemma_distinct_leaves_nothing_out(c: Seq<Candidate>, k: int)
    requires
        0 <= k < c.len(),
        c[k].entry is Some,
        !met(c.take(k), c[k].key),
    ensures
        exists|i: int| 0 <= i < origins(c).len() && #[trigger] origins(c)[i] == k,
    decreases c.len(),
{
    let init = c.drop_last();
    let before = origins(init);
    let after = origins(c);
    if k == c.len() - 1 {
        assert(c.take(k) =~= init);
        assert(after[before.len() as int] == k);
    } else {
        assert(init.take(k) =~= c.take(k));
        lemma_distinct_leaves_nothing_out(init, k);
        let i = choose|i: int| 0 <= i < before.len() && #[trigger] before[i] == k;
        assert(after[i] == k);
    }
}

/// Where each candidate has an entry, each key stays: one of the entries stems from
/// the first candidate with that key.
pub proof fn lemma_each_key_stays(c: Seq<Candidate>, k: int) -> (i: int)
    requires
        0 <= k < c.len(),
        forall|j: int| 0 <= j < c.len() ==> (#[trigger] c[j]).entry is Some,
    ensures
        0 <= i < distinct(c).len(),
        i < origins(c).len(),
        0 <= origins(c)[i] <= k,
        c[origins(c)[i]].key == c[k].key,
        c[origins(c)[i]].entry == Some(distinct(c)[i]),
        !met(c.take(origins(c)[i]), c[k].key),
    decreases k,
{
    lemma_distinct_repeats_nothing(c);
    if met(c.take(k), c[k].key) {
        let j = choose|j: int| 0 <= j < c.take(k).len() && (#[trigger] c.take(k)[j]).key == c[k].key;
        assert(c.take(k)[j] == c[j]);
        lemma_each_key_stays(c, j)
    } else {
        lemma_distinct_leaves_nothing_out(c, k);
        choose|i: int| 0 <= i < origins(c).len() && #[trigger] origins(c)[i] == k
    }
}

/// A limit of at least one is kept to.
pub proof fn lemma_limited(v: Seq<EntryView>, limit: Option<usize>)
    ensures
        limit matches Some(l) ==> l > 0 ==> limited(v, limit).len() <= l,
        limited(v, limit).len() <= v.len(),
        limited(v, limit) == v.take(limited(v, limit).len() as int),
{
    assert(v.take(v.len() as int) =~= v);
}

/// The entries collected so far, with the keys met.
pub struct Entries {
    pub seen: SeenSet,
    pub entries: Vec<DeviceEntry>,
}

/// The contents of the entries collected so far.
pub struct EntriesView {
    pub seen: Set<Seq<Seq<char>>>,
    pub entries: Seq<EntryView>,
}

impl View for Entries {
    type V = EntriesView;

    open spec fn view(&self) -> EntriesView {
        EntriesView { seen: self.seen@, entries: entries_view(self.entries@) }
    }
}

impl EntriesView {
    /// The candidate gives an entry, and its key was not met before.
    pub open spec fn takes(self, c: Candidate) -> bool {
        c.entry is Some && !self.seen.contains(c.key)
    }

    /// With one more candidate.
    pub open spec fn with(self, c: Candidate) -> EntriesView {
        EntriesView {
            seen: self.seen.insert(c.key),
            entries: if self.takes(c) {
                self.entries.push(c.entry->0)
            } else {
                self.entries
            },
        }
    }
}

impl Entries {
    /// The state after the candidates `c`.
    pub open spec fn holds(&self, c: Seq<Candidate>) -> bool {
        &&& entries_view(self.entries@) == distinct(c)
        &&& forall|k: Seq<Seq<char>>| #[trigger] self.seen@.contains(k) <==> met(c, k)
    }

    /// Nothing collected.
    pub fn new() -> (r: Self)
        ensures
            r.holds(Seq::empty()),
            r.entries@.len() == 0,
    {
        let r = Entries { seen: SeenSet::new(), entries: Vec::new() };
        assert(entries_view(r.entries@) =~= distinct(Seq::empty()));
        r
    }

    /// Takes one candidate and tells whether its entry was added.
    pub fn offer(&mut self, key: Vec<String>, entry: Option<DeviceEntry>) -> (r: bool)
        ensures
            final(self)@ == old(self)@.with(
                Candidate { key: text::strs(key@), entry: opt_entry(entry) },
            ),
            r == old(self)@.takes(
                Candidate { key: text::strs(key@), entry: opt_entry(entry) },
            ),
            forall|c: Seq<Candidate>| #[trigger]
                old(self).holds(c) ==> final(self).holds(
                    c.push(Candidate { key: text::strs(key@), entry: opt_entry(entry) }),
                ),
            final(self).entries@.len() == old(self).entries@.len() + (if r {
                1int
            } else {
                0int
            }),
    {
        let ghost k = text::strs(key@);
        let ghost cand = Candidate { key: k, entry: opt_entry(entry) };
        let fresh = self.seen.insert(key);
        let mut added = false;
        if fresh {
            if let Some(e) = entry {
                self.entries.push(e);
                added = true;
                assert(entries_view(self.entries@) =~= entries_view(old(self).entries@).push(e@));
            }
        }
        proof {
            assert forall|c: Seq<Candidate>| #[trigger] old(self).holds(c) implies self.holds(
                c.push(cand),
            ) by {
                assert(c.push(cand).drop_last() =~= c);
                assert forall|q: Seq<Seq<char>>| #[trigger] self.seen@.contains(q) <==> met(
                    c.push(cand),
                    q,
                ) by {
                    if met(c, q) {
                        let j = choose|j: int| 0 <= j < c.len() && (#[trigger] c[j]).key == q;
                        assert(c.push(cand)[j].key == q);
                    }
                    assert(c.push(cand)[c.len() as int].key == k);
                    if met(c.push(cand), q) && q != k {
                        let j = choose|j: int|
                            0 <= j < c.push(cand).len() && (#[trigger] c.push(cand)[j]).key == q;
                        assert(c[j].key == q);
                    }
                }
            }
        }
        added
    }
}

/// Whether the limit is reached.
pub fn reached(len: usize, limit: Option<usize>) -> (r: bool)
    ensures
        r == (limit matches Some(l) && len >= l),
{
    match limit {
        Some(l) => len >= l,
        None => false,
    }
}

/// A model list with one row.
pub fn single_model(ids: Vec<String>, market_name: String) -> (r: Vec<Model>)
    ensures
        model::models_view(r@) == one_model(text::strs(ids@), market_name@),
{
    let mut out: Vec<Model> = Vec::new();
    out.push(Model { ids, market_name });
    assert(model::models_view(out@) =~= one_model(text::strs(ids@), market_name@));
    out
}

/// A list with one string.
pub fn one_string(s: String) -> (r: Vec<String>)
    ensures
        text::strs(r@) == seq![s@],
{
    let mut out: Vec<String> = Vec::new();
    out.push(s);
    assert(text::strs(out@) =~= seq![s@]);
    out
}

/// The candidates among options, in their order.
pub open spec fn present(v: Seq<Option<Candidate>>) -> Seq<Candidate>
    decreases v.len(),
{
    if v.len() == 0 {
        Seq::empty()
    } else {
        match v.last() {
            Some(c) => present(v.drop_last()).push(c),
            None => present(v.drop_last()),
        }
    }
}

/// Position `k` has a candidate.
pub open spec fn has_candidate(v: Seq<Option<Candidate>>) -> spec_fn(int) -> bool {
    |k: int| v[k] is Some
}

/// The candidates are those of the positions that have one.
pub proof fn lemma_present(v: Seq<Option<Candidate>>) -> (at: Seq<int>)
    ensures
        text::lists(at, v.len() as int, has_candidate(v)),
        at.len() == present(v).len(),
        forall|j: int| 0 <= j < at.len() ==> v[#[trigger] at[j]] == Some(present(v)[j]),
    decreases v.len(),
{
    let q = has_candidate(v);
    if v.len() == 0 {
        let none = Seq::<int>::empty();
        assert(text::lists(none, 0, q));
        none
    } else {
        let init = v.drop_last();
        let n = init.len() as int;
        let p = has_candidate(init);
        let before = lemma_present(init);
        assert forall|k: int| 0 <= k < n implies #[trigger] p(k) == q(k) by {}
        text::lemma_lists_next(before, n, p, q);
        assert(v[n] == v.last());
        let at = if q(n) {
            before.push(n)
        } else {
            before
        };
        assert forall|j: int| 0 <= j < at.len() implies v[#[trigger] at[j]] == Some(
            present(v)[j],
        ) by {
            if j < before.len() {
                assert(at[j] == before[j]);
                assert(init[before[j]] == v[before[j]]);
            }
        }
        at
    }
}

} // verus!
