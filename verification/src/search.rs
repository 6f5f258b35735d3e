//! Search results: devices with a model id, a codename, a name or a market name
//! that is the text of the search come first, then those with the nearest vectors,
//! each once, and only of the brands that are asked for.

use crate::kv;
use crate::kv::IndexTable;
use crate::model::DeviceView;
use crate::number;
use crate::query;
use crate::text;
use std::collections::HashSet;
use vstd::prelude::*;

verus! {

broadcast use {vstd::std_specs::hash::group_hash_axioms, vstd::string::group_string_axioms};

/// The number of results where none is asked for.
pub fn default_k() -> (r: usize)
    ensures
        r == 10,
{
    10
}

/// The number of results that the server gives: from 1 to 100.
pub open spec fn served(k: usize) -> usize {
    if k < 1 {
        1
    } else if k > 100 {
        100
    } else {
        k
    }
}

/// The number of results that the server gives.
pub fn served_k(k: usize) -> (r: usize)
    ensures
        r == served(k),
{
    if k < 1 {
        1
    } else if k > 100 {
        100
    } else {
        k
    }
}

/// The number of neighbours that are looked at for `k` results, so that a filter
/// by brand does not starve them.
pub fn probe(k: usize) -> (r: usize)
    requires
        k * 8 <= usize::MAX,
    ensures
        r == k * 8,
{
    k * 8
}

/// The number of neighbours that the server looks at for `k` results.
pub fn served_probe(k: usize) -> (r: usize)
    requires
        k * 8 <= usize::MAX,
    ensures
        r == (if k * 8 < 32 {
            32
        } else {
            k * 8
        }),
{
    let n: usize = k * 8;
    if n < 32 {
        32
    } else {
        n
    }
}

/// The width of the search for `k` neighbours in the graph.
pub fn search_width(k: usize) -> (r: usize)
    requires
        k * 4 <= usize::MAX,
    ensures
        r == (if k * 4 < 32 {
            32
        } else {
            k * 4
        }),
{
    let n: usize = k * 4;
    if n < 32 {
        32
    } else {
        n
    }
}

/// The brands that a search is restricted to: those whose name contains the text
/// of the filter, or the text itself where there are none. No filter is no
/// restriction.
pub open spec fn filter_of(brand: Option<Seq<char>>, brands: Seq<Seq<char>>) -> Seq<Seq<char>> {
    match brand {
        None => Seq::empty(),
        Some(b) => {
            let known = text::select(brands, |x: Seq<char>| query::name_has(x, b));
            if known.len() == 0 {
                seq![b]
            } else {
                known
            }
        },
    }
}

/// The brands that a search is restricted to.
pub fn brand_filter(brand: Option<&str>, brands: &Vec<String>) -> (r: Vec<String>)
    ensures
        text::strs(r@) == filter_of(query::opt_text(brand), text::strs(brands@)),
{
    match brand {
        None => {
            let none: Vec<String> = Vec::new();
            assert(text::strs(none@) =~= Seq::<Seq<char>>::empty());
            none
        },
        Some(b) => {
            let mut set = query::brands_containing(brands, b);
            let ghost known = text::strs(set@);
            if set.len() == 0 {
                set.push(b.to_owned());
                assert(text::strs(set@) =~= seq![b@]);
            } else {
                assert(known.len() > 0);
            }
            set
        },
    }
}

/// What is said above the results of a search.
pub fn search_headline(k: usize, q: &str, brands: &Vec<String>) -> (r: String)
    ensures
        r@ == "top "@ + number::decimal(k as nat) + " semantic matches for \""@ + q@ + "\""@ + (
        if brands@.len() == 0 {
            Seq::empty()
        } else {
            " (brand: "@ + text::joined(text::strs(brands@), ", "@) + ")"@
        }),
{
    let mut out: Vec<char> = text::chars_of("top ");
    number::push_decimal(&mut out, k as u64);
    text::append_str(&mut out, " semantic matches for \"");
    text::append_str(&mut out, q);
    text::append_str(&mut out, "\"");
    let ghost head = out@;
    if brands.len() > 0 {
        text::append_str(&mut out, " (brand: ");
        text::append_str(&mut out, text::join(brands, ", ").as_str());
        text::append_str(&mut out, ")");
        assert(out@ =~= head + (" (brand: "@ + text::joined(text::strs(brands@), ", "@) + ")"@));
    } else {
        assert(out@ =~= head + Seq::<char>::empty());
    }
    text::string_of(out.as_slice())
}

/// A summary with its further lines indented below the first.
pub fn indented(summary: &str) -> (r: String)
    ensures
        r@ == text::replaced(summary@, "\n"@, "\n             "@),
{
    proof {
        reveal_strlit("\n");
    }
    let s = text::chars_of(summary);
    let out = text::replace_str(s.as_slice(), "\n", "\n             ");
    text::string_of(out.as_slice())
}

/// The tables in which the text of a search is looked up, in the order in which
/// their devices come.
pub open spec fn asked_tables() -> Seq<IndexTable> {
    seq![IndexTable::ModelId, IndexTable::Codename, IndexTable::Name]
}

/// The tables in which the text of a search is looked up.
pub fn named_tables() -> (r: [IndexTable; 3])
    ensures
        r@ == asked_tables(),
{
    let r: [IndexTable; 3] = [IndexTable::ModelId, IndexTable::Codename, IndexTable::Name];
    assert(r@ =~= asked_tables());
    r
}

/// What the tables list under the key of a search, in a store that was built from
/// devices.
pub open spec fn named_lists(devices: Seq<DeviceView>, key: Seq<char>) -> Seq<Seq<u64>> {
    Seq::new(asked_tables().len(), |t: int| kv::listed(devices, asked_tables()[t], key))
}

/// The contents of lists of ids.
pub open spec fn lists_view(v: Seq<Vec<u64>>) -> Seq<Seq<u64>> {
    Seq::new(v.len(), |i: int| v[i]@)
}

/// The ids that the text of a search names, list by list.
pub open spec fn named_line(named: Seq<Seq<u64>>) -> Seq<(u64, Option<usize>)>
    decreases named.len(),
{
    if named.len() == 0 {
        Seq::empty()
    } else {
        named_line(named.drop_last()) + Seq::new(
            named.last().len(),
            |i: int| (named.last()[i], None::<usize>),
        )
    }
}

/// The line of those that may become results: the ids that the text of a search
/// names, list by list, and then the neighbours, each with its position.
pub open spec fn line_of(named: Seq<Seq<u64>>, hits: Seq<u32>) -> Seq<(u64, Option<usize>)> {
    named_line(named) + Seq::new(hits.len(), |i: int| (hits[i] as u64, Some(i as usize)))
}

/// Lines up those that may become results.
pub fn line_up(named: &Vec<Vec<u64>>, hits: &Vec<u32>) -> (r: Vec<(u64, Option<usize>)>)
    ensures
        r@ == line_of(lists_view(named@), hits@),
{
    let ghost lists = lists_view(named@);
    let mut out: Vec<(u64, Option<usize>)> = Vec::new();
    assert(out@ =~= named_line(lists.take(0)));
    for t in 0..named.len()
        invariant
            lists == lists_view(named@),
            out@ == named_line(lists.take(t as int)),
    {
        let list = &named[t];
        let ghost before = out@;
        let ghost more = Seq::new(list@.len(), |i: int| (list@[i], None::<usize>));
        proof {
            assert(lists.take(t + 1).drop_last() =~= lists.take(t as int));
            assert(lists.take(t + 1).last() == list@);
            assert(before + more.take(0) =~= before);
        }
        for i in 0..list.len()
            invariant
                more == Seq::new(list@.len(), |i: int| (list@[i], None::<usize>)),
                out@ == before + more.take(i as int),
        {
            out.push((list[i], None));
            assert(before + more.take(i + 1) =~= (before + more.take(i as int)).push(
                more[i as int],
            ));
        }
        assert(more.take(list@.len() as int) =~= more);
    }
    assert(lists.take(named@.len() as int) =~= lists);
    let ghost before = out@;
    let ghost more = Seq::new(hits@.len(), |i: int| (hits@[i] as u64, Some(i as usize)));
    assert(before + more.take(0) =~= before);
    for i in 0..hits.len()
        invariant
            more == Seq::new(hits@.len(), |i: int| (hits@[i] as u64, Some(i as usize))),
            out@ == before + more.take(i as int),
    {
        out.push((hits[i] as u64, Some(i)));
        assert(before + more.take(i + 1) =~= (before + more.take(i as int)).push(more[i as int]));
    }
    assert(more.take(hits@.len() as int) =~= more);
    out
}

/// A result: the id of a device, and which of the neighbours it is; None where
/// the text of the search is its model id, codename or name.
#[derive(Debug, Clone, Copy, PartialEq, Eq, Structural)]
pub struct Pick {
    pub id: u32,
    pub hit: Option<usize>,
}

/// The results so far. It is asked whether a device is wanted, and told of the
/// device where it is.
pub struct Picker {
    pub k: usize,
    pub brands: Vec<String>,
    pub seen: HashSet<u64>,
    pub picked: Vec<Pick>,
}

/// The contents of the results so far: how many are asked for, of which brands
/// (of any, where none is named), the ids met and the results.
pub struct PickerView {
    pub k: nat,
    pub brands: Seq<Seq<char>>,
    pub seen: Set<u64>,
    pub picked: Seq<Pick>,
}

impl View for Picker {
    type V = PickerView;

    open spec fn view(&self) -> PickerView {
        PickerView {
            k: self.k as nat,
            brands: text::strs(self.brands@),
            seen: self.seen@,
            picked: self.picked@,
        }
    }
}

/// Something that may become a result: an id, which neighbour it is, and the
/// device that the store has under the id, by its own id and brand.
pub struct Candidate {
    pub id: u64,
    pub hit: Option<usize>,
    pub device: Option<(u32, Seq<char>)>,
}

impl PickerView {
    /// There is room, and the id was not met before.
    pub open spec fn wants(self, id: u64) -> bool {
        self.picked.len() < self.k && !self.seen.contains(id)
    }

    /// The brand is among those that are asked for.
    pub open spec fn passes(self, brand: Seq<char>) -> bool {
        self.brands.len() == 0 || self.brands.contains(brand)
    }

    /// The id counts as met, where there is room.
    pub open spec fn asked(self, id: u64) -> PickerView {
        if self.wants(id) {
            PickerView { seen: self.seen.insert(id), ..self }
        } else {
            self
        }
    }

    /// With a device, where its brand is asked for.
    pub open spec fn offered(self, pick: Pick, brand: Seq<char>) -> PickerView {
        if self.passes(brand) {
            PickerView { picked: self.picked.push(pick), ..self }
        } else {
            self
        }
    }

    /// After a candidate: its device is looked up and offered where it is wanted.
    pub open spec fn step(self, c: Candidate) -> PickerView {
        match c.device {
            Some(d) if self.wants(c.id) => self.asked(c.id).offered(
                Pick { id: d.0, hit: c.hit },
                d.1,
            ),
            _ => self.asked(c.id),
        }
    }

    /// After candidates.
    pub open spec fn run(self, cs: Seq<Candidate>) -> PickerView
        decreases cs.len(),
    {
        if cs.len() == 0 {
            self
        } else {
            self.run(cs.drop_last()).step(cs.last())
        }
    }

    /// The candidate becomes a result.
    pub open spec fn takes(self, c: Candidate) -> bool {
        c.device matches Some(d) && self.wants(c.id) && self.passes(d.1)
    }

    /// The positions of the candidates that become results.
    pub open spec fn sources(self, cs: Seq<Candidate>) -> Seq<int>
        decreases cs.len(),
    {
        if cs.len() == 0 {
            Seq::empty()
        } else {
            let before = self.sources(cs.drop_last());
            if self.run(cs.drop_last()).takes(cs.last()) {
                before.push(cs.len() - 1)
            } else {
                before
            }
        }
    }
}

impl Picker {
    /// No results, of which `k` are asked for, of the brands.
    pub fn new(k: usize, brands: Vec<String>) -> (r: Self)
        ensures
            r@ == (PickerView {
                k: k as nat,
                brands: text::strs(brands@),
                seen: Set::empty(),
                picked: Seq::empty(),
            }),
    {
        let r = Picker { k, brands, seen: HashSet::new(), picked: Vec::new() };
        assert(r@.seen =~= Set::<u64>::empty());
        r
    }

    /// Tells whether the device with an id is wanted.
    pub fn wants(&mut self, id: u64) -> (r: bool)
        ensures
            r == old(self)@.wants(id),
            final(self)@ == old(self)@.asked(id),
    {
        if self.picked.len() < self.k {
            let fresh = self.seen.insert(id);
            proof {
                if !fresh {
                    assert(self@.seen =~= old(self)@.seen);
                }
                assert(self@ == old(self)@.asked(id));
            }
            fresh
        } else {
            false
        }
    }

    /// Takes the device that is wanted, by its id and brand.
    pub fn offer(&mut self, id: u32, brand: &str, hit: Option<usize>)
        ensures
            final(self)@ == old(self)@.offered(Pick { id, hit }, brand@),
    {
        let mut passes = self.brands.len() == 0;
        let ghost all = text::strs(self.brands@);
        let mut i: usize = 0;
        while i < self.brands.len() && !passes
            invariant
                i <= self.brands@.len(),
                all == text::strs(self.brands@),
                *self == *old(self),
                passes ==> self@.passes(brand@),
                !passes ==> self.brands@.len() > 0 && forall|j: int|
                    0 <= j < i ==> #[trigger] all[j] != brand@,
            decreases self.brands.len() - i,
        {
            assert(all[i as int] == self.brands@[i as int]@);
            if text::same_str(self.brands[i].as_str(), brand) {
                assert(all[i as int] == brand@);
                passes = true;
            }
            i = i + 1;
        }
        assert(passes == self@.passes(brand@));
        if passes {
            self.picked.push(Pick { id, hit });
        }
    }
}

/// The devices that the store has are the same whenever an id is looked up, and
/// a device is stored under its own id.
pub open spec fn one_store(cs: Seq<Candidate>) -> bool {
    &&& forall|i: int, j: int|
        0 <= i < cs.len() && 0 <= j < cs.len() && (#[trigger] cs[i]).id == (#[trigger] cs[j]).id
            ==> cs[i].device == cs[j].device
    &&& forall|i: int|
        0 <= i < cs.len() ==> ((#[trigger] cs[i]).device matches Some(d) ==> d.0 as u64 == cs[i].id)
}

/// The results come from candidates in their order: there are at most `k`, each
/// is the device of a candidate with a brand that is asked for, and the ids met
/// are those of candidates.
pub proof fn lemma_results_follow_the_candidates(p: PickerView, cs: Seq<Candidate>)
    requires
        p.picked.len() == 0,
    ensures
        p.run(cs).picked.len() <= p.k,
        p.run(cs).k == p.k,
        p.run(cs).brands == p.brands,
        p.sources(cs).len() == p.run(cs).picked.len(),
        forall|i: int, j: int|
            0 <= i < j < p.sources(cs).len() ==> #[trigger] p.sources(cs)[i]
                < #[trigger] p.sources(cs)[j],
        forall|i: int|
            0 <= i < p.sources(cs).len() ==> {
                let c = cs[#[trigger] p.sources(cs)[i]];
                &&& 0 <= p.sources(cs)[i] < cs.len()
                &&& c.device matches Some(d) && p.passes(d.1) && p.run(cs).picked[i] == (Pick {
                    id: d.0,
                    hit: c.hit,
                })
                &&& p.run(cs).seen.contains(c.id)
            },
        p.seen.subset_of(p.run(cs).seen),
    decreases cs.len(),
{
    if cs.len() > 0 {
        let init = cs.drop_last();
        lemma_results_follow_the_candidates(p, init);
        let q = p.run(init);
        let before = p.sources(init);
        let after = p.sources(cs);
        assert forall|i: int| 0 <= i < after.len() implies {
            let c = cs[#[trigger] after[i]];
            &&& 0 <= after[i] < cs.len()
            &&& c.device matches Some(d) && p.passes(d.1) && p.run(cs).picked[i] == (Pick {
                id: d.0,
                hit: c.hit,
            })
            &&& p.run(cs).seen.contains(c.id)
        } by {
            if i < before.len() {
                assert(after[i] == before[i]);
                assert(cs[before[i]] == init[before[i]]);
            }
        }
    }
}

/// Where the store answers consistently, no device is among the results twice.
pub proof fn lemma_no_device_twice(p: PickerView, cs: Seq<Candidate>)
    requires
        p.picked.len() == 0,
        one_store(cs),
    ensures
        forall|i: int, j: int|
            0 <= i < j < p.run(cs).picked.len() ==> (#[trigger] p.run(cs).picked[i]).id != (
            #[trigger] p.run(cs).picked[j]).id,
    decreases cs.len(),
{
    if cs.len() > 0 {
        let init = cs.drop_last();
        assert forall|i: int, j: int|
            0 <= i < init.len() && 0 <= j < init.len() && (#[trigger] init[i]).id == (
            #[trigger] init[j]).id implies init[i].device == init[j].device by {
            assert(cs[i] == init[i] && cs[j] == init[j]);
        }
        assert forall|i: int| 0 <= i < init.len() implies ((#[trigger] init[i]).device matches Some(
            d,
        ) ==> d.0 as u64 == init[i].id) by {
            assert(cs[i] == init[i]);
        }
        lemma_no_device_twice(p, init);
        lemma_results_follow_the_candidates(p, init);
        let q = p.run(init);
        let r = p.run(cs);
        assert forall|i: int, j: int| 0 <= i < j < r.picked.len() implies (
        #[trigger] r.picked[i]).id != (#[trigger] r.picked[j]).id by {
            assert(r.picked[i] == q.picked[i]);
            if j == q.picked.len() {
                let s = p.sources(init)[i];
                assert(q.seen.contains(init[s].id));
                assert(init[s].device matches Some(d) && d.0 == q.picked[i].id);
                assert(cs[s] == init[s]);
                assert(cs[cs.len() - 1] == cs.last());
            } else {
                assert(r.picked[j] == q.picked[j]);
            }
        }
    }
}

proof fn lemma_named_stay_first(p: PickerView, cs: Seq<Candidate>, n: int, i: int, j: int)
    requires
        p.picked.len() == 0,
        forall|x: int| 0 <= x < n && x < cs.len() ==> (#[trigger] cs[x]).hit is None,
        forall|x: int| n <= x < cs.len() ==> (#[trigger] cs[x]).hit is Some,
        0 <= i < j < p.run(cs).picked.len(),
        p.run(cs).picked[j].hit is None,
    ensures
        p.run(cs).picked[i].hit is None,
{
    lemma_results_follow_the_candidates(p, cs);
    let a = p.sources(cs)[i];
    let b = p.sources(cs)[j];
    assert(p.run(cs).picked[i].hit == cs[a].hit);
    assert(p.run(cs).picked[j].hit == cs[b].hit);
}

/// The candidates stand in the line.
pub open spec fn in_line(cs: Seq<Candidate>, line: Seq<(u64, Option<usize>)>) -> bool {
    cs.len() == line.len() && forall|x: int|
        0 <= x < cs.len() ==> ((#[trigger] cs[x]).id, cs[x].hit) == line[x]
}

proof fn lemma_line(named: Seq<Seq<u64>>, hits: Seq<u32>)
    ensures
        forall|x: int|
            0 <= x < named_line(named).len() ==> (#[trigger] line_of(named, hits)[x]).1 is None,
        forall|x: int|
            named_line(named).len() <= x < line_of(named, hits).len() ==> (
            #[trigger] line_of(named, hits)[x]).1 is Some,
{
    lemma_named_line(named);
    let n = named_line(named).len() as int;
    let line = line_of(named, hits);
    assert forall|x: int| 0 <= x < n implies (#[trigger] line[x]).1 is None by {
        assert(line[x] == named_line(named)[x]);
    }
}

proof fn lemma_named_line(named: Seq<Seq<u64>>)
    ensures
        forall|x: int|
            0 <= x < named_line(named).len() ==> (#[trigger] named_line(named)[x]).1 is None,
    decreases named.len(),
{
    if named.len() > 0 {
        let before = named_line(named.drop_last());
        lemma_named_line(named.drop_last());
        assert forall|x: int| 0 <= x < named_line(named).len() implies (
        #[trigger] named_line(named)[x]).1 is None by {
            if x < before.len() {
                assert(named_line(named)[x] == before[x]);
            }
        }
    }
}

/// The devices that the text of the search names stand before the neighbours among
/// the results.
pub proof fn lemma_named_results_first(
    p: PickerView,
    cs: Seq<Candidate>,
    named: Seq<Seq<u64>>,
    hits: Seq<u32>,
    i: int,
    j: int,
)
    requires
        p.picked.len() == 0,
        in_line(cs, line_of(named, hits)),
        0 <= i < j < p.run(cs).picked.len(),
        p.run(cs).picked[j].hit is None,
    ensures
        p.run(cs).picked[i].hit is None,
{
    lemma_line(named, hits);
    let n = named_line(named).len() as int;
    assert forall|x: int| 0 <= x < n && x < cs.len() implies (#[trigger] cs[x]).hit is None by {
        assert((cs[x].id, cs[x].hit) == line_of(named, hits)[x]);
    }
    assert forall|x: int| n <= x < cs.len() implies (#[trigger] cs[x]).hit is Some by {
        assert((cs[x].id, cs[x].hit) == line_of(named, hits)[x]);
    }
    lemma_named_stay_first(p, cs, n, i, j);
}

proof fn lemma_listed_in_line(named: Seq<Seq<u64>>, t: int, id: u64)
    requires
        0 <= t < named.len(),
        named[t].contains(id),
    ensures
        exists|x: int| 0 <= x < named_line(named).len() && (#[trigger] named_line(named)[x]).0 == id,
    decreases named.len(),
{
    let init = named.drop_last();
    let before = named_line(init);
    let line = named_line(named);
    if t < init.len() {
        assert(init[t] == named[t]);
        lemma_listed_in_line(init, t, id);
        let x = choose|x: int| 0 <= x < before.len() && (#[trigger] before[x]).0 == id;
        assert(line[x] == before[x]);
    } else {
        let y = choose|y: int| 0 <= y < named.last().len() && named.last()[y] == id;
        assert(line[before.len() + y].0 == id);
    }
}

/// A search over a store that was built from devices finds what its text names: a
/// device whose model id, codename or name is the text is among the results where
/// there are fewer than asked for and its brand is asked for.
pub proof fn lemma_named_devices_are_found(
    p: PickerView,
    cs: Seq<Candidate>,
    devices: Seq<DeviceView>,
    key: Seq<char>,
    hits: Seq<u32>,
    table: IndexTable,
    id: u64,
)
    requires
        p.picked.len() == 0,
        p.seen == Set::<u64>::empty(),
        one_store(cs),
        in_line(cs, line_of(named_lists(devices, key), hits)),
        p.run(cs).picked.len() < p.k,
        asked_tables().contains(table),
        kv::one_found_by(devices, table, key, id),
        forall|x: int|
            0 <= x < cs.len() && (#[trigger] cs[x]).id == id ==> (cs[x].device matches Some(d)
                && p.passes(d.1)),
    ensures
        exists|i: int|
            0 <= i < p.run(cs).picked.len() && (#[trigger] p.run(cs).picked[i]).id as u64 == id,
{
    let named = named_lists(devices, key);
    let t = choose|t: int| 0 <= t < asked_tables().len() && asked_tables()[t] == table;
    kv::lemma_listed(devices, table, key, id);
    assert(named[t] == kv::listed(devices, table, key));
    lemma_listed_in_line(named, t, id);
    let x = choose|x: int|
        0 <= x < named_line(named).len() && (#[trigger] named_line(named)[x]).0 == id;
    assert(line_of(named, hits)[x] == named_line(named)[x]);
    assert((cs[x].id, cs[x].hit) == line_of(named, hits)[x]);
    lemma_nothing_left_out(p, cs, x);
}

/// Nothing is left out while there is room: where there are fewer results than
/// asked for, the device of each candidate with a brand that is asked for is
/// among them.
pub proof fn lemma_nothing_left_out(p: PickerView, cs: Seq<Candidate>, c: int)
    requires
        p.picked.len() == 0,
        p.seen == Set::<u64>::empty(),
        one_store(cs),
        p.run(cs).picked.len() < p.k,
        0 <= c < cs.len(),
        cs[c].device matches Some(d) && p.passes(d.1),
    ensures
        exists|i: int|
            0 <= i < p.run(cs).picked.len() && (#[trigger] p.run(cs).picked[i]).id as u64
                == cs[c].id,
    decreases cs.len(),
{
    let init = cs.drop_last();
    let q = p.run(init);
    let r = p.run(cs);
    lemma_results_follow_the_candidates(p, cs);
    lemma_results_follow_the_candidates(p, init);
    assert forall|i: int, j: int|
        0 <= i < init.len() && 0 <= j < init.len() && (#[trigger] init[i]).id == (
        #[trigger] init[j]).id implies init[i].device == init[j].device by {
        assert(cs[i] == init[i] && cs[j] == init[j]);
    }
    assert forall|i: int| 0 <= i < init.len() implies ((#[trigger] init[i]).device matches Some(d)
        ==> d.0 as u64 == init[i].id) by {
        assert(cs[i] == init[i]);
    }
    assert(cs[c].device matches Some(d) && d.0 as u64 == cs[c].id);
    if c < cs.len() - 1 {
        assert(init[c] == cs[c]);
        lemma_nothing_left_out(p, init, c);
        let i = choose|i: int|
            0 <= i < q.picked.len() && (#[trigger] q.picked[i]).id as u64 == init[c].id;
        assert(r.picked[i] == q.picked[i]);
    } else if q.seen.contains(cs[c].id) {
        lemma_seen_stems_from(p, init, cs[c].id);
        let b = choose|b: int| 0 <= b < init.len() && (#[trigger] init[b]).id == cs[c].id;
        assert(init[b] == cs[b]);
        assert(cs[b].device == cs[c].device);
        lemma_nothing_left_out(p, init, b);
        let i = choose|i: int|
            0 <= i < q.picked.len() && (#[trigger] q.picked[i]).id as u64 == init[b].id;
        assert(r.picked[i] == q.picked[i]);
    } else {
        assert(r.picked[q.picked.len() as int].id as u64 == cs[c].id);
    }
}

proof fn lemma_seen_stems_from(p: PickerView, cs: Seq<Candidate>, id: u64)
    requires
        p.seen == Set::<u64>::empty(),
        p.run(cs).seen.contains(id),
    ensures
        exists|b: int| 0 <= b < cs.len() && (#[trigger] cs[b]).id == id,
    decreases cs.len(),
{
    if cs.len() > 0 {
        let init = cs.drop_last();
        if p.run(init).seen.contains(id) {
            lemma_seen_stems_from(p, init, id);
            let b = choose|b: int| 0 <= b < init.len() && (#[trigger] init[b]).id == id;
            assert(cs[b] == init[b]);
        } else {
            assert(cs[cs.len() - 1].id == id);
        }
    }
}

// ---------------------------------------------------------------------------
// Searches in words
// ---------------------------------------------------------------------------

/// The key of a search: none for a blank text, otherwise the text with its ASCII
/// letters lowered, white space and all.
pub proof fn lemma_search_key(q: Seq<char>)
    ensures
        query::search_key_of(q) is None <==> forall|k: int|
            0 <= k < q.len() ==> text::is_space(#[trigger] q[k]),
        query::search_key_of(q) matches Some(key) ==> key == text::ascii_lowered(q),
{
    text::lemma_trimmed_is_the_middle(q);
}

/// The brands that a search is restricted to, in words: all known brands whose
/// lowered name contains the lowered text of the filter, and the text itself where
/// there is none; no filter restricts nothing.
pub proof fn lemma_filter_in_words(brand: Seq<char>, brands: Seq<Seq<char>>, x: Seq<char>)
    ensures
        filter_of(None, brands).len() == 0,
        ({
            let like = |y: Seq<char>| text::has(text::lowered(y), text::lowered(brand));
            let known = exists|i: int| 0 <= i < brands.len() && like(#[trigger] brands[i]);
            let set = filter_of(Some(brand), brands);
            &&& known ==> (set.contains(x) <==> brands.contains(x) && like(x))
            &&& !known ==> set == seq![brand]
            &&& set.len() > 0
        }),
{
    let like = |y: Seq<char>| text::has(text::lowered(y), text::lowered(brand));
    let p = |y: Seq<char>| query::name_has(y, brand);
    let set = text::select(brands, p);
    text::lemma_select(brands, p, x);
    assert(p(x) == like(x));
    if exists|i: int| 0 <= i < brands.len() && like(#[trigger] brands[i]) {
        let i = choose|i: int| 0 <= i < brands.len() && like(#[trigger] brands[i]);
        text::lemma_select(brands, p, brands[i]);
        assert(p(brands[i]));
        assert(set.contains(brands[i]));
    } else if set.len() > 0 {
        text::lemma_select(brands, p, set[0]);
        assert(set.contains(set[0]));
        let i = choose|i: int| 0 <= i < brands.len() && brands[i] == set[0];
        assert(like(brands[i]));
    }
}

/// A device is named by the text of a search: the text is one of its model ids, its
/// codename, its name or one of its market names, whatever the case of ASCII letters.
pub open spec fn is_named(d: DeviceView, q: Seq<char>) -> bool {
    let low = text::ascii_lowered(q);
    ||| exists|r: int, j: int|
        0 <= r < d.models.len() && 0 <= j < d.models[r].ids.len() && text::ascii_lowered(
            #[trigger] d.models[r].ids[j],
        ) == low
    ||| d.codename.len() > 0 && text::ascii_lowered(d.codename) == low
    ||| text::ascii_lowered(d.name) == low
    ||| q.len() > 0 && exists|r: int|
        0 <= r < d.models.len() && text::ascii_lowered((#[trigger] d.models[r]).market_name) == low
}

/// The results of a search, in words. Of the devices that the text names and of the
/// neighbours, those of a brand that is asked for come, the named ones first, none
/// of them twice and at most as many as asked for; where there are fewer, none is
/// missing.
pub proof fn lemma_search_in_words(
    p: PickerView,
    cs: Seq<Candidate>,
    devices: Seq<DeviceView>,
    q: Seq<char>,
    hits: Seq<u32>,
)
    requires
        p.picked.len() == 0,
        p.seen == Set::<u64>::empty(),
        one_store(cs),
        in_line(cs, line_of(named_lists(devices, text::ascii_lowered(q)), hits)),
        forall|x: int|
            0 <= x < cs.len() ==> (#[trigger] cs[x]).device == stored(devices, cs[x].id),
    ensures
        ({
            let out = p.run(cs).picked;
            &&& out.len() <= p.k
            &&& forall|i: int, j: int|
                0 <= i < j < out.len() ==> (#[trigger] out[i]).id != (#[trigger] out[j]).id
            &&& forall|i: int, j: int|
                0 <= i < j < out.len() && (#[trigger] out[j]).hit is None ==> (
                #[trigger] out[i]).hit is None
            &&& out.len() < p.k ==> forall|i: int|
                #![trigger devices[i]]
                0 <= i < devices.len() && is_named(devices[i], q) && stored(
                    devices,
                    devices[i].id as u64,
                ) == Some((devices[i].id, devices[i].brand)) && (p.brands.len() == 0
                    || p.brands.contains(devices[i].brand)) ==> exists|n: int|
                    0 <= n < out.len() && (#[trigger] out[n]).id == devices[i].id
            &&& out.len() < p.k ==> forall|x: int|
                #![trigger hits[x]]
                0 <= x < hits.len() && (stored(devices, hits[x] as u64) matches Some(d) && (
                p.brands.len() == 0 || p.brands.contains(d.1))) ==> exists|n: int|
                    0 <= n < out.len() && (#[trigger] out[n]).id == hits[x]
            &&& forall|n: int|
                0 <= n < out.len() ==> (stored(devices, (#[trigger] out[n]).id as u64) matches Some(d)
                    && (p.brands.len() == 0 || p.brands.contains(d.1)))
        }),
{
    let key = text::ascii_lowered(q);
    let named = named_lists(devices, key);
    let out = p.run(cs).picked;
    lemma_results_follow_the_candidates(p, cs);
    lemma_no_device_twice(p, cs);
    assert forall|i: int, j: int| 0 <= i < j < out.len() && (#[trigger] out[j]).hit is None implies (
    #[trigger] out[i]).hit is None by {
        lemma_named_results_first(p, cs, named, hits, i, j);
    }
    if out.len() < p.k {
        assert forall|i: int|
            #![trigger devices[i]]
            0 <= i < devices.len() && is_named(devices[i], q) && stored(
                devices,
                devices[i].id as u64,
            ) == Some((devices[i].id, devices[i].brand)) && (p.brands.len() == 0
                || p.brands.contains(devices[i].brand)) implies exists|n: int|
            0 <= n < out.len() && (#[trigger] out[n]).id == devices[i].id by {
            let table = lemma_named_table(devices[i], q);
            let id = devices[i].id as u64;
            assert(kv::one_found_by(devices, table, key, id));
            assert(p.passes(devices[i].brand));
            assert forall|x: int| 0 <= x < cs.len() && (#[trigger] cs[x]).id == id implies (
            cs[x].device matches Some(d) && p.passes(d.1)) by {}
            lemma_named_devices_are_found(p, cs, devices, key, hits, table, id);
            let n = choose|n: int| 0 <= n < out.len() && (#[trigger] out[n]).id as u64 == id;
            assert(out[n].id == devices[i].id);
        }
        assert forall|x: int|
            #![trigger hits[x]]
            0 <= x < hits.len() && (stored(devices, hits[x] as u64) matches Some(d) && (
            p.brands.len() == 0 || p.brands.contains(d.1))) implies exists|n: int|
            0 <= n < out.len() && (#[trigger] out[n]).id == hits[x] by {
            let c = named_line(named).len() + x;
            assert(line_of(named, hits)[c] == (hits[x] as u64, Some(x as usize)));
            assert((cs[c].id, cs[c].hit) == line_of(named, hits)[c]);
            assert(cs[c].device matches Some(d) && p.passes(d.1));
            lemma_nothing_left_out(p, cs, c);
            let n = choose|n: int| 0 <= n < out.len() && (#[trigger] out[n]).id as u64 == cs[c].id;
            assert(out[n].id == hits[x]);
        }
    }
    assert forall|n: int| 0 <= n < out.len() implies (stored(
        devices,
        (#[trigger] out[n]).id as u64,
    ) matches Some(d) && (p.brands.len() == 0 || p.brands.contains(d.1))) by {
        let c = cs[p.sources(cs)[n]];
        assert(c.device == stored(devices, c.id));
        assert(c.device matches Some(d) && p.passes(d.1) && out[n].id == d.0);
    }
}

/// What the store has under an id: the id and the brand of the last device that was
/// written with it.
pub open spec fn stored(devices: Seq<DeviceView>, id: u64) -> Option<(u32, Seq<char>)>
    decreases devices.len(),
{
    if devices.len() == 0 {
        None
    } else if devices.last().id as u64 == id {
        Some((devices.last().id, devices.last().brand))
    } else {
        stored(devices.drop_last(), id)
    }
}

proof fn lemma_named_table(d: DeviceView, q: Seq<char>) -> (table: IndexTable)
    requires
        is_named(d, q),
    ensures
        asked_tables().contains(table),
        kv::found_by(d, table, text::ascii_lowered(q)),
{
    let low = text::ascii_lowered(q);
    assert(low.len() == q.len());
    assert(asked_tables()[0] == IndexTable::ModelId && asked_tables()[1] == IndexTable::Codename
        && asked_tables()[2] == IndexTable::Name);
    if d.codename.len() > 0 && text::ascii_lowered(d.codename) == low {
        IndexTable::Codename
    } else if text::ascii_lowered(d.name) == low {
        IndexTable::Name
    } else if exists|r: int, j: int|
        0 <= r < d.models.len() && 0 <= j < d.models[r].ids.len() && text::ascii_lowered(
            #[trigger] d.models[r].ids[j],
        ) == low {
        let (r, j) = choose|r: int, j: int|
            0 <= r < d.models.len() && 0 <= j < d.models[r].ids.len() && text::ascii_lowered(
                #[trigger] d.models[r].ids[j],
            ) == low;
        assert(kv::row_has_model(d.models[r], low));
        IndexTable::ModelId
    } else {
        IndexTable::Name
    }
}

/// The server gives at least one result and at most a hundred, as many as it is
/// asked for within these bounds, and never fewer where it is asked for more.
pub proof fn lemma_served(k: usize, l: usize)
    ensures
        1 <= served(k) <= 100,
        1 <= k <= 100 ==> served(k) == k,
        k <= l ==> served(k) <= served(l),
{
}

} // verus!
