//! What is read of a store that was built from devices: the answers to questions
//! for brands and series, the number of devices of each brand, and the sizes of
//! the tables.
//!
//! A table is walked in the order of its keys, as the store hands it out.

use crate::kv;
use crate::kv::IndexTable;
use crate::model::DeviceView;
use crate::order;
use crate::query;
use crate::record;
use crate::text;
use vstd::prelude::*;

verus! {

// ---------------------------------------------------------------------------
// Walking a table
// ---------------------------------------------------------------------------

/// The store that was built from devices.
pub open spec fn built(devices: Seq<DeviceView>) -> Map<(IndexTable, Seq<char>), Seq<u8>> {
    kv::stored_after(kv::all_postings(devices))
}

/// The postings of the devices can be counted.
pub open spec fn countable(devices: Seq<DeviceView>) -> bool {
    kv::all_postings(devices).len() <= u64::MAX
}

/// The keys of entries.
pub open spec fn keys(entries: Seq<(Seq<char>, Seq<u8>)>) -> Seq<Seq<char>> {
    Seq::new(entries.len(), |i: int| entries[i].0)
}

/// The entries are those of a table: its keys in ascending order, each with what
/// the store holds under it.
pub open spec fn is_walk(
    store: Map<(IndexTable, Seq<char>), Seq<u8>>,
    table: IndexTable,
    entries: Seq<(Seq<char>, Seq<u8>)>,
) -> bool {
    &&& text::increasing(keys(entries))
    &&& forall|i: int|
        0 <= i < entries.len() ==> kv::held(store, table, (#[trigger] entries[i]).0) == Some(
            entries[i].1,
        )
    &&& forall|key: Seq<char>| #[trigger]
        kv::held(store, table, key) is Some ==> keys(entries).contains(key)
}

/// A key is among ascending keys once.
pub proof fn lemma_increasing_apart(v: Seq<Seq<char>>)
    requires
        text::increasing(v),
    ensures
        v.no_duplicates(),
{
    assert forall|i: int, j: int| 0 <= i < v.len() && 0 <= j < v.len() && i != j implies v[i]
        != v[j] by {
        text::lemma_less_total(v[i], v[j]);
        text::lemma_less_total(v[j], v[i]);
        if i < j {
            assert(text::less(v[i], v[j]));
        } else {
            assert(text::less(v[j], v[i]));
        }
    }
}

proof fn lemma_held_iff_posted(p: Seq<kv::PostingView>, table: IndexTable, key: Seq<char>)
    requires
        p.len() <= u64::MAX,
    ensures
        kv::held(kv::stored_after(p), table, key) is Some <==> kv::posted_ids(p, table, key).len()
            > 0,
    decreases p.len(),
{
    if p.len() > 0 {
        let q = p.last();
        lemma_held_iff_posted(p.drop_last(), table, key);
        kv::lemma_lookup_gives_what_was_posted(p.drop_last(), q.table, q.key);
    }
}

/// A device is found in a table by a key.
pub open spec fn known(devices: Seq<DeviceView>, table: IndexTable, key: Seq<char>) -> bool {
    exists|i: int| 0 <= i < devices.len() && kv::found_by(#[trigger] devices[i], table, key)
}

/// A table of a built store has exactly the keys by which a device is found.
pub proof fn lemma_walk_keys(
    devices: Seq<DeviceView>,
    table: IndexTable,
    entries: Seq<(Seq<char>, Seq<u8>)>,
    key: Seq<char>,
)
    requires
        countable(devices),
        is_walk(built(devices), table, entries),
    ensures
        keys(entries).contains(key) <==> known(devices, table, key),
{
    let ids = kv::listed(devices, table, key);
    lemma_held_iff_posted(kv::all_postings(devices), table, key);
    kv::lemma_posted_is_listed(devices, table, key);
    if keys(entries).contains(key) {
        let i = choose|i: int| 0 <= i < keys(entries).len() && keys(entries)[i] == key;
        assert(kv::held(built(devices), table, entries[i].0) is Some);
        kv::lemma_listed(devices, table, key, ids[0]);
        assert(ids.contains(ids[0]));
        let j = choose|j: int|
            0 <= j < devices.len() && kv::found_by(#[trigger] devices[j], table, key)
                && devices[j].id as u64 == ids[0];
        assert(kv::found_by(devices[j], table, key));
    }
    if known(devices, table, key) {
        let j = choose|j: int|
            0 <= j < devices.len() && kv::found_by(#[trigger] devices[j], table, key);
        kv::lemma_listed(devices, table, key, devices[j].id as u64);
        assert(ids.contains(devices[j].id as u64));
        assert(kv::held(built(devices), table, key) is Some);
    }
}

/// What an entry of a built store reads as.
proof fn lemma_walk_ids(
    devices: Seq<DeviceView>,
    table: IndexTable,
    entries: Seq<(Seq<char>, Seq<u8>)>,
    i: int,
)
    requires
        countable(devices),
        is_walk(built(devices), table, entries),
        0 <= i < entries.len(),
    ensures
        kv::ids_read(entries[i].1) == Some(kv::listed(devices, table, entries[i].0)),
{
    kv::lemma_lookup_finds_the_devices(devices, table, entries[i].0, 0);
    assert(kv::held(built(devices), table, entries[i].0) == Some(entries[i].1));
}

/// The keys by which a device is found.
pub open spec fn keys_of(devices: Seq<DeviceView>, table: IndexTable) -> Set<Seq<char>> {
    Set::new(|key: Seq<char>| known(devices, table, key))
}

/// The size of a table of a built store is the number of different keys by which a
/// device is found: of different model ids, of different codenames, and so on.
pub proof fn lemma_table_sizes(
    devices: Seq<DeviceView>,
    table: IndexTable,
    entries: Seq<(Seq<char>, Seq<u8>)>,
)
    requires
        countable(devices),
        is_walk(built(devices), table, entries),
    ensures
        keys_of(devices, table).finite(),
        entries.len() == keys_of(devices, table).len(),
{
    let k = keys(entries);
    lemma_increasing_apart(k);
    k.unique_seq_to_set();
    assert forall|key: Seq<char>| #[trigger] k.to_set().contains(key) <==> keys_of(
        devices,
        table,
    ).contains(key) by {
        lemma_walk_keys(devices, table, entries, key);
    }
    assert(k.to_set() =~= keys_of(devices, table));
    vstd::seq_lib::seq_to_set_is_finite(k);
}

// ---------------------------------------------------------------------------
// Lists of several keys
// ---------------------------------------------------------------------------

/// The ids of devices under keys, key by key.
pub open spec fn gathered(
    devices: Seq<DeviceView>,
    table: IndexTable,
    some_keys: Seq<Seq<char>>,
) -> Seq<u64>
    decreases some_keys.len(),
{
    if some_keys.len() == 0 {
        Seq::empty()
    } else {
        gathered(devices, table, some_keys.drop_last()) + kv::listed(
            devices,
            table,
            some_keys.last(),
        )
    }
}

/// One of the devices has the id and is found by one of the keys.
pub open spec fn found_by_one(
    devices: Seq<DeviceView>,
    table: IndexTable,
    some_keys: Seq<Seq<char>>,
    id: u64,
) -> bool {
    exists|k: int|
        0 <= k < some_keys.len() && kv::one_found_by(devices, table, #[trigger] some_keys[k], id)
}

proof fn lemma_gathered(
    devices: Seq<DeviceView>,
    table: IndexTable,
    some_keys: Seq<Seq<char>>,
    id: u64,
)
    ensures
        gathered(devices, table, some_keys).contains(id) <==> found_by_one(
            devices,
            table,
            some_keys,
            id,
        ),
    decreases some_keys.len(),
{
    if some_keys.len() > 0 {
        let init = some_keys.drop_last();
        let before = gathered(devices, table, init);
        let last = kv::listed(devices, table, some_keys.last());
        let all = gathered(devices, table, some_keys);
        lemma_gathered(devices, table, init, id);
        kv::lemma_listed(devices, table, some_keys.last(), id);
        lemma_contains_concat(before, last, id);
        assert(some_keys[some_keys.len() - 1] == some_keys.last());
        if found_by_one(devices, table, init, id) {
            let k = choose|k: int|
                0 <= k < init.len() && kv::one_found_by(devices, table, #[trigger] init[k], id);
            assert(some_keys[k] == init[k]);
        }
        if found_by_one(devices, table, some_keys, id) && !kv::one_found_by(
            devices,
            table,
            some_keys.last(),
            id,
        ) {
            let k = choose|k: int|
                0 <= k < some_keys.len() && kv::one_found_by(
                    devices,
                    table,
                    #[trigger] some_keys[k],
                    id,
                );
            assert(init[k] == some_keys[k]);
        }
    }
}

proof fn lemma_contains_concat(a: Seq<u64>, b: Seq<u64>, x: u64)
    ensures
        (a + b).contains(x) <==> a.contains(x) || b.contains(x),
{
    if a.contains(x) {
        let i = choose|i: int| 0 <= i < a.len() && a[i] == x;
        assert((a + b)[i] == x);
    }
    if b.contains(x) {
        let i = choose|i: int| 0 <= i < b.len() && b[i] == x;
        assert((a + b)[a.len() + i] == x);
    }
    if (a + b).contains(x) {
        let i = choose|i: int| 0 <= i < (a + b).len() && (a + b)[i] == x;
        if i < a.len() {
            assert(a[i] == x);
        } else {
            assert(b[i - a.len()] == x);
        }
    }
}

proof fn lemma_apart_concat(a: Seq<u64>, b: Seq<u64>)
    requires
        a.no_duplicates(),
        b.no_duplicates(),
        forall|x: u64| a.contains(x) ==> !#[trigger] b.contains(x),
    ensures
        (a + b).no_duplicates(),
{
    let c = a + b;
    assert forall|i: int, j: int| 0 <= i < c.len() && 0 <= j < c.len() && i != j implies c[i]
        != c[j] by {
        if i < a.len() && j >= a.len() {
            assert(a.contains(a[i]));
            assert(b.contains(b[j - a.len()]));
        } else if j < a.len() && i >= a.len() {
            assert(a.contains(a[j]));
            assert(b.contains(b[i - a.len()]));
        } else if i < a.len() {
            assert(a[i] != a[j]);
        } else {
            assert(b[i - a.len()] != b[j - a.len()]);
        }
    }
}

/// In a table that finds a device once, the list under a key has each id once.
proof fn lemma_listed_apart(devices: Seq<DeviceView>, table: IndexTable, key: Seq<char>)
    requires
        record::ids_apart(devices),
        table != IndexTable::ModelId,
    ensures
        kv::listed(devices, table, key).no_duplicates(),
    decreases devices.len(),
{
    if devices.len() > 0 {
        let init = devices.drop_last();
        let d = devices.last();
        let before = kv::listed(init, table, key);
        let more = kv::repeated(d.id, kv::times(d, table, key));
        assert forall|i: int, j: int| 0 <= i < j < init.len() implies (#[trigger] init[i]).id != (
        #[trigger] init[j]).id by {
            assert(devices[i] == init[i] && devices[j] == init[j]);
        }
        lemma_listed_apart(init, table, key);
        kv::lemma_times(d, table, key);
        assert forall|x: u64| before.contains(x) implies !#[trigger] more.contains(x) by {
            kv::lemma_listed(init, table, key, x);
            let j = choose|j: int|
                0 <= j < init.len() && kv::found_by(#[trigger] init[j], table, key)
                    && init[j].id as u64 == x;
            assert(devices[j] == init[j]);
            assert(devices[devices.len() - 1] == d);
        }
        lemma_apart_concat(before, more);
    }
}

/// In a table that has one key for a device, the list under different keys has
/// each id once.
proof fn lemma_gathered_apart(
    devices: Seq<DeviceView>,
    table: IndexTable,
    some_keys: Seq<Seq<char>>,
)
    requires
        record::ids_apart(devices),
        table == IndexTable::Brand || table == IndexTable::Series,
        some_keys.no_duplicates(),
    ensures
        gathered(devices, table, some_keys).no_duplicates(),
    decreases some_keys.len(),
{
    if some_keys.len() > 0 {
        let init = some_keys.drop_last();
        let last = some_keys.last();
        let before = gathered(devices, table, init);
        let more = kv::listed(devices, table, last);
        assert(init.no_duplicates());
        lemma_gathered_apart(devices, table, init);
        lemma_listed_apart(devices, table, last);
        assert forall|x: u64| before.contains(x) implies !#[trigger] more.contains(x) by {
            lemma_gathered(devices, table, init, x);
            kv::lemma_listed(devices, table, last, x);
            let k = choose|k: int|
                0 <= k < init.len() && kv::one_found_by(devices, table, #[trigger] init[k], x);
            assert(some_keys[k] == init[k]);
            assert(some_keys[some_keys.len() - 1] == last);
            if more.contains(x) {
                let i = choose|i: int|
                    0 <= i < devices.len() && kv::found_by(#[trigger] devices[i], table, init[k])
                        && devices[i].id as u64 == x;
                let j = choose|j: int|
                    0 <= j < devices.len() && kv::found_by(#[trigger] devices[j], table, last)
                        && devices[j].id as u64 == x;
                assert(i == j);
            }
        }
        lemma_apart_concat(before, more);
    }
}

/// What is selected of keys without repetitions has none.
proof fn lemma_select_apart(v: Seq<Seq<char>>, p: spec_fn(Seq<char>) -> bool)
    requires
        v.no_duplicates(),
    ensures
        text::select(v, p).no_duplicates(),
    decreases v.len(),
{
    if v.len() > 0 {
        let init = v.drop_last();
        assert(init.no_duplicates());
        lemma_select_apart(init, p);
        text::lemma_select(init, p, v.last());
        if init.contains(v.last()) {
            let i = choose|i: int| 0 <= i < init.len() && init[i] == v.last();
            assert(v[i] == v[v.len() - 1]);
        }
        let before = text::select(init, p);
        if p(v.last()) {
            let r = before.push(v.last());
            assert forall|i: int, j: int| 0 <= i < r.len() && 0 <= j < r.len() && i != j implies r[i]
                != r[j] by {
                if i == before.len() {
                    assert(before.contains(before[j]));
                } else if j == before.len() {
                    assert(before.contains(before[i]));
                }
            }
        }
    }
}

// ---------------------------------------------------------------------------
// Brands
// ---------------------------------------------------------------------------

proof fn lemma_fuzzy_brand_is_gathered(
    devices: Seq<DeviceView>,
    entries: Seq<(Seq<char>, Seq<u8>)>,
    n: int,
    sub: Seq<char>,
    strict: bool,
)
    requires
        countable(devices),
        is_walk(built(devices), IndexTable::Brand, entries),
        0 <= n <= entries.len(),
    ensures
        query::fuzzy_brand_ids(entries.take(n), sub, strict) == Some(
            gathered(
                devices,
                IndexTable::Brand,
                text::select(keys(entries).take(n), |b: Seq<char>| query::name_has(b, sub)),
            ),
        ),
    decreases n,
{
    let p = |b: Seq<char>| query::name_has(b, sub);
    let k = keys(entries);
    if n > 0 {
        lemma_fuzzy_brand_is_gathered(devices, entries, n - 1, sub, strict);
        lemma_walk_ids(devices, IndexTable::Brand, entries, n - 1);
        assert(entries.take(n).drop_last() =~= entries.take(n - 1));
        assert(k.take(n).drop_last() =~= k.take(n - 1));
        assert(k.take(n).last() == entries[n - 1].0);
        assert(p(entries[n - 1].0) == query::name_has(entries[n - 1].0, sub));
        let before = text::select(k.take(n - 1), p);
        if p(entries[n - 1].0) {
            assert(before.push(entries[n - 1].0).drop_last() =~= before);
        }
    } else {
        assert(entries.take(0) =~= Seq::<(Seq<char>, Seq<u8>)>::empty());
        assert(k.take(0) =~= Seq::<Seq<char>>::empty());
    }
}

/// One of the devices has the id and a brand that contains a text.
pub open spec fn of_like_brand(devices: Seq<DeviceView>, sub: Seq<char>, id: u64) -> bool {
    exists|i: int|
        0 <= i < devices.len() && query::name_has((#[trigger] devices[i]).brand, sub)
            && devices[i].id as u64 == id
}

/// One of the devices has the id and the brand.
pub open spec fn of_brand(devices: Seq<DeviceView>, brand: Seq<char>, id: u64) -> bool {
    exists|i: int|
        0 <= i < devices.len() && (#[trigger] devices[i]).brand == brand && devices[i].id as u64
            == id
}

/// The answer to a question for a brand over a built store: each id once, those
/// of the devices of that brand where there are any, otherwise those of the
/// devices whose brand contains the text.
pub proof fn lemma_brand_answer(
    devices: Seq<DeviceView>,
    entries: Seq<(Seq<char>, Seq<u8>)>,
    key: Seq<char>,
    strict: bool,
    id: u64,
)
    requires
        countable(devices),
        record::ids_apart(devices),
        is_walk(built(devices), IndexTable::Brand, entries),
    ensures
        ({
            let exact = kv::listed(devices, IndexTable::Brand, key);
            let answer = query::brand_answer(exact, entries, key, strict);
            &&& kv::stored_ids(kv::held(built(devices), IndexTable::Brand, key)) == Some(exact)
            &&& answer is Some
            &&& (answer->0).no_duplicates()
            &&& known(devices, IndexTable::Brand, key) ==> ((answer->0).contains(id) <==> of_brand(
                devices,
                key,
                id,
            ))
            &&& !known(devices, IndexTable::Brand, key) ==> ((answer->0).contains(id)
                <==> of_like_brand(devices, key, id))
        }),
{
    let table = IndexTable::Brand;
    let exact = kv::listed(devices, table, key);
    let p = |b: Seq<char>| query::name_has(b, key);
    let k = keys(entries);
    let like = text::select(k, p);
    kv::lemma_lookup_finds_the_devices(devices, table, key, id);
    lemma_listed_apart(devices, table, key);
    lemma_fuzzy_brand_is_gathered(devices, entries, entries.len() as int, key, strict);
    assert(entries.take(entries.len() as int) =~= entries);
    assert(k.take(entries.len() as int) =~= k);
    lemma_increasing_apart(k);
    lemma_select_apart(k, p);
    lemma_gathered_apart(devices, table, like);
    lemma_gathered(devices, table, like, id);
    if known(devices, table, key) {
        let j = choose|j: int|
            0 <= j < devices.len() && kv::found_by(#[trigger] devices[j], table, key);
        kv::lemma_listed(devices, table, key, devices[j].id as u64);
        assert(exact.contains(devices[j].id as u64));
        if kv::one_found_by(devices, table, key, id) {
            let i = choose|i: int|
                0 <= i < devices.len() && kv::found_by(#[trigger] devices[i], table, key)
                    && devices[i].id as u64 == id;
            assert(devices[i].brand == key);
        }
        if of_brand(devices, key, id) {
            let i = choose|i: int|
                0 <= i < devices.len() && (#[trigger] devices[i]).brand == key
                    && devices[i].id as u64 == id;
            assert(kv::found_by(devices[i], table, key));
        }
    } else {
        if exact.len() > 0 {
            kv::lemma_listed(devices, table, key, exact[0]);
            assert(exact.contains(exact[0]));
        }
        if found_by_one(devices, table, like, id) {
            let n = choose|n: int|
                0 <= n < like.len() && kv::one_found_by(devices, table, #[trigger] like[n], id);
            text::lemma_select(k, p, like[n]);
            assert(like.contains(like[n]));
            let i = choose|i: int|
                0 <= i < devices.len() && kv::found_by(#[trigger] devices[i], table, like[n])
                    && devices[i].id as u64 == id;
            assert(query::name_has(devices[i].brand, key));
        }
        if of_like_brand(devices, key, id) {
            let i = choose|i: int|
                0 <= i < devices.len() && query::name_has((#[trigger] devices[i]).brand, key)
                    && devices[i].id as u64 == id;
            let b = devices[i].brand;
            assert(kv::found_by(devices[i], table, b));
            lemma_walk_keys(devices, table, entries, b);
            text::lemma_select(k, p, b);
            assert(p(b));
            let n = choose|n: int| 0 <= n < like.len() && like[n] == b;
            assert(kv::one_found_by(devices, table, like[n], id));
        }
    }
}

// ---------------------------------------------------------------------------
// Series
// ---------------------------------------------------------------------------

/// No brand has a zero character, which parts the brand from the series in a key.
pub open spec fn brands_plain(devices: Seq<DeviceView>) -> bool {
    forall|i: int| 0 <= i < devices.len() ==> !(#[trigger] devices[i]).brand.contains('\0')
}

/// What the key of a series is matched by.
pub proof fn lemma_series_key_match(
    brand: Seq<char>,
    series: Seq<char>,
    want: Option<Seq<char>>,
    sub: Seq<char>,
)
    requires
        !brand.contains('\0'),
    ensures
        query::series_match(kv::series_key_of(brand, series), want, sub) <==> query::name_has(
            series,
            sub,
        ) && (want matches Some(b) ==> brand == b),
{
    let key = kv::series_key_of(brand, series);
    let sep = seq!['\0'];
    let n = brand.len() as int;
    text::lemma_index_from(key, sep, 0);
    assert(key.subrange(n, n + 1) =~= sep);
    assert(text::occurs_at(key, sep, n));
    let i = text::index_of(key, sep)->0;
    if i < n {
        assert(key.subrange(i, i + 1)[0] == key[i]);
        assert(brand[i] == '\0');
        assert(brand.contains('\0'));
    }
    assert(i == n);
    assert(key.skip(n + 1) =~= series);
    assert(key.take(n) =~= brand);
}

proof fn lemma_series_is_gathered(
    devices: Seq<DeviceView>,
    entries: Seq<(Seq<char>, Seq<u8>)>,
    n: int,
    brand: Option<Seq<char>>,
    sub: Seq<char>,
)
    requires
        countable(devices),
        is_walk(built(devices), IndexTable::Series, entries),
        0 <= n <= entries.len(),
    ensures
        query::series_ids(entries.take(n), brand, sub) == Some(
            gathered(
                devices,
                IndexTable::Series,
                text::select(
                    keys(entries).take(n),
                    |k: Seq<char>| query::series_match(k, brand, sub),
                ),
            ),
        ),
    decreases n,
{
    let p = |k: Seq<char>| query::series_match(k, brand, sub);
    let k = keys(entries);
    if n > 0 {
        lemma_series_is_gathered(devices, entries, n - 1, brand, sub);
        lemma_walk_ids(devices, IndexTable::Series, entries, n - 1);
        assert(entries.take(n).drop_last() =~= entries.take(n - 1));
        assert(k.take(n).drop_last() =~= k.take(n - 1));
        assert(k.take(n).last() == entries[n - 1].0);
        assert(p(entries[n - 1].0) == query::series_match(entries[n - 1].0, brand, sub));
        let before = text::select(k.take(n - 1), p);
        if p(entries[n - 1].0) {
            assert(before.push(entries[n - 1].0).drop_last() =~= before);
        }
    } else {
        assert(entries.take(0) =~= Seq::<(Seq<char>, Seq<u8>)>::empty());
        assert(k.take(0) =~= Seq::<Seq<char>>::empty());
    }
}

/// One of the devices has the id, a series that contains a text, and the brand
/// where one is given. A device without a series is none of them.
pub open spec fn of_series(
    devices: Seq<DeviceView>,
    brand: Option<Seq<char>>,
    sub: Seq<char>,
    id: u64,
) -> bool {
    exists|i: int|
        0 <= i < devices.len() && in_series(#[trigger] devices[i], brand, sub)
            && devices[i].id as u64 == id
}

/// The device has a series that contains a text, and the brand where one is given.
pub open spec fn in_series(d: DeviceView, brand: Option<Seq<char>>, sub: Seq<char>) -> bool {
    d.series.len() > 0 && query::name_has(d.series, sub) && (brand matches Some(b) ==> d.brand == b)
}

/// What a built store finds of series that contain a text, of one brand or of
/// all: exactly the ids of the devices with such a series, each once.
pub proof fn lemma_series_found(
    devices: Seq<DeviceView>,
    entries: Seq<(Seq<char>, Seq<u8>)>,
    brand: Option<Seq<char>>,
    sub: Seq<char>,
    id: u64,
)
    requires
        countable(devices),
        record::ids_apart(devices),
        brands_plain(devices),
        is_walk(built(devices), IndexTable::Series, entries),
    ensures
        ({
            let found = query::series_ids(entries, brand, sub);
            &&& found is Some
            &&& (found->0).no_duplicates()
            &&& (found->0).contains(id) <==> of_series(devices, brand, sub, id)
        }),
{
    let table = IndexTable::Series;
    let p = |k: Seq<char>| query::series_match(k, brand, sub);
    let k = keys(entries);
    let like = text::select(k, p);
    lemma_series_is_gathered(devices, entries, entries.len() as int, brand, sub);
    assert(entries.take(entries.len() as int) =~= entries);
    assert(k.take(entries.len() as int) =~= k);
    lemma_increasing_apart(k);
    lemma_select_apart(k, p);
    lemma_gathered_apart(devices, table, like);
    lemma_gathered(devices, table, like, id);
    if found_by_one(devices, table, like, id) {
        let n = choose|n: int|
            0 <= n < like.len() && kv::one_found_by(devices, table, #[trigger] like[n], id);
        text::lemma_select(k, p, like[n]);
        assert(like.contains(like[n]));
        let i = choose|i: int|
            0 <= i < devices.len() && kv::found_by(#[trigger] devices[i], table, like[n])
                && devices[i].id as u64 == id;
        lemma_series_key_match(devices[i].brand, devices[i].series, brand, sub);
        assert(in_series(devices[i], brand, sub));
    }
    if of_series(devices, brand, sub, id) {
        let i = choose|i: int|
            0 <= i < devices.len() && in_series(#[trigger] devices[i], brand, sub)
                && devices[i].id as u64 == id;
        let key = kv::series_key_of(devices[i].brand, devices[i].series);
        lemma_series_key_match(devices[i].brand, devices[i].series, brand, sub);
        assert(kv::found_by(devices[i], table, key));
        lemma_walk_keys(devices, table, entries, key);
        text::lemma_select(k, p, key);
        assert(p(key));
        let n = choose|n: int| 0 <= n < like.len() && like[n] == key;
        assert(kv::one_found_by(devices, table, like[n], id));
    }
}

/// One of the devices has the id, one of the brands, and a series that contains a
/// text.
pub open spec fn of_brands_series(
    devices: Seq<DeviceView>,
    brands: Seq<Seq<char>>,
    sub: Seq<char>,
    id: u64,
) -> bool {
    exists|i: int|
        0 <= i < devices.len() && in_series(#[trigger] devices[i], None, sub) && brands.contains(
            devices[i].brand,
        ) && devices[i].id as u64 == id
}

proof fn lemma_fuzzy_series(
    devices: Seq<DeviceView>,
    entries: Seq<(Seq<char>, Seq<u8>)>,
    brands: Seq<Seq<char>>,
    sub: Seq<char>,
    strict: bool,
    id: u64,
)
    requires
        countable(devices),
        record::ids_apart(devices),
        brands_plain(devices),
        is_walk(built(devices), IndexTable::Series, entries),
        brands.no_duplicates(),
    ensures
        ({
            let found = query::fuzzy_series_ids(brands, entries, sub, strict);
            &&& found is Some
            &&& (found->0).no_duplicates()
            &&& (found->0).contains(id) <==> of_brands_series(devices, brands, sub, id)
        }),
    decreases brands.len(),
{
    if brands.len() > 0 {
        let init = brands.drop_last();
        let b = brands.last();
        assert(init.no_duplicates());
        lemma_fuzzy_series(devices, entries, init, sub, strict, id);
        lemma_series_found(devices, entries, Some(b), sub, id);
        let before = query::fuzzy_series_ids(init, entries, sub, strict)->0;
        let more = query::series_ids(entries, Some(b), sub)->0;
        lemma_contains_concat(before, more, id);
        assert(brands[brands.len() - 1] == b);
        assert forall|x: u64| before.contains(x) implies !#[trigger] more.contains(x) by {
            lemma_fuzzy_series(devices, entries, init, sub, strict, x);
            lemma_series_found(devices, entries, Some(b), sub, x);
            let i = choose|i: int|
                0 <= i < devices.len() && in_series(#[trigger] devices[i], None, sub)
                    && init.contains(devices[i].brand) && devices[i].id as u64 == x;
            if more.contains(x) {
                let j = choose|j: int|
                    0 <= j < devices.len() && in_series(#[trigger] devices[j], Some(b), sub)
                        && devices[j].id as u64 == x;
                assert(i == j);
                let n = choose|n: int| 0 <= n < init.len() && init[n] == b;
                assert(brands[n] == b);
            }
        }
        lemma_apart_concat(before, more);
        if of_brands_series(devices, init, sub, id) {
            let i = choose|i: int|
                0 <= i < devices.len() && in_series(#[trigger] devices[i], None, sub)
                    && init.contains(devices[i].brand) && devices[i].id as u64 == id;
            let n = choose|n: int| 0 <= n < init.len() && init[n] == devices[i].brand;
            assert(brands[n] == devices[i].brand);
        }
        if of_series(devices, Some(b), sub, id) {
            let i = choose|i: int|
                0 <= i < devices.len() && in_series(#[trigger] devices[i], Some(b), sub)
                    && devices[i].id as u64 == id;
            assert(in_series(devices[i], None, sub));
        }
        if of_brands_series(devices, brands, sub, id) {
            let i = choose|i: int|
                0 <= i < devices.len() && in_series(#[trigger] devices[i], None, sub)
                    && brands.contains(devices[i].brand) && devices[i].id as u64 == id;
            if devices[i].brand == b {
                assert(in_series(devices[i], Some(b), sub));
            } else {
                let n = choose|n: int| 0 <= n < brands.len() && brands[n] == devices[i].brand;
                assert(init[n] == devices[i].brand);
            }
        }
    }
}

/// One of the devices has the id, a brand that contains a text, and a series that
/// contains another.
pub open spec fn of_like_series(
    devices: Seq<DeviceView>,
    brand: Seq<char>,
    series: Seq<char>,
    id: u64,
) -> bool {
    exists|i: int|
        0 <= i < devices.len() && in_series(#[trigger] devices[i], None, series)
            && query::name_has(devices[i].brand, brand) && devices[i].id as u64 == id
}

/// The answer to a question for a series over a built store, where the exact names
/// are not known: each id once, those of the devices whose brand contains the one
/// text and whose series contains the other. Where they are known, the answer is
/// what is listed under them.
pub proof fn lemma_series_answer(
    devices: Seq<DeviceView>,
    brand_entries: Seq<(Seq<char>, Seq<u8>)>,
    entries: Seq<(Seq<char>, Seq<u8>)>,
    brand: Seq<char>,
    series: Seq<char>,
    strict: bool,
    id: u64,
)
    requires
        countable(devices),
        record::ids_apart(devices),
        brands_plain(devices),
        is_walk(built(devices), IndexTable::Brand, brand_entries),
        is_walk(built(devices), IndexTable::Series, entries),
    ensures
        ({
            let exact = kv::listed(
                devices,
                IndexTable::Series,
                kv::series_key_of(brand, series),
            );
            let answer = query::series_answer(
                exact,
                keys(brand_entries),
                entries,
                brand,
                series,
                strict,
            );
            &&& kv::stored_ids(
                kv::held(built(devices), IndexTable::Series, kv::series_key_of(brand, series)),
            ) == Some(exact)
            &&& answer is Some
            &&& (answer->0).fuzzy == (exact.len() == 0)
            &&& (answer->0).ids.no_duplicates()
            &&& exact.len() > 0 ==> (answer->0).ids == exact
            &&& exact.len() == 0 ==> ((answer->0).ids.contains(id) <==> of_like_series(
                devices,
                brand,
                series,
                id,
            ))
        }),
{
    let exact_key = kv::series_key_of(brand, series);
    let exact = kv::listed(devices, IndexTable::Series, exact_key);
    kv::lemma_lookup_finds_the_devices(devices, IndexTable::Series, exact_key, id);
    lemma_listed_apart(devices, IndexTable::Series, exact_key);
    let p = |b: Seq<char>| query::name_has(b, brand);
    let k = keys(brand_entries);
    let tried = text::select(k, p);
    lemma_increasing_apart(k);
    lemma_select_apart(k, p);
    lemma_fuzzy_series(devices, entries, tried, series, strict, id);
    if exact.len() == 0 {
        if of_brands_series(devices, tried, series, id) {
            let i = choose|i: int|
                0 <= i < devices.len() && in_series(#[trigger] devices[i], None, series)
                    && tried.contains(devices[i].brand) && devices[i].id as u64 == id;
            text::lemma_select(k, p, devices[i].brand);
            assert(p(devices[i].brand));
            assert(query::name_has(devices[i].brand, brand));
        }
        if of_like_series(devices, brand, series, id) {
            let i = choose|i: int|
                0 <= i < devices.len() && in_series(#[trigger] devices[i], None, series)
                    && query::name_has(devices[i].brand, brand) && devices[i].id as u64 == id;
            let b = devices[i].brand;
            assert(kv::found_by(devices[i], IndexTable::Brand, b));
            lemma_walk_keys(devices, IndexTable::Brand, brand_entries, b);
            text::lemma_select(k, p, b);
            assert(p(b));
            assert(tried.contains(b));
        }
    }
}

// ---------------------------------------------------------------------------
// Numbers of devices
// ---------------------------------------------------------------------------

/// The number of devices of a brand.
pub open spec fn brand_size(devices: Seq<DeviceView>, brand: Seq<char>) -> nat
    decreases devices.len(),
{
    if devices.len() == 0 {
        0
    } else {
        brand_size(devices.drop_last(), brand) + if devices.last().brand == brand {
            1nat
        } else {
            0nat
        }
    }
}

/// The numbers of devices of brands, added up.
pub open spec fn sizes_sum(devices: Seq<DeviceView>, brands: Seq<Seq<char>>) -> nat
    decreases brands.len(),
{
    if brands.len() == 0 {
        0
    } else {
        sizes_sum(devices, brands.drop_last()) + brand_size(devices, brands.last())
    }
}

proof fn lemma_brand_size(devices: Seq<DeviceView>, brand: Seq<char>)
    ensures
        kv::listed(devices, IndexTable::Brand, brand).len() == brand_size(devices, brand),
    decreases devices.len(),
{
    if devices.len() > 0 {
        lemma_brand_size(devices.drop_last(), brand);
    }
}

/// One more device adds one to the sum where its brand is among the brands.
proof fn lemma_sum_of_one_more(devices: Seq<DeviceView>, brands: Seq<Seq<char>>)
    requires
        devices.len() > 0,
        brands.no_duplicates(),
    ensures
        sizes_sum(devices, brands) == sizes_sum(devices.drop_last(), brands) + if brands.contains(
            devices.last().brand,
        ) {
            1nat
        } else {
            0nat
        },
    decreases brands.len(),
{
    if brands.len() > 0 {
        let init = brands.drop_last();
        let b = devices.last().brand;
        assert(init.no_duplicates());
        lemma_sum_of_one_more(devices, init);
        assert(brands[brands.len() - 1] == brands.last());
        if init.contains(b) {
            let i = choose|i: int| 0 <= i < init.len() && init[i] == b;
            assert(brands[i] == b);
        }
        if brands.contains(b) && brands.last() != b {
            let i = choose|i: int| 0 <= i < brands.len() && brands[i] == b;
            assert(init[i] == b);
        }
    }
}

proof fn lemma_sum_of_all(devices: Seq<DeviceView>, brands: Seq<Seq<char>>)
    requires
        brands.no_duplicates(),
        forall|i: int| 0 <= i < devices.len() ==> brands.contains((#[trigger] devices[i]).brand),
    ensures
        sizes_sum(devices, brands) == devices.len(),
    decreases devices.len(),
{
    if devices.len() > 0 {
        let init = devices.drop_last();
        assert forall|i: int| 0 <= i < init.len() implies brands.contains(
            (#[trigger] init[i]).brand,
        ) by {
            assert(devices[i] == init[i]);
        }
        lemma_sum_of_all(init, brands);
        lemma_sum_of_one_more(devices, brands);
        assert(devices[devices.len() - 1] == devices.last());
    } else {
        lemma_sum_of_none(devices, brands);
    }
}

proof fn lemma_sum_of_none(devices: Seq<DeviceView>, brands: Seq<Seq<char>>)
    requires
        devices.len() == 0,
    ensures
        sizes_sum(devices, brands) == 0,
    decreases brands.len(),
{
    if brands.len() > 0 {
        lemma_sum_of_none(devices, brands.drop_last());
    }
}

proof fn lemma_fewer_than_postings(p: Seq<kv::PostingView>, table: IndexTable, key: Seq<char>)
    ensures
        kv::posted_ids(p, table, key).len() <= p.len(),
    decreases p.len(),
{
    if p.len() > 0 {
        lemma_fewer_than_postings(p.drop_last(), table, key);
    }
}

proof fn lemma_counts(
    devices: Seq<DeviceView>,
    entries: Seq<(Seq<char>, Seq<u8>)>,
    n: int,
)
    requires
        countable(devices),
        is_walk(built(devices), IndexTable::Brand, entries),
        0 <= n <= entries.len(),
    ensures
        ({
            let counts = query::brand_counts(entries.take(n));
            &&& counts is Some
            &&& (counts->0).len() == n
            &&& forall|i: int|
                0 <= i < n ==> (#[trigger] (counts->0)[i]).0 == entries[i].0 && (counts->0)[i].1
                    == brand_size(devices, entries[i].0)
        }),
    decreases n,
{
    if n > 0 {
        let brand = entries[n - 1].0;
        lemma_counts(devices, entries, n - 1);
        lemma_walk_ids(devices, IndexTable::Brand, entries, n - 1);
        lemma_brand_size(devices, brand);
        lemma_fewer_than_postings(kv::all_postings(devices), IndexTable::Brand, brand);
        kv::lemma_posted_is_listed(devices, IndexTable::Brand, brand);
        assert(entries.take(n).drop_last() =~= entries.take(n - 1));
        assert(entries.take(n).last() == entries[n - 1]);
    } else {
        assert(entries.take(0) =~= Seq::<(Seq<char>, Seq<u8>)>::empty());
    }
}

/// The counts of a built store: each brand of the devices once, with the number of
/// its devices, and these numbers add up to the number of devices.
pub proof fn lemma_brand_counts(
    devices: Seq<DeviceView>,
    entries: Seq<(Seq<char>, Seq<u8>)>,
    brand: Seq<char>,
)
    requires
        countable(devices),
        is_walk(built(devices), IndexTable::Brand, entries),
    ensures
        ({
            let counts = query::brand_counts(entries);
            &&& counts is Some
            &&& (counts->0).len() == entries.len()
            &&& forall|i: int|
                0 <= i < entries.len() ==> (#[trigger] (counts->0)[i]).0 == entries[i].0
                    && (counts->0)[i].1 == brand_size(devices, entries[i].0)
            &&& keys(entries).no_duplicates()
            &&& keys(entries).contains(brand) <==> brand_size(devices, brand) > 0
            &&& sizes_sum(devices, keys(entries)) == devices.len()
        }),
{
    let table = IndexTable::Brand;
    let k = keys(entries);
    lemma_counts(devices, entries, entries.len() as int);
    assert(entries.take(entries.len() as int) =~= entries);
    lemma_increasing_apart(k);
    lemma_walk_keys(devices, table, entries, brand);
    lemma_brand_size(devices, brand);
    let ids = kv::listed(devices, table, brand);
    if known(devices, table, brand) {
        let j = choose|j: int|
            0 <= j < devices.len() && kv::found_by(#[trigger] devices[j], table, brand);
        kv::lemma_listed(devices, table, brand, devices[j].id as u64);
        assert(ids.contains(devices[j].id as u64));
    } else if ids.len() > 0 {
        kv::lemma_listed(devices, table, brand, ids[0]);
        assert(ids.contains(ids[0]));
    }
    assert forall|i: int| 0 <= i < devices.len() implies k.contains(
        (#[trigger] devices[i]).brand,
    ) by {
        lemma_walk_keys(devices, table, entries, devices[i].brand);
        assert(kv::found_by(devices[i], table, devices[i].brand));
    }
    lemma_sum_of_all(devices, k);
}

/// The statistics of a built store list each brand of the devices once, with the
/// number of its devices, the largest first; the numbers add up to the number of
/// devices.
pub proof fn lemma_per_brand(
    devices: Seq<DeviceView>,
    entries: Seq<(Seq<char>, Seq<u8>)>,
    o: Seq<usize>,
    brand: Seq<char>,
)
    requires
        countable(devices),
        is_walk(built(devices), IndexTable::Brand, entries),
        entries.len() <= usize::MAX,
        order::is_order(query::count_keys(query::brand_counts(entries)->0), o),
    ensures
        ({
            let list = query::arranged(query::brand_counts(entries)->0, o);
            let names = Seq::new(list.len(), |i: int| list[i].0);
            &&& names.no_duplicates()
            &&& names.contains(brand) <==> brand_size(devices, brand) > 0
            &&& forall|i: int|
                0 <= i < list.len() ==> (#[trigger] list[i]).1 == brand_size(devices, list[i].0)
            &&& forall|i: int, j: int|
                0 <= i < j < list.len() ==> (#[trigger] list[i]).1 >= (#[trigger] list[j]).1
            &&& sizes_sum(devices, names) == devices.len()
        }),
{
    let counts = query::brand_counts(entries)->0;
    let list = query::arranged(counts, o);
    let names = Seq::new(list.len(), |i: int| list[i].0);
    let k = keys(entries);
    lemma_brand_counts(devices, entries, brand);
    assert(query::count_keys(counts).len() == entries.len());
    assert forall|i: int| 0 <= i < list.len() implies (#[trigger] list[i]).0 == k[o[i] as int]
        && list[i].1 == brand_size(devices, k[o[i] as int]) by {
        assert(counts[o[i] as int].0 == entries[o[i] as int].0);
    }
    assert forall|i: int, j: int| 0 <= i < j < list.len() implies (#[trigger] list[i]).1 >= (
    #[trigger] list[j]).1 by {
        query::lemma_largest_brands_first(counts, o, i, j);
    }
    assert(names.no_duplicates()) by {
        assert forall|i: int, j: int|
            0 <= i < names.len() && 0 <= j < names.len() && i != j implies names[i] != names[j] by {
            assert(names[i] == k[o[i] as int] && names[j] == k[o[j] as int]);
            if i < j {
                assert(order::precedes(query::count_keys(counts), o[i] as int, o[j] as int));
            } else {
                assert(order::precedes(query::count_keys(counts), o[j] as int, o[i] as int));
            }
        }
    }
    assert forall|b: Seq<char>| #[trigger] names.contains(b) <==> k.contains(b) by {
        if names.contains(b) {
            let i = choose|i: int| 0 <= i < names.len() && names[i] == b;
            assert(k[o[i] as int] == b);
        }
        if k.contains(b) {
            let m = choose|m: int| 0 <= m < k.len() && k[m] == b;
            lemma_order_position(query::count_keys(counts), o, m);
            let i = choose|i: int| 0 <= i < o.len() && #[trigger] o[i] == m;
            assert(names[i] == b);
        }
    }
    assert forall|i: int| 0 <= i < devices.len() implies names.contains(
        (#[trigger] devices[i]).brand,
    ) by {
        lemma_walk_keys(devices, IndexTable::Brand, entries, devices[i].brand);
        assert(kv::found_by(devices[i], IndexTable::Brand, devices[i].brand));
    }
    lemma_sum_of_all(devices, names);
}

/// Each position is somewhere in an order.
proof fn lemma_order_position(some_keys: Seq<u64>, o: Seq<usize>, m: int)
    requires
        order::is_order(some_keys, o),
        0 <= m < some_keys.len(),
        some_keys.len() <= usize::MAX,
    ensures
        exists|i: int| 0 <= i < o.len() && #[trigger] o[i] == m,
{
    assert(o.contains(m as usize));
}

// ---------------------------------------------------------------------------
// Questions in words
// ---------------------------------------------------------------------------

/// One of the model ids of a device is the text, whatever the case of its ASCII
/// letters.
pub open spec fn has_id(d: DeviceView, q: Seq<char>) -> bool {
    exists|r: int, j: int|
        0 <= r < d.models.len() && 0 <= j < d.models[r].ids.len() && text::ascii_lowered(
            #[trigger] d.models[r].ids[j],
        ) == text::ascii_lowered(q)
}

/// One of the market names of a device is the text, whatever the case of its ASCII
/// letters.
pub open spec fn has_market_name(d: DeviceView, q: Seq<char>) -> bool {
    q.len() > 0 && exists|r: int|
        0 <= r < d.models.len() && text::ascii_lowered((#[trigger] d.models[r]).market_name)
            == text::ascii_lowered(q)
}

/// A device is what a question asks for. A device without a code is not found by
/// its code, and so with codenames; brands are asked for as they are written.
pub open spec fn asked_for(d: DeviceView, kind: Seq<char>, q: Seq<char>) -> bool {
    let low = text::ascii_lowered(q);
    ||| kind == "model"@ && has_id(d, q)
    ||| kind == "code"@ && d.code.len() > 0 && text::ascii_lowered(d.code) == low
    ||| kind == "codename"@ && d.codename.len() > 0 && text::ascii_lowered(d.codename) == low
    ||| kind == "name"@ && (text::ascii_lowered(d.name) == low || has_market_name(d, q))
    ||| kind == "brand"@ && d.brand == q
}

proof fn lemma_kinds()
    ensures
        "model"@ != "code"@,
        "model"@ != "codename"@,
        "model"@ != "name"@,
        "model"@ != "brand"@,
        "code"@ != "codename"@,
        "code"@ != "name"@,
        "code"@ != "brand"@,
        "codename"@ != "name"@,
        "codename"@ != "brand"@,
        "name"@ != "brand"@,
{
    reveal_strlit("model");
    reveal_strlit("code");
    reveal_strlit("codename");
    reveal_strlit("name");
    reveal_strlit("brand");
    assert("code"@.len() == 4 && "codename"@.len() == 8);
    assert("model"@[0] == 'm' && "code"@[0] == 'c' && "name"@[0] == 'n' && "brand"@[0] == 'b');
}

proof fn lemma_asked_for(d: DeviceView, kind: Seq<char>, q: Seq<char>)
    requires
        query::lookup_of(kind, q) is Some,
    ensures
        asked_for(d, kind, q) <==> kv::found_by(
            d,
            (query::lookup_of(kind, q)->0).0,
            (query::lookup_of(kind, q)->0).1,
        ),
{
    lemma_kinds();
    let low = text::ascii_lowered(q);
    assert(low.len() == q.len());
    if kv::has_model(d.models, low) {
        let r = choose|r: int| 0 <= r < d.models.len() && kv::row_has_model(#[trigger] d.models[r], low);
        let j = choose|j: int|
            0 <= j < d.models[r].ids.len() && text::ascii_lowered(#[trigger] d.models[r].ids[j])
                == low;
        assert(text::ascii_lowered(d.models[r].ids[j]) == text::ascii_lowered(q));
    }
    if has_id(d, q) {
        let (r, j) = choose|r: int, j: int|
            0 <= r < d.models.len() && 0 <= j < d.models[r].ids.len() && text::ascii_lowered(
                #[trigger] d.models[r].ids[j],
            ) == text::ascii_lowered(q);
        assert(kv::row_has_model(d.models[r], low));
    }
    if kv::has_market_name(d.models, low) {
        let r = choose|r: int|
            0 <= r < d.models.len() && text::ascii_lowered((#[trigger] d.models[r]).market_name)
                == low;
        assert(text::ascii_lowered(d.models[r].market_name) == text::ascii_lowered(q));
    }
    if has_market_name(d, q) {
        let r = choose|r: int|
            0 <= r < d.models.len() && text::ascii_lowered((#[trigger] d.models[r]).market_name)
                == text::ascii_lowered(q);
        assert(text::ascii_lowered(d.models[r].market_name) == low);
    }
}

proof fn lemma_listed_positions(devices: Seq<DeviceView>, table: IndexTable, key: Seq<char>) -> (at:
    Seq<int>)
    requires
        table != IndexTable::ModelId,
    ensures
        text::lists(at, devices.len() as int, |i: int| kv::found_by(devices[i], table, key)),
        at.len() == kv::listed(devices, table, key).len(),
        forall|k: int|
            0 <= k < at.len() ==> kv::listed(devices, table, key)[k] == devices[#[trigger] at[k]].id,
    decreases devices.len(),
{
    let q = |i: int| kv::found_by(devices[i], table, key);
    if devices.len() == 0 {
        let none = Seq::<int>::empty();
        assert(text::lists(none, 0, q));
        none
    } else {
        let init = devices.drop_last();
        let n = init.len() as int;
        let p = |i: int| kv::found_by(init[i], table, key);
        let before = lemma_listed_positions(init, table, key);
        assert forall|i: int| 0 <= i < n implies #[trigger] p(i) == q(i) by {}
        text::lemma_lists_next(before, n, p, q);
        kv::lemma_times(devices.last(), table, key);
        assert(devices[n] == devices.last());
        let at = if q(n) {
            before.push(n)
        } else {
            before
        };
        let all = kv::listed(devices, table, key);
        assert forall|k: int| 0 <= k < at.len() implies all[k] == devices[#[trigger] at[k]].id by {
            if k < before.len() {
                assert(at[k] == before[k]);
                assert(init[before[k]] == devices[before[k]]);
                assert(all[k] == kv::listed(init, table, key)[k]);
            }
        }
        at
    }
}

/// The ids that a store built from devices answers a question with.
pub open spec fn answered(devices: Seq<DeviceView>, kind: Seq<char>, q: Seq<char>) -> Option<
    Seq<u64>,
> {
    match query::lookup_of(kind, q) {
        Some(p) => kv::stored_ids(kv::held(built(devices), p.0, p.1)),
        None => None,
    }
}

/// What a question for a model id, a code, a codename, a name or a brand is
/// answered with: the ids of exactly the devices that it asks for. But for model
/// ids, each of them is there once and they stand in the order of the devices. No
/// other kind of question is answered here.
pub proof fn lemma_exact_answer(
    devices: Seq<DeviceView>,
    kind: Seq<char>,
    q: Seq<char>,
    id: u64,
) -> (at: Seq<int>)
    requires
        countable(devices),
    ensures
        answered(devices, kind, q) is Some <==> kind == "model"@ || kind == "code"@ || kind
            == "codename"@ || kind == "name"@ || kind == "brand"@,
        answered(devices, kind, q) matches Some(ids) ==> {
            &&& ids.contains(id) <==> exists|i: int|
                0 <= i < devices.len() && asked_for(#[trigger] devices[i], kind, q)
                    && devices[i].id as u64 == id
            &&& kind != "model"@ ==> {
                &&& text::lists(
                    at,
                    devices.len() as int,
                    |i: int| asked_for(devices[i], kind, q),
                )
                &&& at.len() == ids.len()
                &&& forall|k: int| 0 <= k < at.len() ==> ids[k] == devices[#[trigger] at[k]].id
            }
        },
{
    lemma_kinds();
    match query::lookup_of(kind, q) {
        Some(t) => {
            kv::lemma_lookup_finds_the_devices(devices, t.0, t.1, id);
            assert forall|i: int| 0 <= i < devices.len() implies asked_for(
                #[trigger] devices[i],
                kind,
                q,
            ) == kv::found_by(devices[i], t.0, t.1) by {
                lemma_asked_for(devices[i], kind, q);
            }
            let ids = answered(devices, kind, q)->0;
            if ids.contains(id) {
                let i = choose|i: int|
                    0 <= i < devices.len() && kv::found_by(#[trigger] devices[i], t.0, t.1)
                        && devices[i].id as u64 == id;
                assert(asked_for(devices[i], kind, q));
            }
            if exists|i: int|
                0 <= i < devices.len() && asked_for(#[trigger] devices[i], kind, q)
                    && devices[i].id as u64 == id {
                let i = choose|i: int|
                    0 <= i < devices.len() && asked_for(#[trigger] devices[i], kind, q)
                        && devices[i].id as u64 == id;
                assert(kv::found_by(devices[i], t.0, t.1));
            }
            if kind != "model"@ {
                let at = lemma_listed_positions(devices, t.0, t.1);
                let p = |i: int| kv::found_by(devices[i], t.0, t.1);
                let r = |i: int| asked_for(devices[i], kind, q);
                assert forall|k: int| 0 <= k < at.len() implies 0 <= #[trigger] at[k]
                    < devices.len() && r(at[k]) by {
                    assert(p(at[k]));
                    assert(asked_for(devices[at[k]], kind, q));
                }
                assert forall|i: int| 0 <= i < devices.len() && #[trigger] r(i) implies at.contains(
                    i,
                ) by {
                    assert(asked_for(devices[i], kind, q));
                    assert(p(i));
                }
                at
            } else {
                Seq::empty()
            }
        },
        None => Seq::empty(),
    }
}

/// A question for a brand that no device has by that name, in words: the answer has
/// each device once whose lowered brand contains the lowered text, and no other.
pub proof fn lemma_like_brand_in_words(
    devices: Seq<DeviceView>,
    entries: Seq<(Seq<char>, Seq<u8>)>,
    key: Seq<char>,
    strict: bool,
    id: u64,
)
    requires
        countable(devices),
        record::ids_apart(devices),
        is_walk(built(devices), IndexTable::Brand, entries),
    ensures
        ({
            let answer = query::brand_answer(
                answered(devices, "brand"@, key)->0,
                entries,
                key,
                strict,
            );
            let exact = exists|i: int|
                0 <= i < devices.len() && (#[trigger] devices[i]).brand == key;
            &&& answer is Some
            &&& (answer->0).no_duplicates()
            &&& (answer->0).contains(id) <==> exists|i: int|
                0 <= i < devices.len() && (#[trigger] devices[i]).id as u64 == id && (if exact {
                    devices[i].brand == key
                } else {
                    text::has(text::lowered(devices[i].brand), text::lowered(key))
                })
        }),
{
    lemma_kinds();
    lemma_brand_answer(devices, entries, key, strict, id);
    let exact = exists|i: int| 0 <= i < devices.len() && (#[trigger] devices[i]).brand == key;
    if exact {
        let i = choose|i: int| 0 <= i < devices.len() && (#[trigger] devices[i]).brand == key;
        assert(kv::found_by(devices[i], IndexTable::Brand, key));
    }
    assert(exact == known(devices, IndexTable::Brand, key));
    if of_brand(devices, key, id) {
        let i = choose|i: int|
            0 <= i < devices.len() && (#[trigger] devices[i]).brand == key && devices[i].id as u64
                == id;
        assert(devices[i].id as u64 == id);
    }
    if of_like_brand(devices, key, id) {
        let i = choose|i: int|
            0 <= i < devices.len() && query::name_has((#[trigger] devices[i]).brand, key)
                && devices[i].id as u64 == id;
        assert(devices[i].id as u64 == id);
    }
    if exists|i: int|
        0 <= i < devices.len() && (#[trigger] devices[i]).id as u64 == id && (if exact {
            devices[i].brand == key
        } else {
            text::has(text::lowered(devices[i].brand), text::lowered(key))
        }) {
        let i = choose|i: int|
            0 <= i < devices.len() && (#[trigger] devices[i]).id as u64 == id && (if exact {
                devices[i].brand == key
            } else {
                text::has(text::lowered(devices[i].brand), text::lowered(key))
            });
        if exact {
            assert(devices[i].brand == key);
        } else {
            assert(query::name_has(devices[i].brand, key));
        }
    }
}

/// A question for a series of a brand, in words: where some device has just that
/// brand and that series, the answer has all such devices and no other; otherwise it
/// has each device once whose lowered brand contains the one lowered text and whose
/// lowered series, if it has one, the other.
pub proof fn lemma_series_in_words(
    devices: Seq<DeviceView>,
    brand_entries: Seq<(Seq<char>, Seq<u8>)>,
    entries: Seq<(Seq<char>, Seq<u8>)>,
    brand: Seq<char>,
    series: Seq<char>,
    strict: bool,
    id: u64,
)
    requires
        countable(devices),
        record::ids_apart(devices),
        brands_plain(devices),
        !brand.contains('\0'),
        is_walk(built(devices), IndexTable::Brand, brand_entries),
        is_walk(built(devices), IndexTable::Series, entries),
    ensures
        ({
            let exact = kv::stored_ids(
                kv::held(built(devices), IndexTable::Series, kv::series_key_of(brand, series)),
            )->0;
            let answer = query::series_answer(
                exact,
                keys(brand_entries),
                entries,
                brand,
                series,
                strict,
            );
            let known_series = exists|i: int|
                0 <= i < devices.len() && (#[trigger] devices[i]).brand == brand
                    && devices[i].series == series && series.len() > 0;
            &&& answer is Some
            &&& (answer->0).fuzzy == !known_series
            &&& (answer->0).ids.no_duplicates()
            &&& (answer->0).ids.contains(id) <==> exists|i: int|
                0 <= i < devices.len() && (#[trigger] devices[i]).id as u64 == id
                    && devices[i].series.len() > 0 && (if known_series {
                    devices[i].brand == brand && devices[i].series == series
                } else {
                    text::has(text::lowered(devices[i].brand), text::lowered(brand)) && text::has(
                        text::lowered(devices[i].series),
                        text::lowered(series),
                    )
                })
        }),
{
    let table = IndexTable::Series;
    let key = kv::series_key_of(brand, series);
    lemma_series_answer(devices, brand_entries, entries, brand, series, strict, id);
    let exact = kv::listed(devices, table, key);
    let known_series = exists|i: int|
        0 <= i < devices.len() && (#[trigger] devices[i]).brand == brand && devices[i].series
            == series && series.len() > 0;
    assert forall|i: int| 0 <= i < devices.len() implies (kv::found_by(
        #[trigger] devices[i],
        table,
        key,
    ) <==> devices[i].brand == brand && devices[i].series == series && series.len() > 0) by {
        if kv::series_key_of(devices[i].brand, devices[i].series) == key {
            lemma_series_key_apart(devices[i].brand, devices[i].series, brand, series);
        }
    }
    kv::lemma_listed(devices, table, key, id);
    if known_series {
        let i = choose|i: int|
            0 <= i < devices.len() && (#[trigger] devices[i]).brand == brand && devices[i].series
                == series && series.len() > 0;
        kv::lemma_listed(devices, table, key, devices[i].id as u64);
        assert(kv::found_by(devices[i], table, key));
        assert(exact.contains(devices[i].id as u64));
    } else if exact.len() > 0 {
        kv::lemma_listed(devices, table, key, exact[0]);
        assert(exact.contains(exact[0]));
        let i = choose|i: int|
            0 <= i < devices.len() && kv::found_by(#[trigger] devices[i], table, key)
                && devices[i].id as u64 == exact[0];
        assert(devices[i].brand == brand);
    }
    let wanted = |i: int|
        devices[i].series.len() > 0 && (if known_series {
            devices[i].brand == brand && devices[i].series == series
        } else {
            text::has(text::lowered(devices[i].brand), text::lowered(brand)) && text::has(
                text::lowered(devices[i].series),
                text::lowered(series),
            )
        });
    if kv::one_found_by(devices, table, key, id) {
        let i = choose|i: int|
            0 <= i < devices.len() && kv::found_by(#[trigger] devices[i], table, key)
                && devices[i].id as u64 == id;
        assert(devices[i].id as u64 == id && known_series);
    }
    if of_like_series(devices, brand, series, id) && !known_series {
        let i = choose|i: int|
            0 <= i < devices.len() && in_series(#[trigger] devices[i], None, series)
                && query::name_has(devices[i].brand, brand) && devices[i].id as u64 == id;
        assert(devices[i].id as u64 == id);
    }
    if exists|i: int|
        0 <= i < devices.len() && (#[trigger] devices[i]).id as u64 == id && wanted(i) {
        let i = choose|i: int|
            0 <= i < devices.len() && (#[trigger] devices[i]).id as u64 == id && wanted(i);
        if known_series {
            assert(kv::found_by(devices[i], table, key));
        } else {
            assert(in_series(devices[i], None, series));
        }
    }
}

proof fn lemma_series_key_apart(a: Seq<char>, s: Seq<char>, b: Seq<char>, t: Seq<char>)
    requires
        !a.contains('\0'),
        !b.contains('\0'),
        kv::series_key_of(a, s) == kv::series_key_of(b, t),
    ensures
        a == b,
        s == t,
{
    let x = kv::series_key_of(a, s);
    let y = kv::series_key_of(b, t);
    assert(x[a.len() as int] == '\0');
    assert(y[b.len() as int] == '\0');
    if a.len() < b.len() {
        assert(b[a.len() as int] == y[a.len() as int]);
    }
    if b.len() < a.len() {
        assert(a[b.len() as int] == x[b.len() as int]);
    }
    assert(a =~= x.take(a.len() as int));
    assert(b =~= y.take(b.len() as int));
    assert(s =~= x.skip(a.len() as int + 1));
    assert(t =~= y.skip(b.len() as int + 1));
}

/// The series that contain a text, in words: the answer has each device once that
/// has a series whose lowered form contains the lowered text, and the brand where
/// one is given.
pub proof fn lemma_series_contains_in_words(
    devices: Seq<DeviceView>,
    entries: Seq<(Seq<char>, Seq<u8>)>,
    brand: Option<Seq<char>>,
    sub: Seq<char>,
    id: u64,
)
    requires
        countable(devices),
        record::ids_apart(devices),
        brands_plain(devices),
        is_walk(built(devices), IndexTable::Series, entries),
    ensures
        ({
            let found = query::series_ids(entries, brand, sub);
            &&& found is Some
            &&& (found->0).no_duplicates()
            &&& (found->0).contains(id) <==> exists|i: int|
                0 <= i < devices.len() && (#[trigger] devices[i]).id as u64 == id
                    && devices[i].series.len() > 0 && text::has(
                    text::lowered(devices[i].series),
                    text::lowered(sub),
                ) && (brand is Some ==> devices[i].brand == brand->0)
        }),
{
    lemma_series_found(devices, entries, brand, sub, id);
    if of_series(devices, brand, sub, id) {
        let i = choose|i: int|
            0 <= i < devices.len() && in_series(#[trigger] devices[i], brand, sub)
                && devices[i].id as u64 == id;
        assert(devices[i].id as u64 == id);
    }
    if exists|i: int|
        0 <= i < devices.len() && (#[trigger] devices[i]).id as u64 == id
            && devices[i].series.len() > 0 && text::has(
            text::lowered(devices[i].series),
            text::lowered(sub),
        ) && (brand is Some ==> devices[i].brand == brand->0) {
        let i = choose|i: int|
            0 <= i < devices.len() && (#[trigger] devices[i]).id as u64 == id
                && devices[i].series.len() > 0 && text::has(
                text::lowered(devices[i].series),
                text::lowered(sub),
            ) && (brand is Some ==> devices[i].brand == brand->0);
        assert(in_series(devices[i], brand, sub));
    }
}

} // verus!
