//! The index of the device store: which keys a device is found by, and the lists
//! of device ids that the tables hold.

use crate::model;
use crate::model::Device;
use crate::text;
use vstd::bytes;
use vstd::prelude::*;

verus! {

broadcast use vstd::string::group_string_axioms;

// ---------------------------------------------------------------------------
// Keys
// ---------------------------------------------------------------------------

/// ASCII-lowercase key normalization (model ids / codenames / names are
/// case-insensitive in practice: A1332 == a1332, X1 == x1).
pub fn norm(s: &str) -> (r: String)
    ensures
        r@ == text::ascii_lowered(s@),
{
    text::lower_ascii(s)
}

/// A key that was normalized once is not changed by normalizing it again.
pub proof fn lemma_norm_idempotent(s: Seq<char>)
    ensures
        text::ascii_lowered(text::ascii_lowered(s)) == text::ascii_lowered(s),
{
    text::lemma_lowered_idempotent(s);
}

/// The tables in which devices are found.
#[derive(Debug, Clone, Copy, PartialEq, Eq, Structural)]
pub enum IndexTable {
    ModelId,
    Name,
    Code,
    Codename,
    Brand,
    Series,
}

impl IndexTable {
    /// The name of the table in the store.
    pub open spec fn title(self) -> Seq<char> {
        match self {
            IndexTable::ModelId => "by_model_id"@,
            IndexTable::Name => "by_name"@,
            IndexTable::Code => "by_code"@,
            IndexTable::Codename => "by_codename"@,
            IndexTable::Brand => "by_brand"@,
            IndexTable::Series => "by_series"@,
        }
    }

    /// The name of the table in the store.
    pub fn name(&self) -> (r: &'static str)
        ensures
            r@ == self.title(),
    {
        match self {
            IndexTable::ModelId => "by_model_id",
            IndexTable::Name => "by_name",
            IndexTable::Code => "by_code",
            IndexTable::Codename => "by_codename",
            IndexTable::Brand => "by_brand",
            IndexTable::Series => "by_series",
        }
    }
}

/// The key of a series: the brand and the series, parted by a zero character.
pub open spec fn series_key_of(brand: Seq<char>, series: Seq<char>) -> Seq<char> {
    brand + seq!['\0'] + series
}

/// The key of a series.
pub fn series_key(brand: &str, series: &str) -> (r: String)
    ensures
        r@ == series_key_of(brand@, series@),
{
    let mut out: Vec<char> = text::chars_of(brand);
    out.push('\0');
    text::append_str(&mut out, series);
    assert(out@ =~= series_key_of(brand@, series@));
    text::string_of(out.as_slice())
}

// ---------------------------------------------------------------------------
// Lists of ids
// ---------------------------------------------------------------------------

/// What is wrong with the bytes of a list.
#[verifier::external_type_specification]
#[verifier::external_body]
pub struct ExErrorKind(bincode::ErrorKind);

/// The bytes of a list of ids: its length and each id, in eight bytes each with
/// the lowest first.
pub open spec fn ids_bytes(ids: Seq<u64>) -> Seq<u8> {
    Seq::new(
        8 + 8 * ids.len(),
        |i: int|
            if i < 8 {
                bytes::spec_u64_to_le_bytes(ids.len() as u64)[i]
            } else {
                bytes::spec_u64_to_le_bytes(ids[(i - 8) / 8])[(i - 8) % 8]
            },
    )
}

/// The length that the bytes of a list begin with.
pub open spec fn ids_len(b: Seq<u8>) -> nat {
    bytes::spec_u64_from_le_bytes(b.take(8)) as nat
}

/// The list that bytes begin with; None where they end too early.
pub open spec fn ids_read(b: Seq<u8>) -> Option<Seq<u64>> {
    if b.len() < 8 || 8 + 8 * ids_len(b) > b.len() {
        None
    } else {
        Some(
            Seq::new(
                ids_len(b),
                |i: int| bytes::spec_u64_from_le_bytes(b.subrange(8 + 8 * i, 16 + 8 * i)),
            ),
        )
    }
}

/// The list that a table holds under a key: the empty one where it has nothing
/// there.
pub open spec fn stored_ids(stored: Option<Seq<u8>>) -> Option<Seq<u64>> {
    match stored {
        Some(b) => ids_read(b),
        None => Some(Seq::empty()),
    }
}

/// The bytes of a list read back as the list.
pub proof fn lemma_ids_read_back(ids: Seq<u64>)
    requires
        ids.len() <= u64::MAX,
    ensures
        ids_read(ids_bytes(ids)) == Some(ids),
{
    let b = ids_bytes(ids);
    bytes::lemma_auto_spec_u64_to_from_le_bytes();
    assert(b.take(8) =~= bytes::spec_u64_to_le_bytes(ids.len() as u64));
    assert(ids_len(b) == ids.len());
    let back = ids_read(b)->0;
    assert forall|i: int| 0 <= i < ids.len() implies back[i] == ids[i] by {
        assert(b.subrange(8 + 8 * i, 16 + 8 * i) =~= bytes::spec_u64_to_le_bytes(ids[i])) by {
            assert forall|j: int| 0 <= j < 8 implies b.subrange(8 + 8 * i, 16 + 8 * i)[j]
                == bytes::spec_u64_to_le_bytes(ids[i])[j] by {
                assert((8 + 8 * i + j - 8) / 8 == i);
                assert((8 + 8 * i + j - 8) % 8 == j);
            }
        }
    }
    assert(back =~= ids);
}

/// Writes a list with `bincode::serialize`: the length and the ids as integers of
/// eight bytes, the lowest byte first. It has no limit on the size and does not
/// fail.
#[verifier::external_body]
fn encode_ids(ids: &Vec<u64>) -> (r: Result<Vec<u8>, Box<bincode::ErrorKind>>)
    ensures
        r is Ok,
        r->Ok_0@ == ids_bytes(ids@),
{
    bincode::serialize(ids)
}

/// Reads a list with `bincode::deserialize`: the length and so many ids. Bytes
/// behind them are passed over; it fails where the bytes end too early.
#[verifier::external_body]
fn decode_ids(b: &[u8]) -> (r: Result<Vec<u64>, Box<bincode::ErrorKind>>)
    ensures
        match r {
            Ok(ids) => ids_read(b@) == Some(ids@),
            Err(_) => ids_read(b@) is None,
        },
{
    bincode::deserialize(b)
}

/// Bytes of the store that are no list, with the reader's reason.
pub struct Damaged {
    pub cause: Box<bincode::ErrorKind>,
}

/// The contents of an optional slice of bytes.
pub open spec fn opt_bytes(b: Option<&[u8]>) -> Option<Seq<u8>> {
    match b {
        Some(s) => Some(s@),
        None => None,
    }
}

/// The list that a table holds under a key.
pub fn ids_for(stored: Option<&[u8]>) -> (r: Result<Vec<u64>, Damaged>)
    ensures
        match r {
            Ok(ids) => stored_ids(opt_bytes(stored)) == Some(ids@),
            Err(_) => stored_ids(opt_bytes(stored)) is None,
        },
{
    match stored {
        Some(b) => match decode_ids(b) {
            Ok(ids) => Ok(ids),
            Err(cause) => Err(Damaged { cause }),
        },
        None => {
            let none: Vec<u64> = Vec::new();
            assert(none@ =~= Seq::<u64>::empty());
            Ok(none)
        },
    }
}

/// What a table is to hold under a key where an id is added at the end of the
/// list there.
pub fn append_id(stored: Option<&[u8]>, id: u32) -> (r: Result<Vec<u8>, Damaged>)
    ensures
        match r {
            Ok(b) => stored_ids(opt_bytes(stored)) is Some && b@ == ids_bytes(
                (stored_ids(opt_bytes(stored))->0).push(id as u64),
            ),
            Err(_) => stored_ids(opt_bytes(stored)) is None,
        },
{
    let mut list: Vec<u64> = match ids_for(stored) {
        Ok(ids) => ids,
        Err(e) => {
            return Err(e);
        },
    };
    list.push(id as u64);
    match encode_ids(&list) {
        Ok(b) => Ok(b),
        Err(cause) => Err(Damaged { cause }),
    }
}

// ---------------------------------------------------------------------------
// Postings
// ---------------------------------------------------------------------------

/// An id that is to be added to the list of a table under a key.
pub struct Posting {
    pub table: IndexTable,
    pub key: String,
    pub id: u32,
}

/// The contents of a posting.
pub struct PostingView {
    pub table: IndexTable,
    pub key: Seq<char>,
    pub id: u32,
}

impl View for Posting {
    type V = PostingView;

    open spec fn view(&self) -> PostingView {
        PostingView { table: self.table, key: self.key@, id: self.id }
    }
}

/// The contents of a list of postings.
pub open spec fn postings_view(v: Seq<Posting>) -> Seq<PostingView> {
    Seq::new(v.len(), |i: int| v[i]@)
}

/// One posting where there is a key.
pub open spec fn posting_if(given: bool, table: IndexTable, key: Seq<char>, id: u32) -> Seq<
    PostingView,
> {
    if given {
        seq![PostingView { table, key, id }]
    } else {
        Seq::empty()
    }
}

/// The postings of keys to a table.
pub open spec fn key_postings(table: IndexTable, keys: Seq<Seq<char>>, id: u32) -> Seq<
    PostingView,
> {
    Seq::new(keys.len(), |i: int| PostingView { table, key: keys[i], id })
}

/// The keys of the model ids of a row.
pub open spec fn row_keys(ids: Seq<Seq<char>>) -> Seq<Seq<char>> {
    Seq::new(ids.len(), |i: int| text::ascii_lowered(ids[i]))
}

/// The postings of model rows.
pub open spec fn model_postings(models: Seq<model::ModelView>, id: u32) -> Seq<PostingView>
    decreases models.len(),
{
    if models.len() == 0 {
        Seq::empty()
    } else {
        model_postings(models.drop_last(), id) + key_postings(
            IndexTable::ModelId,
            row_keys(models.last().ids),
            id,
        )
    }
}

/// The keys of the names of a device: its own name, and the market names of its
/// model rows that are not empty, each key once.
pub open spec fn name_keys(name: Seq<char>, models: Seq<model::ModelView>) -> Seq<Seq<char>>
    decreases models.len(),
{
    if models.len() == 0 {
        seq![text::ascii_lowered(name)]
    } else {
        let before = name_keys(name, models.drop_last());
        let key = text::ascii_lowered(models.last().market_name);
        if key.len() > 0 && !before.contains(key) {
            before.push(key)
        } else {
            before
        }
    }
}

/// The postings of a device: its name and the market names of its model rows, its
/// code, codename and series where it has them, its brand, and each of its model
/// ids. All but brands and series are normalized.
pub open spec fn device_postings(d: model::DeviceView) -> Seq<PostingView> {
    key_postings(IndexTable::Name, name_keys(d.name, d.models), d.id) + posting_if(
        d.code.len() > 0,
        IndexTable::Code,
        text::ascii_lowered(d.code),
        d.id,
    ) + posting_if(
        d.codename.len() > 0,
        IndexTable::Codename,
        text::ascii_lowered(d.codename),
        d.id,
    ) + posting_if(true, IndexTable::Brand, d.brand, d.id) + posting_if(
        d.series.len() > 0,
        IndexTable::Series,
        series_key_of(d.brand, d.series),
        d.id,
    ) + model_postings(d.models, d.id)
}

/// The postings of devices.
pub open spec fn all_postings(devices: Seq<model::DeviceView>) -> Seq<PostingView>
    decreases devices.len(),
{
    if devices.len() == 0 {
        Seq::empty()
    } else {
        all_postings(devices.drop_last()) + device_postings(devices.last())
    }
}

/// Adds a posting.
fn post(out: &mut Vec<Posting>, table: IndexTable, key: String, id: u32)
    ensures
        postings_view(final(out)@) == postings_view(old(out)@).push(
            PostingView { table, key: key@, id },
        ),
{
    let ghost before = postings_view(out@);
    out.push(Posting { table, key, id });
    assert(postings_view(out@) =~= before.push(PostingView { table, key: key@, id }));
}

/// Adds the postings of the model ids of a row.
fn post_row(out: &mut Vec<Posting>, ids: &Vec<String>, id: u32)
    ensures
        postings_view(final(out)@) == postings_view(old(out)@) + key_postings(
            IndexTable::ModelId,
            row_keys(text::strs(ids@)),
            id,
        ),
{
    let ghost start = postings_view(out@);
    let ghost all = key_postings(IndexTable::ModelId, row_keys(text::strs(ids@)), id);
    assert(start + all.take(0) =~= start);
    for i in 0..ids.len()
        invariant
            all == key_postings(IndexTable::ModelId, row_keys(text::strs(ids@)), id),
            postings_view(out@) == start + all.take(i as int),
    {
        post(out, IndexTable::ModelId, norm(ids[i].as_str()), id);
        assert(start + all.take(i + 1) =~= (start + all.take(i as int)).push(all[i as int]));
    }
    assert(all.take(ids@.len() as int) =~= all);
}

/// The keys of the names of a device.
fn read_name_keys(d: &Device) -> (r: Vec<String>)
    ensures
        text::strs(r@) == name_keys(d@.name, d@.models),
{
    let ghost rows = d@.models;
    let mut out: Vec<String> = Vec::new();
    out.push(norm(d.name.as_str()));
    assert(text::strs(out@) =~= name_keys(d@.name, rows.take(0)));
    for i in 0..d.models.len()
        invariant
            rows == model::models_view(d.models@),
            text::strs(out@) == name_keys(d@.name, rows.take(i as int)),
    {
        proof {
            assert(rows.take(i + 1).drop_last() =~= rows.take(i as int));
            assert(rows.take(i + 1).last() == d.models@[i as int]@);
        }
        let key = norm(d.models[i].market_name.as_str());
        if !key.as_str().is_empty() && !text::has_text(&out, &key) {
            let ghost before = text::strs(out@);
            out.push(key);
            assert(text::strs(out@) =~= before.push(key@));
        }
    }
    assert(rows.take(d.models@.len() as int) =~= rows);
    out
}

/// Adds the postings of the names of a device.
fn post_names(out: &mut Vec<Posting>, d: &Device)
    ensures
        postings_view(final(out)@) == postings_view(old(out)@) + key_postings(
            IndexTable::Name,
            name_keys(d@.name, d@.models),
            d.id,
        ),
{
    let keys = read_name_keys(d);
    let ghost start = postings_view(out@);
    let ghost all = key_postings(IndexTable::Name, text::strs(keys@), d.id);
    assert(start + all.take(0) =~= start);
    for i in 0..keys.len()
        invariant
            all == key_postings(IndexTable::Name, text::strs(keys@), d.id),
            postings_view(out@) == start + all.take(i as int),
    {
        post(out, IndexTable::Name, keys[i].clone(), d.id);
        assert(start + all.take(i + 1) =~= (start + all.take(i as int)).push(all[i as int]));
    }
    assert(all.take(keys@.len() as int) =~= all);
}

/// The postings of a device, in the order in which they are written.
pub fn postings(d: &Device) -> (r: Vec<Posting>)
    ensures
        postings_view(r@) == device_postings(d@),
{
    let mut out: Vec<Posting> = Vec::new();
    assert(postings_view(out@) =~= Seq::<PostingView>::empty());
    post_names(&mut out, d);
    if !d.code.as_str().is_empty() {
        post(&mut out, IndexTable::Code, norm(d.code.as_str()), d.id);
    }
    if !d.codename.as_str().is_empty() {
        post(&mut out, IndexTable::Codename, norm(d.codename.as_str()), d.id);
    }
    post(&mut out, IndexTable::Brand, d.brand.clone(), d.id);
    if !d.series.as_str().is_empty() {
        post(&mut out, IndexTable::Series, series_key(d.brand.as_str(), d.series.as_str()), d.id);
    }
    let ghost head = postings_view(out@);
    let ghost rows = d@.models;
    proof {
        assert(head =~= key_postings(IndexTable::Name, name_keys(d@.name, d@.models), d.id)
            + posting_if(
            d@.code.len() > 0,
            IndexTable::Code,
            text::ascii_lowered(d@.code),
            d.id,
        ) + posting_if(
            d@.codename.len() > 0,
            IndexTable::Codename,
            text::ascii_lowered(d@.codename),
            d.id,
        ) + posting_if(true, IndexTable::Brand, d@.brand, d.id) + posting_if(
            d@.series.len() > 0,
            IndexTable::Series,
            series_key_of(d@.brand, d@.series),
            d.id,
        ));
        assert(head + model_postings(rows.take(0), d.id) =~= head);
    }
    for i in 0..d.models.len()
        invariant
            rows == model::models_view(d.models@),
            postings_view(out@) == head + model_postings(rows.take(i as int), d.id),
    {
        let ghost before = model_postings(rows.take(i as int), d.id);
        post_row(&mut out, &d.models[i].ids, d.id);
        proof {
            assert(rows.take(i + 1).drop_last() =~= rows.take(i as int));
            assert(rows.take(i + 1).last() == d.models@[i as int]@);
            let more = key_postings(
                IndexTable::ModelId,
                row_keys(text::strs(d.models@[i as int].ids@)),
                d.id,
            );
            assert((head + before) + more =~= head + (before + more));
        }
    }
    assert(rows.take(d.models@.len() as int) =~= rows);
    out
}

// ---------------------------------------------------------------------------
// What a lookup finds
// ---------------------------------------------------------------------------

/// The ids of the postings to a table and a key, in order.
pub open spec fn posted_ids(p: Seq<PostingView>, table: IndexTable, key: Seq<char>) -> Seq<u64>
    decreases p.len(),
{
    if p.len() == 0 {
        Seq::empty()
    } else {
        let before = posted_ids(p.drop_last(), table, key);
        if p.last().table == table && p.last().key == key {
            before.push(p.last().id as u64)
        } else {
            before
        }
    }
}

/// What a store holds in a table under a key.
pub open spec fn held(
    store: Map<(IndexTable, Seq<char>), Seq<u8>>,
    table: IndexTable,
    key: Seq<char>,
) -> Option<Seq<u8>> {
    if store.contains_key((table, key)) {
        Some(store[(table, key)])
    } else {
        None
    }
}

/// The store, empty at first, after postings. Each of them replaces what is held
/// under its key by the list with its id at the end, as `append_id` gives it.
pub open spec fn stored_after(p: Seq<PostingView>) -> Map<(IndexTable, Seq<char>), Seq<u8>>
    decreases p.len(),
{
    if p.len() == 0 {
        Map::empty()
    } else {
        let store = stored_after(p.drop_last());
        let q = p.last();
        match stored_ids(held(store, q.table, q.key)) {
            Some(ids) => store.insert((q.table, q.key), ids_bytes(ids.push(q.id as u64))),
            None => store,
        }
    }
}

/// A lookup in the store gives exactly the ids that were posted under the key, in
/// the order in which they were posted.
pub proof fn lemma_lookup_gives_what_was_posted(
    p: Seq<PostingView>,
    table: IndexTable,
    key: Seq<char>,
)
    requires
        p.len() <= u64::MAX,
    ensures
        stored_ids(held(stored_after(p), table, key)) == Some(posted_ids(p, table, key)),
        posted_ids(p, table, key).len() <= p.len(),
    decreases p.len(),
{
    if p.len() > 0 {
        let q = p.last();
        lemma_lookup_gives_what_was_posted(p.drop_last(), table, key);
        lemma_lookup_gives_what_was_posted(p.drop_last(), q.table, q.key);
        lemma_ids_read_back(posted_ids(p.drop_last(), q.table, q.key).push(q.id as u64));
    }
}

/// A device is found in a table by a key.
pub open spec fn found_by(d: model::DeviceView, table: IndexTable, key: Seq<char>) -> bool {
    match table {
        IndexTable::ModelId => has_model(d.models, key),
        IndexTable::Name => text::ascii_lowered(d.name) == key || has_market_name(d.models, key),
        IndexTable::Code => d.code.len() > 0 && text::ascii_lowered(d.code) == key,
        IndexTable::Codename => d.codename.len() > 0 && text::ascii_lowered(d.codename) == key,
        IndexTable::Brand => d.brand == key,
        IndexTable::Series => d.series.len() > 0 && series_key_of(d.brand, d.series) == key,
    }
}

/// One of the rows has a model id with the key.
pub open spec fn has_model(models: Seq<model::ModelView>, key: Seq<char>) -> bool {
    exists|i: int| 0 <= i < models.len() && row_has_model(#[trigger] models[i], key)
}

/// The row has a model id with the key.
pub open spec fn row_has_model(m: model::ModelView, key: Seq<char>) -> bool {
    exists|j: int| 0 <= j < m.ids.len() && text::ascii_lowered(#[trigger] m.ids[j]) == key
}

/// One of the rows has a market name with the key, which is not empty.
pub open spec fn has_market_name(models: Seq<model::ModelView>, key: Seq<char>) -> bool {
    key.len() > 0 && exists|i: int|
        0 <= i < models.len() && text::ascii_lowered((#[trigger] models[i]).market_name) == key
}

/// How often a key is among keys.
pub open spec fn occurrences(keys: Seq<Seq<char>>, key: Seq<char>) -> nat
    decreases keys.len(),
{
    if keys.len() == 0 {
        0
    } else {
        occurrences(keys.drop_last(), key) + if keys.last() == key {
            1nat
        } else {
            0nat
        }
    }
}

/// How many model ids of the rows have the key.
pub open spec fn model_times(models: Seq<model::ModelView>, key: Seq<char>) -> nat
    decreases models.len(),
{
    if models.len() == 0 {
        0
    } else {
        model_times(models.drop_last(), key) + occurrences(row_keys(models.last().ids), key)
    }
}

/// How often a device is listed under a key: once for each model id that has it,
/// in the other tables once where it is found by the key.
pub open spec fn times(d: model::DeviceView, table: IndexTable, key: Seq<char>) -> nat {
    if table == IndexTable::ModelId {
        model_times(d.models, key)
    } else if found_by(d, table, key) {
        1
    } else {
        0
    }
}

/// An id so many times.
pub open spec fn repeated(id: u32, n: nat) -> Seq<u64> {
    Seq::new(n, |i: int| id as u64)
}

/// The ids of devices under a key: device by device, each as often as it is
/// listed.
pub open spec fn listed(
    devices: Seq<model::DeviceView>,
    table: IndexTable,
    key: Seq<char>,
) -> Seq<u64>
    decreases devices.len(),
{
    if devices.len() == 0 {
        Seq::empty()
    } else {
        listed(devices.drop_last(), table, key) + repeated(
            devices.last().id,
            times(devices.last(), table, key),
        )
    }
}

proof fn lemma_posted_concat(
    a: Seq<PostingView>,
    b: Seq<PostingView>,
    table: IndexTable,
    key: Seq<char>,
)
    ensures
        posted_ids(a + b, table, key) == posted_ids(a, table, key) + posted_ids(b, table, key),
    decreases b.len(),
{
    if b.len() == 0 {
        assert(a + b =~= a);
        assert(posted_ids(a, table, key) + posted_ids(b, table, key) =~= posted_ids(a, table, key));
    } else {
        lemma_posted_concat(a, b.drop_last(), table, key);
        assert((a + b).drop_last() =~= a + b.drop_last());
        assert(posted_ids(a + b, table, key) =~= posted_ids(a, table, key) + posted_ids(
            b,
            table,
            key,
        ));
    }
}

proof fn lemma_posting_if(
    given: bool,
    t: IndexTable,
    k: Seq<char>,
    id: u32,
    table: IndexTable,
    key: Seq<char>,
)
    ensures
        posted_ids(posting_if(given, t, k, id), table, key) == repeated(
            id,
            if given && t == table && k == key {
                1
            } else {
                0
            },
        ),
{
    let p = posting_if(given, t, k, id);
    if given {
        assert(p.last() == PostingView { table: t, key: k, id });
        assert(p.drop_last() =~= Seq::<PostingView>::empty());
        assert(posted_ids(p.drop_last(), table, key) =~= Seq::<u64>::empty());
    }
    assert(posted_ids(p, table, key) =~= repeated(
        id,
        if given && t == table && k == key {
            1
        } else {
            0
        },
    ));
}

proof fn lemma_keys_posted(
    t: IndexTable,
    keys: Seq<Seq<char>>,
    id: u32,
    table: IndexTable,
    key: Seq<char>,
)
    ensures
        posted_ids(key_postings(t, keys, id), table, key) == repeated(
            id,
            if t == table {
                occurrences(keys, key)
            } else {
                0
            },
        ),
    decreases keys.len(),
{
    let p = key_postings(t, keys, id);
    let n = if t == table {
        occurrences(keys, key)
    } else {
        0
    };
    if keys.len() > 0 {
        lemma_keys_posted(t, keys.drop_last(), id, table, key);
        assert(p.drop_last() =~= key_postings(t, keys.drop_last(), id));
    }
    assert(posted_ids(p, table, key) =~= repeated(id, n));
}

proof fn lemma_models_posted(
    models: Seq<model::ModelView>,
    id: u32,
    table: IndexTable,
    key: Seq<char>,
)
    ensures
        posted_ids(model_postings(models, id), table, key) == repeated(
            id,
            if table == IndexTable::ModelId {
                model_times(models, key)
            } else {
                0
            },
        ),
    decreases models.len(),
{
    let n = if table == IndexTable::ModelId {
        model_times(models, key)
    } else {
        0
    };
    if models.len() > 0 {
        let init = model_postings(models.drop_last(), id);
        let keys = row_keys(models.last().ids);
        let last = key_postings(IndexTable::ModelId, keys, id);
        lemma_models_posted(models.drop_last(), id, table, key);
        lemma_keys_posted(IndexTable::ModelId, keys, id, table, key);
        lemma_posted_concat(init, last, table, key);
        assert(posted_ids(init, table, key) + posted_ids(last, table, key) =~= repeated(id, n));
    } else {
        assert(posted_ids(model_postings(models, id), table, key) =~= repeated(id, n));
    }
}

/// A key occurs among keys exactly where they have it, and once where none of
/// them is repeated.
proof fn lemma_occurrences(keys: Seq<Seq<char>>, key: Seq<char>)
    ensures
        occurrences(keys, key) > 0 <==> keys.contains(key),
        keys.no_duplicates() ==> occurrences(keys, key) <= 1,
    decreases keys.len(),
{
    if keys.len() > 0 {
        let init = keys.drop_last();
        lemma_occurrences(init, key);
        assert(keys.last() == keys[keys.len() - 1]);
        if init.contains(key) {
            let i = choose|i: int| 0 <= i < init.len() && init[i] == key;
            assert(keys[i] == key);
        }
        if keys.contains(key) && keys.last() != key {
            let i = choose|i: int| 0 <= i < keys.len() && keys[i] == key;
            assert(init[i] == key);
        }
        if keys.no_duplicates() {
            assert(init.no_duplicates());
        }
    }
}

/// The keys of the names of a device are those of its own name and of the market
/// names of its rows, each once.
proof fn lemma_name_keys(name: Seq<char>, models: Seq<model::ModelView>, key: Seq<char>)
    ensures
        name_keys(name, models).no_duplicates(),
        name_keys(name, models).contains(key) <==> text::ascii_lowered(name) == key
            || has_market_name(models, key),
    decreases models.len(),
{
    let keys = name_keys(name, models);
    if models.len() == 0 {
        assert(keys[0] == text::ascii_lowered(name));
    } else {
        let init = models.drop_last();
        let before = name_keys(name, init);
        let last = text::ascii_lowered(models.last().market_name);
        lemma_name_keys(name, init, key);
        lemma_name_keys(name, init, last);
        assert(models[models.len() - 1] == models.last());
        if has_market_name(init, key) {
            let i = choose|i: int|
                0 <= i < init.len() && text::ascii_lowered((#[trigger] init[i]).market_name) == key;
            assert(models[i] == init[i]);
        }
        if has_market_name(models, key) && last != key {
            let i = choose|i: int|
                0 <= i < models.len() && text::ascii_lowered((#[trigger] models[i]).market_name)
                    == key;
            assert(init[i] == models[i]);
        }
        if last.len() > 0 && !before.contains(last) {
            assert(keys[before.len() as int] == last);
            if before.contains(key) {
                let i = choose|i: int| 0 <= i < before.len() && before[i] == key;
                assert(keys[i] == key);
            }
            if keys.contains(key) && key != last {
                let i = choose|i: int| 0 <= i < keys.len() && keys[i] == key;
                assert(before[i] == key);
            }
        }
    }
}

/// What a device posts to a key: its id as often as it is listed there.
proof fn lemma_device_posted(d: model::DeviceView, table: IndexTable, key: Seq<char>)
    ensures
        posted_ids(device_postings(d), table, key) == repeated(d.id, times(d, table, key)),
{
    let names = name_keys(d.name, d.models);
    let low_code = text::ascii_lowered(d.code);
    let low_codename = text::ascii_lowered(d.codename);
    let series = series_key_of(d.brand, d.series);
    let a = key_postings(IndexTable::Name, names, d.id);
    let b = posting_if(d.code.len() > 0, IndexTable::Code, low_code, d.id);
    let c = posting_if(d.codename.len() > 0, IndexTable::Codename, low_codename, d.id);
    let e = posting_if(true, IndexTable::Brand, d.brand, d.id);
    let f = posting_if(d.series.len() > 0, IndexTable::Series, series, d.id);
    let g = model_postings(d.models, d.id);
    lemma_name_keys(d.name, d.models, key);
    lemma_occurrences(names, key);
    lemma_keys_posted(IndexTable::Name, names, d.id, table, key);
    lemma_posting_if(d.code.len() > 0, IndexTable::Code, low_code, d.id, table, key);
    lemma_posting_if(d.codename.len() > 0, IndexTable::Codename, low_codename, d.id, table, key);
    lemma_posting_if(true, IndexTable::Brand, d.brand, d.id, table, key);
    lemma_posting_if(d.series.len() > 0, IndexTable::Series, series, d.id, table, key);
    lemma_models_posted(d.models, d.id, table, key);
    lemma_posted_concat(a, b, table, key);
    lemma_posted_concat(a + b, c, table, key);
    lemma_posted_concat(a + b + c, e, table, key);
    lemma_posted_concat(a + b + c + e, f, table, key);
    lemma_posted_concat(a + b + c + e + f, g, table, key);
    assert(posted_ids(device_postings(d), table, key) =~= repeated(d.id, times(d, table, key)));
}

/// What devices post to a key: the ids of those that are found by it, device by
/// device.
pub proof fn lemma_posted_is_listed(
    devices: Seq<model::DeviceView>,
    table: IndexTable,
    key: Seq<char>,
)
    ensures
        posted_ids(all_postings(devices), table, key) == listed(devices, table, key),
    decreases devices.len(),
{
    if devices.len() > 0 {
        let init = devices.drop_last();
        lemma_posted_is_listed(init, table, key);
        lemma_device_posted(devices.last(), table, key);
        lemma_posted_concat(all_postings(init), device_postings(devices.last()), table, key);
    }
}

proof fn lemma_model_times(models: Seq<model::ModelView>, key: Seq<char>)
    ensures
        model_times(models, key) > 0 <==> has_model(models, key),
    decreases models.len(),
{
    if models.len() > 0 {
        let init = models.drop_last();
        let m = models.last();
        let keys = row_keys(m.ids);
        lemma_model_times(init, key);
        lemma_occurrences(keys, key);
        assert(models[models.len() - 1] == m);
        if keys.contains(key) {
            let j = choose|j: int| 0 <= j < keys.len() && keys[j] == key;
            assert(text::ascii_lowered(m.ids[j]) == key);
            assert(row_has_model(models[models.len() - 1], key));
        }
        if row_has_model(m, key) {
            let j = choose|j: int|
                0 <= j < m.ids.len() && text::ascii_lowered(#[trigger] m.ids[j]) == key;
            assert(keys[j] == key);
        }
        if has_model(init, key) {
            let i = choose|i: int| 0 <= i < init.len() && row_has_model(#[trigger] init[i], key);
            assert(row_has_model(models[i], key));
        }
        if has_model(models, key) && !row_has_model(m, key) {
            let i = choose|i: int|
                0 <= i < models.len() && row_has_model(#[trigger] models[i], key);
            assert(row_has_model(init[i], key));
        }
    }
}

/// A device is listed under a key exactly where it is found by it.
pub proof fn lemma_times(d: model::DeviceView, table: IndexTable, key: Seq<char>)
    ensures
        times(d, table, key) > 0 <==> found_by(d, table, key),
        table != IndexTable::ModelId ==> times(d, table, key) <= 1,
{
    lemma_model_times(d.models, key);
}

/// One of the devices has the id and is found in the table by the key.
pub open spec fn one_found_by(
    devices: Seq<model::DeviceView>,
    table: IndexTable,
    key: Seq<char>,
    id: u64,
) -> bool {
    exists|i: int|
        0 <= i < devices.len() && found_by(#[trigger] devices[i], table, key) && devices[i].id as u64
            == id
}

/// An id is listed under a key exactly where one of the devices with that id is
/// found by it.
pub proof fn lemma_listed(
    devices: Seq<model::DeviceView>,
    table: IndexTable,
    key: Seq<char>,
    id: u64,
)
    ensures
        listed(devices, table, key).contains(id) <==> one_found_by(devices, table, key, id),
    decreases devices.len(),
{
    if devices.len() > 0 {
        let init = devices.drop_last();
        let d = devices.last();
        let before = listed(init, table, key);
        let more = repeated(d.id, times(d, table, key));
        let all = listed(devices, table, key);
        lemma_listed(init, table, key, id);
        lemma_times(d, table, key);
        assert(devices[devices.len() - 1] == d);
        if before.contains(id) {
            let i = choose|i: int| 0 <= i < before.len() && before[i] == id;
            assert(all[i] == id);
            let j = choose|j: int|
                0 <= j < init.len() && found_by(#[trigger] init[j], table, key) && init[j].id as u64
                    == id;
            assert(found_by(devices[j], table, key));
        }
        if found_by(d, table, key) && d.id as u64 == id {
            assert(all[before.len() as int] == more[0]);
            assert(found_by(devices[devices.len() - 1], table, key));
        }
        if all.contains(id) && !before.contains(id) {
            let i = choose|i: int| 0 <= i < all.len() && all[i] == id;
            if i < before.len() {
                assert(before[i] == id);
            }
            assert(more[i - before.len()] == id);
        }
        if one_found_by(devices, table, key, id) && !(found_by(d, table, key) && d.id as u64 == id) {
            let j = choose|j: int|
                0 <= j < devices.len() && found_by(#[trigger] devices[j], table, key)
                    && devices[j].id as u64 == id;
            assert(found_by(init[j], table, key));
        }
    }
}

/// What is read of a store that was built from devices: a lookup of a key in a
/// table gives the ids of the devices that are found by the key, in the order of
/// the devices, once for each model id that has the key and in the other tables
/// once for each device. An id is in the list exactly where one of the devices
/// with that id is found by the key.
pub proof fn lemma_lookup_finds_the_devices(
    devices: Seq<model::DeviceView>,
    table: IndexTable,
    key: Seq<char>,
    id: u64,
)
    requires
        all_postings(devices).len() <= u64::MAX,
    ensures
        stored_ids(held(stored_after(all_postings(devices)), table, key)) == Some(
            listed(devices, table, key),
        ),
        listed(devices, table, key).contains(id) <==> one_found_by(devices, table, key, id),
{
    lemma_lookup_gives_what_was_posted(all_postings(devices), table, key);
    lemma_posted_is_listed(devices, table, key);
    lemma_listed(devices, table, key, id);
}

/// Keys are looked up without regard to the case of ASCII letters: texts that
/// differ in nothing else have the same key.
pub proof fn lemma_lookup_ignores_case(a: Seq<char>, b: Seq<char>)
    requires
        a.len() == b.len(),
        forall|i: int|
            0 <= i < a.len() ==> text::ascii_lower(#[trigger] a[i]) == text::ascii_lower(b[i]),
    ensures
        text::ascii_lowered(a) == text::ascii_lowered(b),
{
    assert(text::ascii_lowered(a) =~= text::ascii_lowered(b));
}

/// What a store holds.
#[derive(Debug)]
pub struct Stats {
    pub devices: u64,
    pub model_ids: u64,
    pub codenames: u64,
    pub built_at: String,
    pub per_brand: Vec<(String, u64)>,
}

/// No two tables have the same name in the store.
pub proof fn lemma_tables_apart(a: IndexTable, b: IndexTable)
    ensures
        a.title() == b.title() ==> a == b,
        text::begins(a.title(), "by_"@),
{
    reveal_strlit("by_");
    reveal_strlit("by_model_id");
    reveal_strlit("by_name");
    reveal_strlit("by_code");
    reveal_strlit("by_codename");
    reveal_strlit("by_brand");
    reveal_strlit("by_series");
    assert("by_model_id"@.len() == 11 && "by_name"@.len() == 7 && "by_code"@.len() == 7);
    assert("by_codename"@.len() == 11 && "by_brand"@.len() == 8 && "by_series"@.len() == 9);
    assert("by_name"@[3] == 'n' && "by_code"@[3] == 'c' && "by_model_id"@[3] == 'm'
        && "by_codename"@[3] == 'c');
    assert(a.title().subrange(0, 3) =~= "by_"@);
}

} // verus!
