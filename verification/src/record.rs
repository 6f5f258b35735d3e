//! The bytes of device records in the store.

use crate::kv::Damaged;
use crate::model;
use crate::model::{Device, DeviceView, Model, ModelView};
use vstd::bytes;
use vstd::prelude::*;
use vstd::utf8::encode_utf8;

verus! {

broadcast use vstd::string::group_string_axioms;

/// The bytes of a length: eight, the lowest first.
pub open spec fn len_bytes(n: nat) -> Seq<u8> {
    bytes::spec_u64_to_le_bytes(n as u64)
}

/// The bytes of a text: the length of its UTF-8 form, and that form.
pub open spec fn text_bytes(s: Seq<char>) -> Seq<u8> {
    len_bytes(encode_utf8(s).len()) + encode_utf8(s)
}

/// The bytes of texts, one behind the other.
pub open spec fn texts_bytes(v: Seq<Seq<char>>) -> Seq<u8>
    decreases v.len(),
{
    if v.len() == 0 {
        Seq::empty()
    } else {
        texts_bytes(v.drop_last()) + text_bytes(v.last())
    }
}

/// The bytes of model rows, one behind the other: the number of ids, the ids and
/// the market name of each.
pub open spec fn models_bytes(v: Seq<ModelView>) -> Seq<u8>
    decreases v.len(),
{
    if v.len() == 0 {
        Seq::empty()
    } else {
        models_bytes(v.drop_last()) + len_bytes(v.last().ids.len()) + texts_bytes(v.last().ids)
            + text_bytes(v.last().market_name)
    }
}

/// The bytes of a record: the id in four bytes, the lowest first, the texts in
/// order, the number of model rows and the model rows.
pub open spec fn record_bytes(d: DeviceView) -> Seq<u8> {
    bytes::spec_u32_to_le_bytes(d.id) + text_bytes(d.brand) + text_bytes(d.file) + text_bytes(
        d.series,
    ) + text_bytes(d.code) + text_bytes(d.name) + text_bytes(d.codename) + len_bytes(
        d.models.len(),
    ) + models_bytes(d.models)
}

/// The record that `bincode::deserialize` reads from bytes; None where it finds
/// none.
pub uninterp spec fn record_read(b: Seq<u8>) -> Option<DeviceView>;

/// Writes the fields of a record with `bincode::serialize`, as a tuple: integers
/// in their width with the lowest byte first, texts and lists behind their length
/// in eight bytes. It has no limit on the size and does not fail, and
/// `bincode::deserialize` reads the same fields back.
#[verifier::external_body]
fn encode(d: &Device) -> (r: Result<Vec<u8>, Box<bincode::ErrorKind>>)
    ensures
        r is Ok,
        r->Ok_0@ == record_bytes(d@),
        record_read(r->Ok_0@) == Some(d@),
{
    let rows: Vec<(&Vec<String>, &String)> =
        d.models.iter().map(|m| (&m.ids, &m.market_name)).collect();
    bincode::serialize(
        &(d.id, &d.brand, &d.file, &d.series, &d.code, &d.name, &d.codename, rows),
    )
}

/// Reads the fields of a record with `bincode::deserialize`, as a tuple. What is
/// read depends on the bytes alone.
#[verifier::external_body]
fn decode(b: &[u8]) -> (r: Result<Device, Box<bincode::ErrorKind>>)
    ensures
        match r {
            Ok(d) => record_read(b@) == Some(d@),
            Err(_) => record_read(b@) is None,
        },
{
    let (id, brand, file, series, code, name, codename, rows): (
        u32, String, String, String, String, String, String, Vec<(Vec<String>, String)>,
    ) = bincode::deserialize(b)?;
    let models = rows.into_iter().map(|m| Model { ids: m.0, market_name: m.1 }).collect();
    Ok(Device { id, brand, file, series, code, name, codename, models })
}

/// The bytes under which the store keeps a device. They read back as the device.
pub fn device_bytes(d: &Device) -> (r: Result<Vec<u8>, Damaged>)
    ensures
        r is Ok,
        r->Ok_0@ == record_bytes(d@),
        record_read(r->Ok_0@) == Some(d@),
{
    match encode(d) {
        Ok(b) => Ok(b),
        Err(cause) => Err(Damaged { cause }),
    }
}

/// The device that the store keeps under bytes.
pub fn device_from_bytes(b: &[u8]) -> (r: Result<Device, Damaged>)
    ensures
        match r {
            Ok(d) => record_read(b@) == Some(d@),
            Err(_) => record_read(b@) is None,
        },
{
    match decode(b) {
        Ok(d) => Ok(d),
        Err(cause) => Err(Damaged { cause }),
    }
}

/// What the store holds under ids after devices were written in their order.
pub open spec fn written(devices: Seq<DeviceView>) -> Map<u32, Seq<u8>>
    decreases devices.len(),
{
    if devices.len() == 0 {
        Map::empty()
    } else {
        written(devices.drop_last()).insert(devices.last().id, record_bytes(devices.last()))
    }
}

/// The store holds a device under its id, unless one behind it has the same id.
pub proof fn lemma_written_is_held(devices: Seq<DeviceView>, i: int)
    requires
        0 <= i < devices.len(),
        forall|j: int| i < j < devices.len() ==> (#[trigger] devices[j]).id != devices[i].id,
    ensures
        written(devices).contains_key(devices[i].id),
        written(devices)[devices[i].id] == record_bytes(devices[i]),
    decreases devices.len(),
{
    if i < devices.len() - 1 {
        assert(devices[devices.len() - 1] == devices.last());
        assert(devices.drop_last()[i] == devices[i]);
        assert forall|j: int| i < j < devices.drop_last().len() implies (
        #[trigger] devices.drop_last()[j]).id != devices.drop_last()[i].id by {
            assert(devices.drop_last()[j] == devices[j]);
        }
        lemma_written_is_held(devices.drop_last(), i);
    }
}

/// The store holds nothing under an id that no device has.
pub proof fn lemma_nothing_else_is_held(devices: Seq<DeviceView>, id: u32)
    requires
        forall|j: int| 0 <= j < devices.len() ==> (#[trigger] devices[j]).id != id,
    ensures
        !written(devices).contains_key(id),
    decreases devices.len(),
{
    if devices.len() > 0 {
        assert(devices[devices.len() - 1] == devices.last());
        assert forall|j: int| 0 <= j < devices.drop_last().len() implies (
        #[trigger] devices.drop_last()[j]).id != id by {
            assert(devices.drop_last()[j] == devices[j]);
        }
        lemma_nothing_else_is_held(devices.drop_last(), id);
    }
}

// ---------------------------------------------------------------------------
// All devices of a store
// ---------------------------------------------------------------------------

/// The devices that entries read as, one by one; None where one of them is no
/// record.
pub open spec fn all_read(entries: Seq<(u32, Seq<u8>)>) -> Option<Seq<DeviceView>>
    decreases entries.len(),
{
    if entries.len() == 0 {
        Some(Seq::empty())
    } else {
        match (all_read(entries.drop_last()), record_read(entries.last().1)) {
            (Some(before), Some(d)) => Some(before.push(d)),
            _ => None,
        }
    }
}

/// The contents of entries.
pub open spec fn entries_view(v: Seq<(u32, Vec<u8>)>) -> Seq<(u32, Seq<u8>)> {
    Seq::new(v.len(), |i: int| (v[i].0, v[i].1@))
}

proof fn lemma_all_read_spoiled(entries: Seq<(u32, Seq<u8>)>, i: int)
    requires
        0 <= i <= entries.len(),
        all_read(entries.take(i)) is None,
    ensures
        all_read(entries) is None,
    decreases entries.len(),
{
    if i < entries.len() {
        assert(entries.drop_last().take(i) =~= entries.take(i));
        lemma_all_read_spoiled(entries.drop_last(), i);
    } else {
        assert(entries.take(i) =~= entries);
    }
}

/// The devices of a store, in the order in which its entries are walked.
pub fn all_devices(entries: &Vec<(u32, Vec<u8>)>) -> (r: Result<Vec<Device>, Damaged>)
    ensures
        match r {
            Ok(v) => all_read(entries_view(entries@)) == Some(model::devices_view(v@)),
            Err(_) => all_read(entries_view(entries@)) is None,
        },
{
    let ghost all = entries_view(entries@);
    let mut out: Vec<Device> = Vec::new();
    assert(model::devices_view(out@) =~= Seq::<DeviceView>::empty());
    for i in 0..entries.len()
        invariant
            all == entries_view(entries@),
            all_read(all.take(i as int)) == Some(model::devices_view(out@)),
    {
        proof {
            assert(all.take(i + 1).drop_last() =~= all.take(i as int));
            assert(all.take(i + 1).last() == (entries@[i as int].0, entries@[i as int].1@));
        }
        match device_from_bytes(entries[i].1.as_slice()) {
            Ok(d) => {
                let ghost before = model::devices_view(out@);
                out.push(d);
                assert(model::devices_view(out@) =~= before.push(d@));
            },
            Err(e) => {
                proof {
                    lemma_all_read_spoiled(all, i + 1);
                }
                return Err(e);
            },
        }
    }
    assert(all.take(entries@.len() as int) =~= all);
    Ok(out)
}

/// The entries are those of the store: its ids in ascending order, each with what
/// is held under it.
pub open spec fn is_walk(store: Map<u32, Seq<u8>>, entries: Seq<(u32, Seq<u8>)>) -> bool {
    &&& forall|i: int, j: int|
        0 <= i < j < entries.len() ==> (#[trigger] entries[i]).0 < (#[trigger] entries[j]).0
    &&& forall|i: int|
        0 <= i < entries.len() ==> store.contains_key((#[trigger] entries[i]).0)
            && store[entries[i].0] == entries[i].1
    &&& forall|id: u32| #[trigger]
        store.contains_key(id) ==> exists|i: int|
            0 <= i < entries.len() && (#[trigger] entries[i]).0 == id
}

/// No two devices have the same id.
pub open spec fn ids_apart(devices: Seq<DeviceView>) -> bool {
    forall|i: int, j: int|
        0 <= i < j < devices.len() ==> (#[trigger] devices[i]).id != (#[trigger] devices[j]).id
}

/// The bytes of the devices read back, as `device_bytes` gives them.
pub open spec fn read_back(devices: Seq<DeviceView>) -> bool {
    forall|i: int|
        0 <= i < devices.len() ==> record_read(record_bytes(#[trigger] devices[i])) == Some(
            devices[i],
        )
}

/// What is held under an id is the record of a device with that id.
proof fn lemma_held_is_written(devices: Seq<DeviceView>, id: u32)
    requires
        written(devices).contains_key(id),
    ensures
        exists|i: int|
            0 <= i < devices.len() && (#[trigger] devices[i]).id == id && written(devices)[id]
                == record_bytes(devices[i]),
    decreases devices.len(),
{
    let init = devices.drop_last();
    assert(devices[devices.len() - 1] == devices.last());
    if devices.last().id != id {
        lemma_held_is_written(init, id);
        let i = choose|i: int|
            0 <= i < init.len() && (#[trigger] init[i]).id == id && written(init)[id]
                == record_bytes(init[i]);
        assert(devices[i] == init[i]);
    }
}

proof fn lemma_walk_reads(
    devices: Seq<DeviceView>,
    entries: Seq<(u32, Seq<u8>)>,
    n: int,
)
    requires
        read_back(devices),
        is_walk(written(devices), entries),
        0 <= n <= entries.len(),
    ensures
        ({
            let out = all_read(entries.take(n));
            &&& out is Some
            &&& (out->0).len() == n
            &&& forall|i: int|
                0 <= i < n ==> devices.contains(#[trigger] (out->0)[i]) && (out->0)[i].id
                    == entries[i].0
        }),
    decreases n,
{
    if n > 0 {
        lemma_walk_reads(devices, entries, n - 1);
        assert(entries.take(n).drop_last() =~= entries.take(n - 1));
        assert(entries.take(n).last() == entries[n - 1]);
        let id = entries[n - 1].0;
        assert(written(devices).contains_key(id));
        lemma_held_is_written(devices, id);
        let i = choose|i: int|
            0 <= i < devices.len() && (#[trigger] devices[i]).id == id && written(devices)[id]
                == record_bytes(devices[i]);
        assert(record_read(record_bytes(devices[i])) == Some(devices[i]));
        let before = all_read(entries.take(n - 1))->0;
        let out = before.push(devices[i]);
        assert forall|k: int| 0 <= k < n implies devices.contains(#[trigger] out[k]) && out[k].id
            == entries[k].0 by {
            if k < n - 1 {
                assert(out[k] == before[k]);
            }
        }
    } else {
        assert(entries.take(0) =~= Seq::<(u32, Seq<u8>)>::empty());
    }
}

/// All devices that were written come out of the store, each once and ordered by
/// id; no others do.
pub proof fn lemma_all_devices_come_out(
    devices: Seq<DeviceView>,
    entries: Seq<(u32, Seq<u8>)>,
    d: DeviceView,
)
    requires
        ids_apart(devices),
        read_back(devices),
        is_walk(written(devices), entries),
    ensures
        ({
            let out = all_read(entries);
            &&& out is Some
            &&& (out->0).len() == devices.len()
            &&& forall|i: int, j: int|
                0 <= i < j < (out->0).len() ==> (#[trigger] (out->0)[i]).id < (
                #[trigger] (out->0)[j]).id
            &&& (out->0).contains(d) <==> devices.contains(d)
        }),
{
    lemma_walk_reads(devices, entries, entries.len() as int);
    assert(entries.take(entries.len() as int) =~= entries);
    let out = all_read(entries)->0;
    assert forall|i: int, j: int| 0 <= i < j < out.len() implies (#[trigger] out[i]).id < (
    #[trigger] out[j]).id by {
        assert(entries[i].0 < entries[j].0);
    }
    assert forall|x: DeviceView| devices.contains(x) implies #[trigger] out.contains(x) by {
        let k = choose|k: int| 0 <= k < devices.len() && devices[k] == x;
        lemma_written_is_held(devices, k);
        assert(written(devices).contains_key(x.id));
        let i = choose|i: int| 0 <= i < entries.len() && (#[trigger] entries[i]).0 == x.id;
        assert(devices.contains(out[i]));
        let m = choose|m: int| 0 <= m < devices.len() && devices[m] == out[i];
        assert(devices[m].id == devices[k].id);
        assert(m == k);
    }
    assert forall|x: DeviceView| out.contains(x) implies #[trigger] devices.contains(x) by {
        let i = choose|i: int| 0 <= i < out.len() && out[i] == x;
        assert(devices.contains(out[i]));
    }
    assert(out.no_duplicates()) by {
        assert forall|i: int, j: int| 0 <= i < out.len() && 0 <= j < out.len() && i != j implies out[i]
            != out[j] by {
            if i < j {
                assert(out[i].id < out[j].id);
            } else {
                assert(out[j].id < out[i].id);
            }
        }
    }
    assert(devices.no_duplicates()) by {
        assert forall|i: int, j: int|
            0 <= i < devices.len() && 0 <= j < devices.len() && i != j implies devices[i]
            != devices[j] by {
            if i < j {
                assert(devices[i].id != devices[j].id);
            } else {
                assert(devices[j].id != devices[i].id);
            }
        }
    }
    out.unique_seq_to_set();
    devices.unique_seq_to_set();
    assert forall|x: DeviceView| #[trigger] out.to_set().contains(x) <==> devices.to_set().contains(
        x,
    ) by {
        assert(out.contains(x) <==> devices.contains(x));
    }
    assert(out.to_set() =~= devices.to_set());
}

} // verus!
