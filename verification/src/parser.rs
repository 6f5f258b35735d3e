//! Device records from input files.
//!
//! A file is an array of devices:
//!
//! ```json
//! [
//!   {
//!     "brand": "Apple",
//!     "series": "iPhone",
//!     "code": "N90AP",
//!     "name": "iPhone 4",
//!     "codename": "iPhone3,1",
//!     "models": [
//!       { "ids": ["A1332"], "market_name": "iPhone 4 (GSM)" },
//!       "A1333"
//!     ]
//!   }
//! ]
//! ```
//!
//! - `brand`, `series`, `code`, `codename` and `file` may be left out: `brand` is
//!   then named after the file, `file` is the name of the file, the others are
//!   empty.
//! - `models` may be left out. A model is an id, a list of ids, or ids with a
//!   market name, which is otherwise the name of the device.

use crate::model;
use crate::model::{Device, Model};
use crate::text;
use vstd::prelude::*;

verus! {

broadcast use vstd::string::group_string_axioms;

/// The name of an input file of a directory: it has the extension `json`.
pub open spec fn is_input(name: Seq<char>) -> bool {
    name.len() > 5 && text::ends(name, ".json"@)
}

/// The input files of a directory with these names, in ascending order.
pub open spec fn inputs_of(names: Seq<Seq<char>>) -> Seq<Seq<char>> {
    text::sorted_set(text::select(names, |s: Seq<char>| is_input(s)))
}

/// The input files of a directory with these names, in ascending order.
pub fn input_files(names: &Vec<String>) -> (r: Vec<String>)
    ensures
        text::strs(r@) == inputs_of(text::strs(names@)),
{
    let ghost all = text::strs(names@);
    let ghost p = |s: Seq<char>| is_input(s);
    let mut out: Vec<String> = Vec::new();
    let extension = text::chars_of(".json");
    proof {
        reveal_strlit(".json");
    }
    assert(text::strs(out@) =~= text::select(all.take(0), p));
    for i in 0..names.len()
        invariant
            all == text::strs(names@),
            p == (|s: Seq<char>| is_input(s)),
            extension@ == ".json"@,
            extension@.len() == 5,
            text::strs(out@) == text::select(all.take(i as int), p),
    {
        let name = text::chars_of(names[i].as_str());
        proof {
            assert(all.take(i + 1).drop_last() =~= all.take(i as int));
            assert(all.take(i + 1).last() == name@);
            assert(p(name@) == is_input(name@));
        }
        if name.len() > 5 && text::occurs(name.as_slice(), extension.as_slice(), name.len() - 5) {
            let ghost before = text::strs(out@);
            out.push(names[i].clone());
            assert(text::strs(out@) =~= before.push(name@));
        }
    }
    assert(all.take(names@.len() as int) =~= all);
    text::sort_unique(&out)
}

/// Exactly the names with the extension are read, in ascending order.
pub proof fn lemma_input_files(names: Seq<Seq<char>>, name: Seq<char>)
    ensures
        text::increasing(inputs_of(names)),
        inputs_of(names).contains(name) <==> names.contains(name) && is_input(name),
{
    let p = |s: Seq<char>| is_input(s);
    let chosen = text::select(names, p);
    text::lemma_select(names, p, name);
    text::lemma_sorted_set(chosen);
    assert(p(name) == is_input(name));
    assert(text::sorted_set(chosen).contains(name) <==> chosen.contains(name));
}

/// A model as a file has it.
#[derive(Debug)]
pub enum ModelInput {
    One(String),
    Ids(Vec<String>),
    Full { ids: Vec<String>, market_name: Option<String> },
}

/// A device as a file has it.
#[derive(Debug)]
pub struct DeviceInput {
    pub brand: Option<String>,
    /// Source file name; the actual one where it is left out.
    pub file: Option<String>,
    pub series: Option<String>,
    pub code: Option<String>,
    pub name: String,
    pub codename: Option<String>,
    pub models: Vec<ModelInput>,
}

/// The trimmed ids that are not empty.
pub open spec fn clean_ids(ids: Seq<Seq<char>>) -> Seq<Seq<char>>
    decreases ids.len(),
{
    if ids.len() == 0 {
        Seq::empty()
    } else {
        let before = clean_ids(ids.drop_last());
        let id = text::trimmed(ids.last());
        if id.len() > 0 {
            before.push(id)
        } else {
            before
        }
    }
}

/// The ids that a model of a file names.
pub open spec fn input_ids(m: ModelInput) -> Seq<Seq<char>> {
    match m {
        ModelInput::One(id) => seq![id@],
        ModelInput::Ids(ids) => text::strs(ids@),
        ModelInput::Full { ids, market_name } => text::strs(ids@),
    }
}

/// The market name of a model of a file.
pub open spec fn input_market_name(m: ModelInput, device_name: Seq<char>) -> Seq<char> {
    match m {
        ModelInput::Full { ids, market_name: Some(n) } => n@,
        _ => device_name,
    }
}

/// The model rows of a device: those with an id.
pub open spec fn model_rows(models: Seq<ModelInput>, device_name: Seq<char>) -> Seq<
    model::ModelView,
>
    decreases models.len(),
{
    if models.len() == 0 {
        Seq::empty()
    } else {
        let before = model_rows(models.drop_last(), device_name);
        let ids = clean_ids(input_ids(models.last()));
        if ids.len() > 0 {
            before.push(
                model::ModelView {
                    ids,
                    market_name: input_market_name(models.last(), device_name),
                },
            )
        } else {
            before
        }
    }
}

/// The text, or another where it is left out.
pub open spec fn or_else(s: Option<String>, default: Seq<char>) -> Seq<char> {
    match s {
        Some(t) => t@,
        None => default,
    }
}

/// The device record of a device of a file.
pub open spec fn device_of(d: DeviceInput, default_brand: Seq<char>, file: Seq<char>) ->
    model::DeviceView {
    model::DeviceView {
        id: 0,
        brand: or_else(d.brand, default_brand),
        file: or_else(d.file, file),
        series: or_else(d.series, Seq::empty()),
        code: or_else(d.code, Seq::empty()),
        name: d.name@,
        codename: or_else(d.codename, Seq::empty()),
        models: model_rows(d.models@, d.name@),
    }
}

/// No id of a record is blank, and no model row is without an id.
pub proof fn lemma_ids_not_blank(models: Seq<ModelInput>, device_name: Seq<char>, i: int, j: int)
    requires
        0 <= i < model_rows(models, device_name).len(),
        0 <= j < model_rows(models, device_name)[i].ids.len(),
    ensures
        model_rows(models, device_name)[i].ids.len() > 0,
        model_rows(models, device_name)[i].ids[j].len() > 0,
        text::trimmed(model_rows(models, device_name)[i].ids[j]) == model_rows(
            models,
            device_name,
        )[i].ids[j],
    decreases models.len(),
{
    let before = model_rows(models.drop_last(), device_name);
    if i < before.len() {
        lemma_ids_not_blank(models.drop_last(), device_name, i, j);
    } else {
        lemma_clean_ids(input_ids(models.last()), j);
    }
}

proof fn lemma_clean_ids(ids: Seq<Seq<char>>, j: int)
    requires
        0 <= j < clean_ids(ids).len(),
    ensures
        clean_ids(ids)[j].len() > 0,
        text::trimmed(clean_ids(ids)[j]) == clean_ids(ids)[j],
    decreases ids.len(),
{
    if j < clean_ids(ids.drop_last()).len() {
        lemma_clean_ids(ids.drop_last(), j);
    } else {
        text::lemma_trimmed_idempotent(ids.last());
    }
}

/// The id at a position is not blank.
pub open spec fn not_blank(ids: Seq<Seq<char>>) -> spec_fn(int) -> bool {
    |i: int| text::trimmed(ids[i]).len() > 0
}

/// Nothing but blank ids is left out of a list of ids: what is left are the trimmed
/// texts of the others, in their order.
pub proof fn lemma_only_blank_ids_go(ids: Seq<Seq<char>>) -> (at: Seq<int>)
    ensures
        text::lists(at, ids.len() as int, not_blank(ids)),
        at.len() == clean_ids(ids).len(),
        forall|k: int|
            0 <= k < at.len() ==> clean_ids(ids)[k] == text::trimmed(ids[#[trigger] at[k]]),
    decreases ids.len(),
{
    let q = not_blank(ids);
    if ids.len() == 0 {
        let none = Seq::<int>::empty();
        assert(text::lists(none, 0, q));
        none
    } else {
        let init = ids.drop_last();
        let n = init.len() as int;
        let p = not_blank(init);
        let before = lemma_only_blank_ids_go(init);
        assert forall|i: int| 0 <= i < n implies #[trigger] p(i) == q(i) by {}
        text::lemma_lists_next(before, n, p, q);
        assert(ids[n] == ids.last());
        let at = if q(n) {
            before.push(n)
        } else {
            before
        };
        assert forall|k: int| 0 <= k < at.len() implies clean_ids(ids)[k] == text::trimmed(
            ids[#[trigger] at[k]],
        ) by {
            if k < before.len() {
                assert(at[k] == before[k]);
                assert(init[before[k]] == ids[before[k]]);
            }
        }
        at
    }
}

/// The ids of a model of a file, as they are written there.
pub open spec fn written_ids(m: ModelInput) -> Seq<Seq<char>> {
    match m {
        ModelInput::One(id) => seq![id@],
        ModelInput::Ids(ids) => text::strs(ids@),
        ModelInput::Full { ids, market_name } => text::strs(ids@),
    }
}

/// One of the ids is not blank.
pub open spec fn names_an_id(m: ModelInput) -> bool {
    exists|i: int|
        0 <= i < written_ids(m).len() && text::trimmed(#[trigger] written_ids(m)[i]).len() > 0
}

/// The model row of a device has all ids of the model of the file that are not
/// blank, trimmed and in their order, and the market name written there or else the
/// name of the device.
pub open spec fn is_row_of(row: model::ModelView, m: ModelInput, name: Seq<char>) -> bool {
    &&& exists|at: Seq<int>|
        {
            &&& #[trigger] text::lists(at, written_ids(m).len() as int, not_blank(written_ids(m)))
            &&& row.ids.len() == at.len()
            &&& forall|k: int|
                0 <= k < at.len() ==> row.ids[k] == text::trimmed(
                    written_ids(m)[#[trigger] at[k]],
                )
        }
    &&& row.market_name == (match m {
        ModelInput::Full { ids, market_name: Some(n) } => n@,
        _ => name,
    })
}

proof fn lemma_rows_of(models: Seq<ModelInput>, name: Seq<char>) -> (at: Seq<int>)
    ensures
        text::lists(at, models.len() as int, |i: int| names_an_id(models[i])),
        at.len() == model_rows(models, name).len(),
        forall|k: int|
            0 <= k < at.len() ==> is_row_of(
                model_rows(models, name)[k],
                models[#[trigger] at[k]],
                name,
            ),
    decreases models.len(),
{
    let q = |i: int| names_an_id(models[i]);
    if models.len() == 0 {
        let none = Seq::<int>::empty();
        assert(text::lists(none, 0, q));
        none
    } else {
        let init = models.drop_last();
        let n = init.len() as int;
        let p = |i: int| names_an_id(init[i]);
        let before = lemma_rows_of(init, name);
        assert forall|i: int| 0 <= i < n implies #[trigger] p(i) == q(i) by {}
        text::lemma_lists_next(before, n, p, q);
        let m = models.last();
        assert(models[n] == m);
        let ids = written_ids(m);
        assert(ids == input_ids(m));
        let of_m = lemma_only_blank_ids_go(ids);
        let r = not_blank(ids);
        if clean_ids(ids).len() > 0 {
            assert(r(of_m[0]));
            assert(text::trimmed(ids[of_m[0]]).len() > 0);
            assert(names_an_id(m));
        }
        if names_an_id(m) {
            let i = choose|i: int| 0 <= i < ids.len() && text::trimmed(#[trigger] ids[i]).len() > 0;
            assert(r(i));
            assert(of_m.contains(i));
        }
        let at = if q(n) {
            before.push(n)
        } else {
            before
        };
        let rows = model_rows(models, name);
        assert forall|k: int| 0 <= k < at.len() implies is_row_of(
            rows[k],
            models[#[trigger] at[k]],
            name,
        ) by {
            if k < before.len() {
                assert(at[k] == before[k]);
                assert(init[before[k]] == models[before[k]]);
                assert(rows[k] == model_rows(init, name)[k]);
            } else {
                assert(rows[k].ids == clean_ids(ids));
                assert(text::lists(of_m, written_ids(m).len() as int, not_blank(written_ids(m))));
            }
        }
        at
    }
}

/// Nothing but blank ids is left out of a device: its model rows are, in their
/// order, those of the models of the file that name an id, each with all its ids
/// that are not blank.
pub proof fn lemma_model_rows_of_a_device(
    d: DeviceInput,
    default_brand: Seq<char>,
    file: Seq<char>,
) -> (at: Seq<int>)
    ensures
        ({
            let rows = device_of(d, default_brand, file).models;
            &&& text::lists(at, d.models@.len() as int, |i: int| names_an_id(d.models@[i]))
            &&& at.len() == rows.len()
            &&& forall|k: int|
                0 <= k < at.len() ==> is_row_of(rows[k], d.models@[#[trigger] at[k]], d.name@)
        }),
{
    lemma_rows_of(d.models@, d.name@)
}

/// Each id of a file that is not blank is an id of the device.
pub proof fn lemma_each_id_is_kept(
    d: DeviceInput,
    default_brand: Seq<char>,
    file: Seq<char>,
    m: int,
    i: int,
)
    requires
        0 <= m < d.models@.len(),
        0 <= i < written_ids(d.models@[m]).len(),
        text::trimmed(written_ids(d.models@[m])[i]).len() > 0,
    ensures
        exists|k: int|
            0 <= k < device_of(d, default_brand, file).models.len() && (
            #[trigger] device_of(d, default_brand, file).models[k]).ids.contains(
                text::trimmed(written_ids(d.models@[m])[i]),
            ),
{
    let rows = device_of(d, default_brand, file).models;
    let at = lemma_model_rows_of_a_device(d, default_brand, file);
    let q = |x: int| names_an_id(d.models@[x]);
    assert(text::lists(at, d.models@.len() as int, q));
    assert(names_an_id(d.models@[m]));
    assert(q(m));
    let k = choose|k: int| 0 <= k < at.len() && at[k] == m;
    let ids = written_ids(d.models@[m]);
    assert(is_row_of(rows[k], d.models@[at[k]], d.name@));
    let r = not_blank(ids);
    let of_m = choose|of_m: Seq<int>|
        {
            &&& #[trigger] text::lists(of_m, ids.len() as int, r)
            &&& rows[k].ids.len() == of_m.len()
            &&& forall|y: int|
                0 <= y < of_m.len() ==> rows[k].ids[y] == text::trimmed(ids[#[trigger] of_m[y]])
        };
    assert(r(i));
    let y = choose|y: int| 0 <= y < of_m.len() && of_m[y] == i;
    assert(rows[k].ids[y] == text::trimmed(ids[i]));
}

/// Trims ids and drops those that are empty.
fn trim_ids(ids: &Vec<String>) -> (r: Vec<String>)
    ensures
        text::strs(r@) == clean_ids(text::strs(ids@)),
{
    let ghost all = text::strs(ids@);
    let mut out: Vec<String> = Vec::new();
    assert(text::strs(out@) =~= clean_ids(all.take(0)));
    for i in 0..ids.len()
        invariant
            all == text::strs(ids@),
            text::strs(out@) == clean_ids(all.take(i as int)),
    {
        let id = text::trim_str(ids[i].as_str());
        proof {
            assert(all.take(i + 1).drop_last() =~= all.take(i as int));
            assert(all.take(i + 1).last() == ids@[i as int]@);
        }
        if !id.as_str().is_empty() {
            let ghost before = text::strs(out@);
            out.push(id);
            assert(text::strs(out@) =~= before.push(id@));
        }
    }
    assert(all.take(ids@.len() as int) =~= all);
    out
}

/// The ids and the market name of a model.
fn read_model(m: &ModelInput, name: &String) -> (r: (Vec<String>, String))
    ensures
        text::strs(r.0@) == clean_ids(input_ids(*m)),
        r.1@ == input_market_name(*m, name@),
{
    match m {
        ModelInput::One(id) => {
            let mut ids: Vec<String> = Vec::new();
            ids.push(id.clone());
            assert(text::strs(ids@) =~= seq![id@]);
            (trim_ids(&ids), name.clone())
        },
        ModelInput::Ids(ids) => (trim_ids(ids), name.clone()),
        ModelInput::Full { ids, market_name } => {
            let market = match market_name {
                Some(n) => n.clone(),
                None => name.clone(),
            };
            (trim_ids(ids), market)
        },
    }
}

/// The model rows of a device.
fn read_models(models: &Vec<ModelInput>, name: &String) -> (r: Vec<Model>)
    ensures
        model::models_view(r@) == model_rows(models@, name@),
{
    let mut out: Vec<Model> = Vec::new();
    assert(model::models_view(out@) =~= model_rows(models@.take(0), name@));
    for i in 0..models.len()
        invariant
            model::models_view(out@) == model_rows(models@.take(i as int), name@),
    {
        assert(models@.take(i + 1).drop_last() =~= models@.take(i as int));
        let (ids, market_name) = read_model(&models[i], name);
        let ghost idv = text::strs(ids@);
        if ids.len() > 0 {
            let ghost before = model::models_view(out@);
            out.push(Model { ids, market_name });
            assert(model::models_view(out@) =~= before.push(
                model::ModelView { ids: idv, market_name: market_name@ },
            ));
        } else {
            assert(idv.len() == 0);
        }
    }
    assert(models@.take(models@.len() as int) =~= models@);
    out
}

/// The text, or another where it is left out.
fn text_or(s: &Option<String>, default: &str) -> (r: String)
    ensures
        r@ == or_else(*s, default@),
{
    match s {
        Some(t) => t.clone(),
        None => default.to_owned(),
    }
}

/// The device record of a device of a file.
fn read_device(d: &DeviceInput, default_brand: &str, file: &str) -> (r: Device)
    ensures
        r@ == device_of(*d, default_brand@, file@),
{
    proof {
        reveal_strlit("");
        assert(""@ =~= Seq::<char>::empty());
    }
    Device {
        id: 0,
        brand: text_or(&d.brand, default_brand),
        file: text_or(&d.file, file),
        series: text_or(&d.series, ""),
        code: text_or(&d.code, ""),
        name: d.name.clone(),
        codename: text_or(&d.codename, ""),
        models: read_models(&d.models, &d.name),
    }
}

/// The device records of the devices of a file. `default_brand` is used for
/// devices without a brand of their own.
pub fn devices_from_inputs(inputs: &Vec<DeviceInput>, default_brand: &str, file: &str) -> (r: Vec<
    Device,
>)
    ensures
        r@.len() == inputs@.len(),
        forall|i: int|
            0 <= i < r@.len() ==> (#[trigger] r@[i])@ == device_of(
                inputs@[i],
                default_brand@,
                file@,
            ),
{
    let mut out: Vec<Device> = Vec::new();
    for i in 0..inputs.len()
        invariant
            out@.len() == i,
            forall|k: int|
                0 <= k < i ==> (#[trigger] out@[k])@ == device_of(
                    inputs@[k],
                    default_brand@,
                    file@,
                ),
    {
        out.push(read_device(&inputs[i], default_brand, file));
    }
    out
}

// ---------------------------------------------------------------------------
// Several files
// ---------------------------------------------------------------------------

/// The last position of a character in the first `n` characters.
pub open spec fn last_of(s: Seq<char>, c: char, n: int) -> Option<int>
    decreases n,
{
    if n <= 0 || n > s.len() {
        None
    } else if s[n - 1] == c {
        Some(n - 1)
    } else {
        last_of(s, c, n - 1)
    }
}

/// The name of a file without its extension, which begins at the last dot. A dot
/// in front begins none.
pub open spec fn stem_of(name: Seq<char>) -> Seq<char> {
    match last_of(name, '.', name.len() as int) {
        Some(i) if i > 0 => name.take(i),
        _ => name,
    }
}

/// The name of a file without its extension.
pub fn stem(name: &str) -> (r: String)
    ensures
        r@ == stem_of(name@),
{
    let chars = text::chars_of(name);
    let mut n: usize = chars.len();
    while n > 0
        invariant
            n <= chars@.len(),
            chars@ == name@,
            last_of(name@, '.', name@.len() as int) == last_of(name@, '.', n as int),
        decreases n,
    {
        if chars[n - 1] == '.' {
            if n == 1 {
                return name.to_owned();
            }
            let front: &[char] = &chars.as_slice()[0..n - 1];
            assert(front@ =~= name@.take(n - 1));
            return text::string_of(front);
        }
        n = n - 1;
    }
    name.to_owned()
}

/// The brand of an input file is its name without `.json`.
pub proof fn lemma_stem_of_input(name: Seq<char>)
    requires
        is_input(name),
    ensures
        stem_of(name) == name.take(name.len() - 5),
        stem_of(name) + ".json"@ == name,
{
    reveal_strlit(".json");
    let n = name.len() as int;
    let end = name.subrange(n - 5, n);
    assert(end == ".json"@);
    assert(end[0] == name[n - 5] && end[1] == name[n - 4] && end[2] == name[n - 3] && end[3]
        == name[n - 2] && end[4] == name[n - 1]);
    reveal_with_fuel(last_of, 6);
    assert(stem_of(name) + ".json"@ =~= name);
}

/// What reading files gave: the name of each with its devices, or with an error.
pub open spec fn files_view<E>(v: Seq<(String, Result<Vec<DeviceInput>, E>)>) -> Seq<
    (Seq<char>, Result<Seq<DeviceInput>, E>),
> {
    Seq::new(
        v.len(),
        |i: int|
            (
                v[i].0@,
                match v[i].1 {
                    Ok(inputs) => Ok(inputs@),
                    Err(e) => Err(e),
                },
            ),
    )
}

/// The device records of a file, which gives the brand its name.
pub open spec fn file_devices(name: Seq<char>, inputs: Seq<DeviceInput>) -> Seq<
    model::DeviceView,
> {
    Seq::new(inputs.len(), |i: int| device_of(inputs[i], stem_of(name), name))
}

/// The device records of files, one file after the other; the error of the first
/// file that could not be read where there is one.
pub open spec fn loaded<E>(files: Seq<(Seq<char>, Result<Seq<DeviceInput>, E>)>) -> Result<
    Seq<model::DeviceView>,
    E,
>
    decreases files.len(),
{
    if files.len() == 0 {
        Ok(Seq::empty())
    } else {
        match files[0].1 {
            Err(e) => Err(e),
            Ok(inputs) => match loaded(files.drop_first()) {
                Ok(rest) => Ok(file_devices(files[0].0, inputs) + rest),
                Err(e) => Err(e),
            },
        }
    }
}

/// The device records of files, given what reading each of them gave.
pub fn load_devices<E>(files: Vec<(String, Result<Vec<DeviceInput>, E>)>) -> (r: Result<
    Vec<Device>,
    E,
>)
    ensures
        match r {
            Ok(devices) => loaded(files_view(files@)) == Ok::<Seq<model::DeviceView>, E>(
                model::devices_view(devices@),
            ),
            Err(e) => loaded(files_view(files@)) == Err::<Seq<model::DeviceView>, E>(e),
        },
{
    let ghost all = files_view(files@);
    let mut left = files;
    let mut out: Vec<Device> = Vec::new();
    proof {
        if let Ok(rest) = loaded(all) {
            assert(model::devices_view(out@) + rest =~= rest);
        }
    }
    while left.len() > 0
        invariant
            all == files_view(files@),
            loaded(all) == (match loaded(files_view(left@)) {
                Ok(rest) => Ok(model::devices_view(out@) + rest),
                Err(e) => Err(e),
            }),
        decreases left.len(),
    {
        let ghost view = files_view(left@);
        let ghost before = model::devices_view(out@);
        let (name, read) = left.remove(0);
        assert(files_view(left@) =~= view.drop_first());
        match read {
            Ok(inputs) => {
                let mut devices = devices_from_inputs(
                    &inputs,
                    stem(name.as_str()).as_str(),
                    name.as_str(),
                );
                let ghost more = file_devices(name@, inputs@);
                proof {
                    assert(model::devices_view(devices@) =~= more);
                    assert(view[0] == (name@, Ok::<Seq<DeviceInput>, E>(inputs@)));
                }
                out.append(&mut devices);
                proof {
                    assert(model::devices_view(out@) =~= before + more);
                    if let Ok(rest) = loaded(view.drop_first()) {
                        assert(before + (more + rest) =~= (before + more) + rest);
                    }
                }
            },
            Err(e) => {
                assert(view[0] == (name@, Err::<Seq<DeviceInput>, E>(e)));
                return Err(e);
            },
        }
    }
    assert(model::devices_view(out@) + Seq::<model::DeviceView>::empty() =~= model::devices_view(
        out@,
    ));
    Ok(out)
}

/// What reading the files of a directory gave, in the order in which they are
/// read.
pub open spec fn directory<E>(
    names: Seq<Seq<char>>,
    read: spec_fn(Seq<char>) -> Result<Seq<DeviceInput>, E>,
) -> Seq<(Seq<char>, Result<Seq<DeviceInput>, E>)> {
    Seq::new(inputs_of(names).len(), |i: int| (inputs_of(names)[i], read(inputs_of(names)[i])))
}

/// The devices that were read from a file; none where it could not be read.
pub open spec fn read_or_none<E>(read: Result<Seq<DeviceInput>, E>) -> Seq<DeviceInput> {
    match read {
        Ok(inputs) => inputs,
        Err(_) => Seq::empty(),
    }
}

/// The device records of each of the files.
pub open spec fn devices_of_each<E>(files: Seq<(Seq<char>, Result<Seq<DeviceInput>, E>)>) -> Seq<
    Seq<model::DeviceView>,
> {
    Seq::new(files.len(), |i: int| file_devices(files[i].0, read_or_none(files[i].1)))
}

/// Where all files could be read, their devices come one file after the other; a
/// file that could not be read spoils all of it, and the first such file decides.
pub proof fn lemma_loaded<E>(files: Seq<(Seq<char>, Result<Seq<DeviceInput>, E>)>)
    ensures
        loaded(files) is Ok <==> forall|i: int| 0 <= i < files.len() ==> (#[trigger] files[i]).1 is Ok,
        loaded(files) matches Ok(devices) ==> devices == devices_of_each(files).flatten(),
        loaded(files) matches Err(e) ==> exists|i: int|
            0 <= i < files.len() && (#[trigger] files[i]).1 == Err::<Seq<DeviceInput>, E>(e)
                && forall|j: int| 0 <= j < i ==> (#[trigger] files[j]).1 is Ok,
    decreases files.len(),
{
    if files.len() > 0 {
        let rest = files.drop_first();
        lemma_loaded(rest);
        assert forall|i: int| 0 <= i < rest.len() implies rest[i] == #[trigger] files[i + 1] by {}
        assert(devices_of_each(files).drop_first() =~= devices_of_each(rest));
        if files[0].1 is Ok {
            if loaded(rest) is Ok {
                assert forall|i: int| 0 <= i < files.len() implies (#[trigger] files[i]).1 is Ok by {
                    if i > 0 {
                        assert(rest[i - 1].1 is Ok);
                    }
                }
            } else {
                let e = loaded(rest)->Err_0;
                let i = choose|i: int|
                    0 <= i < rest.len() && (#[trigger] rest[i]).1 == Err::<Seq<DeviceInput>, E>(e)
                        && forall|j: int| 0 <= j < i ==> (#[trigger] rest[j]).1 is Ok;
                assert(files[i + 1].1 == Err::<Seq<DeviceInput>, E>(e));
                assert forall|j: int| 0 <= j < i + 1 implies (#[trigger] files[j]).1 is Ok by {
                    if j > 0 {
                        assert(rest[j - 1].1 is Ok);
                    }
                }
            }
        }
    }
}

/// Files behind one that could not be read play no part.
pub proof fn lemma_first_error_decides<E>(
    files: Seq<(Seq<char>, Result<Seq<DeviceInput>, E>)>,
    more: Seq<(Seq<char>, Result<Seq<DeviceInput>, E>)>,
)
    requires
        loaded(files) is Err,
    ensures
        loaded(files + more) == loaded(files),
    decreases files.len(),
{
    assert((files + more)[0] == files[0]);
    if files[0].1 is Ok {
        assert((files + more).drop_first() =~= files.drop_first() + more);
        lemma_first_error_decides(files.drop_first(), more);
    }
}

/// A directory can be loaded exactly where each of its files with the extension
/// can be read. Its devices are then those of these files, one file after the
/// other in the ascending order of their names; other files play no part. Where one
/// of these files cannot be read, the first of them gives the error.
pub proof fn lemma_load_directory<E>(
    names: Seq<Seq<char>>,
    read: spec_fn(Seq<char>) -> Result<Seq<DeviceInput>, E>,
)
    ensures
        text::increasing(inputs_of(names)),
        forall|name: Seq<char>| #[trigger]
            inputs_of(names).contains(name) <==> names.contains(name) && is_input(name),
        loaded(directory(names, read)) is Ok <==> forall|name: Seq<char>|
            names.contains(name) && #[trigger] is_input(name) ==> read(name) is Ok,
        loaded(directory(names, read)) matches Ok(devices) ==> devices == Seq::new(
            inputs_of(names).len(),
            |i: int| file_devices(inputs_of(names)[i], read(inputs_of(names)[i])->Ok_0),
        ).flatten(),
        loaded(directory(names, read)) matches Err(e) ==> exists|i: int|
            0 <= i < inputs_of(names).len() && read(#[trigger] inputs_of(names)[i]) == Err::<
                Seq<DeviceInput>,
                E,
            >(e) && forall|j: int|
                0 <= j < i ==> read(#[trigger] inputs_of(names)[j]) is Ok,
{
    let files = inputs_of(names);
    let all = directory(names, read);
    lemma_input_files(names, Seq::empty());
    assert forall|name: Seq<char>| #[trigger] files.contains(name) <==> names.contains(name)
        && is_input(name) by {
        lemma_input_files(names, name);
    }
    lemma_loaded(all);
    if loaded(all) is Ok {
        assert forall|name: Seq<char>| names.contains(name) && #[trigger] is_input(name) implies read(
            name,
        ) is Ok by {
            assert(files.contains(name));
            let i = choose|i: int| 0 <= i < files.len() && files[i] == name;
            assert(all[i].1 is Ok);
        }
        assert forall|i: int| 0 <= i < files.len() implies read(#[trigger] files[i]) is Ok by {
            assert(all[i].1 is Ok);
        }
        assert(devices_of_each(all) =~= Seq::new(
            files.len(),
            |i: int| file_devices(files[i], read(files[i])->Ok_0),
        ));
    } else {
        let e = loaded(all)->Err_0;
        let i = choose|i: int|
            0 <= i < all.len() && (#[trigger] all[i]).1 == Err::<Seq<DeviceInput>, E>(e)
                && forall|j: int| 0 <= j < i ==> (#[trigger] all[j]).1 is Ok;
        assert(read(files[i]) == Err::<Seq<DeviceInput>, E>(e));
        assert(files.contains(files[i]));
        assert(is_input(files[i]));
        assert forall|j: int| 0 <= j < i implies read(#[trigger] files[j]) is Ok by {
            assert(all[j].1 is Ok);
        }
    }
}

/// The fields of a device are those of the file; what is left out is the default of
/// the file or empty.
pub proof fn lemma_fields_of_a_device(d: DeviceInput, default_brand: Seq<char>, file: Seq<char>)
    ensures
        ({
            let r = device_of(d, default_brand, file);
            &&& r.name == d.name@
            &&& r.brand == (if d.brand is Some {
                d.brand->0@
            } else {
                default_brand
            })
            &&& r.file == (if d.file is Some {
                d.file->0@
            } else {
                file
            })
            &&& r.series == (if d.series is Some {
                d.series->0@
            } else {
                Seq::empty()
            })
            &&& r.code == (if d.code is Some {
                d.code->0@
            } else {
                Seq::empty()
            })
            &&& r.codename == (if d.codename is Some {
                d.codename->0@
            } else {
                Seq::empty()
            })
        }),
{
}

/// Numbers the devices from 1 on.
pub fn assign_ids(devices: &mut Vec<Device>)
    ensures
        final(devices)@.len() == old(devices)@.len(),
        forall|i: int|
            0 <= i < final(devices)@.len() ==> (#[trigger] final(devices)@[i])@ == (
            model::DeviceView { id: (i + 1) as u32, ..old(devices)@[i]@ }),
{
    let n: usize = devices.len();
    for i in 0..n
        invariant
            n == old(devices)@.len(),
            devices@.len() == n,
            forall|k: int|
                0 <= k < i ==> (#[trigger] devices@[k])@ == (model::DeviceView {
                    id: (k + 1) as u32,
                    ..old(devices)@[k]@
                }),
            forall|k: int| i <= k < n ==> #[trigger] devices@[k] == old(devices)@[k],
    {
        devices[i].id = (i + 1) as u32;
    }
}

/// Different devices get different ids, as far as 32 bits go.
pub proof fn lemma_ids_differ(i: int, j: int)
    requires
        0 <= i < j < u32::MAX,
    ensures
        (i + 1) as u32 != (j + 1) as u32,
{
}

/// A name and `.json` behind it name an input file, but not `.json` alone, and no
/// other name does.
pub proof fn lemma_named_json(stem: Seq<char>, name: Seq<char>)
    ensures
        is_input(stem + ".json"@) <==> stem.len() > 0,
        is_input(name) ==> name == name.take(name.len() - 5) + ".json"@ && name.len() > 5,
{
    reveal_strlit(".json");
    text::lemma_begins_and_ends(name, ".json"@, stem);
}

proof fn lemma_last_of(s: Seq<char>, c: char, k: int, n: int)
    requires
        0 <= k < n <= s.len(),
        s[k] == c,
        forall|i: int| k < i < n ==> #[trigger] s[i] != c,
    ensures
        last_of(s, c, n) == Some(k),
    decreases n,
{
    if k < n - 1 {
        lemma_last_of(s, c, k, n - 1);
    }
}

proof fn lemma_none_of(s: Seq<char>, c: char, n: int)
    requires
        0 <= n <= s.len(),
        forall|i: int| 0 <= i < n ==> #[trigger] s[i] != c,
    ensures
        last_of(s, c, n) is None,
    decreases n,
{
    if n > 0 {
        lemma_none_of(s, c, n - 1);
    }
}

/// The last dot and what stands behind it is taken off, whatever stands in front; a
/// name without a dot, or with one in front only, stays as it is.
pub proof fn lemma_stem(front: Seq<char>, extension: Seq<char>)
    requires
        !extension.contains('.'),
    ensures
        front.len() > 0 ==> stem_of(front.push('.') + extension) == front,
        stem_of(seq!['.'] + extension) == seq!['.'] + extension,
        stem_of(extension) == extension,
{
    let name = front.push('.') + extension;
    let n = front.len() as int;
    assert forall|i: int| n < i < name.len() implies #[trigger] name[i] != '.' by {
        assert(name[i] == extension[i - n - 1]);
    }
    lemma_last_of(name, '.', n, name.len() as int);
    assert(name.take(n) =~= front);
    let hidden = seq!['.'] + extension;
    assert forall|i: int| 0 < i < hidden.len() implies #[trigger] hidden[i] != '.' by {
        assert(hidden[i] == extension[i - 1]);
    }
    lemma_last_of(hidden, '.', 0, hidden.len() as int);
    assert forall|i: int| 0 <= i < extension.len() implies #[trigger] extension[i] != '.' by {}
    lemma_none_of(extension, '.', extension.len() as int);
}

/// A device of an input file without a brand of its own has the name of the file
/// without `.json` for one, and is known to stem from that file.
pub proof fn lemma_file_names_the_brand(stem: Seq<char>, inputs: Seq<DeviceInput>, i: int)
    requires
        stem.len() > 0,
        0 <= i < inputs.len(),
    ensures
        ({
            let all = file_devices(stem + ".json"@, inputs);
            &&& all.len() == inputs.len()
            &&& all[i].name == inputs[i].name@
            &&& inputs[i].brand is None ==> all[i].brand == stem
            &&& inputs[i].brand is Some ==> all[i].brand == inputs[i].brand->0@
            &&& inputs[i].file is None ==> all[i].file == stem + ".json"@
        }),
{
    lemma_named_json(stem, stem + ".json"@);
    lemma_stem_of_input(stem + ".json"@);
    reveal_strlit(".json");
    assert((stem + ".json"@).take(stem.len() as int) =~= stem);
}

} // verus!
