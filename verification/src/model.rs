//! Devices and their model rows.

use crate::number;
use crate::text;
use vstd::prelude::*;

verus! {

broadcast use vstd::string::group_string_axioms;

/// One model row, e.g. `` `A1332`: iPhone 4 `` or `` `E2104` `E2105`: Xperia E4 ``
#[derive(Debug, Clone)]
pub struct Model {
    pub ids: Vec<String>,
    pub market_name: String,
}

/// A device entry.
#[derive(Debug, Clone)]
pub struct Device {
    /// Sequential id, also the label of the device's vector.
    pub id: u32,
    pub brand: String,
    /// Source file name, e.g. "apple_all.json" / "brands/example.json"
    pub file: String,
    /// Series name, empty when absent.
    pub series: String,
    /// Device code, e.g. N82AP / X1. Empty when absent.
    pub code: String,
    /// Display name, e.g. "iPhone 4"
    pub name: String,
    /// Codename, e.g. "iPhone3,1" / "mione_plus". Empty when absent.
    pub codename: String,
    pub models: Vec<Model>,
}

/// The contents of a model row.
pub struct ModelView {
    pub ids: Seq<Seq<char>>,
    pub market_name: Seq<char>,
}

/// The contents of a device.
pub struct DeviceView {
    pub id: u32,
    pub brand: Seq<char>,
    pub file: Seq<char>,
    pub series: Seq<char>,
    pub code: Seq<char>,
    pub name: Seq<char>,
    pub codename: Seq<char>,
    pub models: Seq<ModelView>,
}

impl View for Model {
    type V = ModelView;

    open spec fn view(&self) -> ModelView {
        ModelView { ids: text::strs(self.ids@), market_name: self.market_name@ }
    }
}

/// The contents of a list of model rows.
pub open spec fn models_view(v: Seq<Model>) -> Seq<ModelView> {
    Seq::new(v.len(), |i: int| v[i]@)
}

impl View for Device {
    type V = DeviceView;

    open spec fn view(&self) -> DeviceView {
        DeviceView {
            id: self.id,
            brand: self.brand@,
            file: self.file@,
            series: self.series@,
            code: self.code@,
            name: self.name@,
            codename: self.codename@,
            models: models_view(self.models@),
        }
    }
}

/// The ids and the market name of every model row, in order.
pub open spec fn model_texts(models: Seq<ModelView>) -> Seq<Seq<char>>
    decreases models.len(),
{
    if models.len() == 0 {
        Seq::empty()
    } else {
        model_texts(models.drop_last()) + models.last().ids.push(models.last().market_name)
    }
}

/// The line that shows one model row.
pub open spec fn model_line(m: ModelView) -> Seq<char> {
    text::joined(m.ids, "/"@) + ": "@ + m.market_name
}

/// The lines of the first model rows.
pub open spec fn model_lines(models: Seq<ModelView>) -> Seq<Seq<char>> {
    Seq::new(models.len(), |i: int| model_line(models[i]))
}

impl DeviceView {
    /// The texts that a search sees.
    pub open spec fn search_texts(self) -> Seq<Seq<char>> {
        seq![self.brand, self.series, self.name, self.code, self.codename] + model_texts(
            self.models,
        )
    }

    /// One line with the names of the device.
    pub open spec fn headline(self) -> Seq<char> {
        "#"@ + number::decimal(self.id as nat) + " ["@ + self.brand + "] "@ + self.name
            + " (series: "@ + self.series + ", code: "@ + self.code + ", codename: "@
            + self.codename + ")"@
    }

    /// The headline, and a second line with the first four model rows where
    /// there are any.
    pub open spec fn summary(self) -> Seq<char> {
        if self.models.len() == 0 {
            self.headline()
        } else {
            let shown = if self.models.len() < 4 {
                self.models
            } else {
                self.models.take(4)
            };
            self.headline() + "\n    models ("@ + number::decimal(self.models.len()) + "): "@
                + text::joined(model_lines(shown), " | "@)
        }
    }
}

impl Device {
    /// Full text used for embedding / semantic search.
    pub fn search_text(&self) -> (r: String)
        ensures
            r@ == text::joined(self@.search_texts(), " "@),
    {
        let mut parts: Vec<String> = Vec::new();
        parts.push(self.brand.clone());
        parts.push(self.series.clone());
        parts.push(self.name.clone());
        parts.push(self.code.clone());
        parts.push(self.codename.clone());
        let ghost names = seq![
            self@.brand,
            self@.series,
            self@.name,
            self@.code,
            self@.codename,
        ];
        assert(text::strs(parts@) =~= names + model_texts(self@.models.take(0)));
        for i in 0..self.models.len()
            invariant
                text::strs(parts@) == names + model_texts(self@.models.take(i as int)),
        {
            let m = &self.models[i];
            let ghost before = text::strs(parts@);
            let ghost shown = self@.models.take(i + 1);
            assert(shown.drop_last() =~= self@.models.take(i as int));
            assert(shown.last() == m@);
            assert(before + text::strs(m.ids@).take(0) =~= before);
            for j in 0..m.ids.len()
                invariant
                    text::strs(parts@) == before + text::strs(m.ids@).take(j as int),
            {
                let ghost earlier = text::strs(parts@);
                parts.push(m.ids[j].clone());
                assert(text::strs(parts@) =~= earlier.push(m.ids@[j as int]@));
                assert(text::strs(parts@) =~= before + text::strs(m.ids@).take(j + 1));
            }
            assert(text::strs(m.ids@).take(m.ids@.len() as int) =~= text::strs(m.ids@));
            let ghost earlier = text::strs(parts@);
            parts.push(m.market_name.clone());
            assert(text::strs(parts@) =~= earlier.push(m.market_name@));
            assert(text::strs(parts@) =~= names + model_texts(shown));
        }
        assert(self@.models.take(self.models@.len() as int) =~= self@.models);
        text::join(&parts, " ")
    }

    /// A short description of the device for people.
    pub fn summary(&self) -> (r: String)
        ensures
            r@ == self@.summary(),
    {
        let mut s: Vec<char> = Vec::new();
        text::append_str(&mut s, "#");
        number::push_decimal(&mut s, self.id as u64);
        text::append_str(&mut s, " [");
        text::append_str(&mut s, self.brand.as_str());
        text::append_str(&mut s, "] ");
        text::append_str(&mut s, self.name.as_str());
        text::append_str(&mut s, " (series: ");
        text::append_str(&mut s, self.series.as_str());
        text::append_str(&mut s, ", code: ");
        text::append_str(&mut s, self.code.as_str());
        text::append_str(&mut s, ", codename: ");
        text::append_str(&mut s, self.codename.as_str());
        text::append_str(&mut s, ")");
        assert(s@ =~= self@.headline());
        if self.models.len() > 0 {
            let n: usize = if self.models.len() < 4 {
                self.models.len()
            } else {
                4
            };
            let ghost shown = self@.models.take(n as int);
            let mut sample: Vec<String> = Vec::new();
            assert(text::strs(sample@) =~= model_lines(shown).take(0));
            for i in 0..n
                invariant
                    n <= self.models.len(),
                    shown == self@.models.take(n as int),
                    text::strs(sample@) == model_lines(shown).take(i as int),
            {
                let m = &self.models[i];
                let ghost before = text::strs(sample@);
                let mut line: Vec<char> = Vec::new();
                text::append_str(&mut line, text::join(&m.ids, "/").as_str());
                text::append_str(&mut line, ": ");
                text::append_str(&mut line, m.market_name.as_str());
                assert(line@ =~= model_line(m@));
                let shown_line = text::string_of(line.as_slice());
                sample.push(shown_line);
                assert(text::strs(sample@) =~= before.push(shown_line@));
                assert(shown[i as int] == m@);
                assert(text::strs(sample@) =~= model_lines(shown).take(i + 1));
            }
            assert(model_lines(shown).take(n as int) =~= model_lines(shown));
            assert(self.models@.len() < 4 ==> shown =~= self@.models);
            text::append_str(&mut s, "\n    models (");
            number::push_decimal(&mut s, self.models.len() as u64);
            text::append_str(&mut s, "): ");
            text::append_str(&mut s, text::join(&sample, " | ").as_str());
            assert(s@ =~= self@.summary());
        }
        text::string_of(s.as_slice())
    }
}

/// The contents of a list of devices.
pub open spec fn devices_view(v: Seq<Device>) -> Seq<DeviceView> {
    Seq::new(v.len(), |i: int| v[i]@)
}

proof fn lemma_model_texts(models: Seq<ModelView>, r: int)
    requires
        0 <= r < models.len(),
    ensures
        model_texts(models).contains(models[r].market_name),
        forall|j: int|
            0 <= j < models[r].ids.len() ==> model_texts(models).contains(
                #[trigger] models[r].ids[j],
            ),
    decreases models.len(),
{
    let before = model_texts(models.drop_last());
    let more = models.last().ids.push(models.last().market_name);
    let all = model_texts(models);
    if r == models.len() - 1 {
        assert(all[before.len() + more.len() - 1] == models[r].market_name);
        assert forall|j: int| 0 <= j < models[r].ids.len() implies all.contains(
            #[trigger] models[r].ids[j],
        ) by {
            assert(all[before.len() + j] == models[r].ids[j]);
        }
    } else {
        lemma_model_texts(models.drop_last(), r);
        assert(models.drop_last()[r] == models[r]);
        let x = models[r].market_name;
        let k = choose|k: int| 0 <= k < before.len() && before[k] == x;
        assert(all[k] == x);
        assert forall|j: int| 0 <= j < models[r].ids.len() implies all.contains(
            #[trigger] models[r].ids[j],
        ) by {
            let y = models[r].ids[j];
            assert(before.contains(models.drop_last()[r].ids[j]));
            let k = choose|k: int| 0 <= k < before.len() && before[k] == y;
            assert(all[k] == y);
        }
    }
}

/// A search sees all names of a device: its text contains the brand, the series, the
/// name, the code, the codename, and each model id and market name.
pub proof fn lemma_search_sees(d: DeviceView, r: int, j: int)
    ensures
        ({
            let seen = text::joined(d.search_texts(), " "@);
            &&& text::has(seen, d.brand)
            &&& text::has(seen, d.series)
            &&& text::has(seen, d.name)
            &&& text::has(seen, d.code)
            &&& text::has(seen, d.codename)
            &&& 0 <= r < d.models.len() ==> text::has(seen, d.models[r].market_name)
            &&& 0 <= r < d.models.len() && 0 <= j < d.models[r].ids.len() ==> text::has(
                seen,
                d.models[r].ids[j],
            )
        }),
{
    let all = d.search_texts();
    let head = seq![d.brand, d.series, d.name, d.code, d.codename];
    assert(all[0] == d.brand && all[1] == d.series && all[2] == d.name && all[3] == d.code && all[4]
        == d.codename);
    text::lemma_joined_has(all, " "@, 0);
    text::lemma_joined_has(all, " "@, 1);
    text::lemma_joined_has(all, " "@, 2);
    text::lemma_joined_has(all, " "@, 3);
    text::lemma_joined_has(all, " "@, 4);
    if 0 <= r < d.models.len() {
        let rows = model_texts(d.models);
        lemma_model_texts(d.models, r);
        let k = choose|k: int| 0 <= k < rows.len() && rows[k] == d.models[r].market_name;
        assert(all[5 + k] == rows[k]);
        text::lemma_joined_has(all, " "@, 5 + k);
        if 0 <= j < d.models[r].ids.len() {
            assert(rows.contains(d.models[r].ids[j]));
            let k = choose|k: int| 0 <= k < rows.len() && rows[k] == d.models[r].ids[j];
            assert(all[5 + k] == rows[k]);
            text::lemma_joined_has(all, " "@, 5 + k);
        }
    }
}

/// A summary shows the number, the brand, the name, the series, the code and the
/// codename of a device, how many model rows it has, and the first four of them with
/// all their ids.
pub proof fn lemma_summary_shows(d: DeviceView, r: int, j: int)
    ensures
        text::has(d.summary(), number::decimal(d.id as nat)),
        text::has(d.summary(), d.brand),
        text::has(d.summary(), d.name),
        text::has(d.summary(), d.series),
        text::has(d.summary(), d.code),
        text::has(d.summary(), d.codename),
        d.models.len() > 0 ==> text::has(d.summary(), number::decimal(d.models.len())),
        0 <= r < d.models.len() && r < 4 ==> text::has(d.summary(), d.models[r].market_name),
        0 <= r < d.models.len() && r < 4 && 0 <= j < d.models[r].ids.len() ==> text::has(
            d.summary(),
            d.models[r].ids[j],
        ),
{
    let id = number::decimal(d.id as nat);
    let h0 = Seq::<char>::empty() + "#"@ + id;
    let h1 = h0 + " ["@ + d.brand;
    let h2 = h1 + "] "@ + d.name;
    let h3 = h2 + " (series: "@ + d.series;
    let h4 = h3 + ", code: "@ + d.code;
    let h5 = h4 + ", codename: "@ + d.codename;
    let h6 = h5 + ")"@ + Seq::<char>::empty();
    lemma_shown(Seq::empty(), "#"@, id);
    lemma_shown(h0, " ["@, d.brand);
    lemma_shown(h1, "] "@, d.name);
    lemma_shown(h2, " (series: "@, d.series);
    lemma_shown(h3, ", code: "@, d.code);
    lemma_shown(h4, ", codename: "@, d.codename);
    lemma_shown(h5, ")"@, Seq::empty());
    assert(h0 =~= "#"@ + id);
    assert(h6 =~= d.headline());
    if d.models.len() > 0 {
        let shown = if d.models.len() < 4 {
            d.models
        } else {
            d.models.take(4)
        };
        let rows = text::joined(model_lines(shown), " | "@);
        let count = number::decimal(d.models.len());
        let h7 = h6 + "\n    models ("@ + count;
        let h8 = h7 + "): "@ + rows;
        lemma_shown(h6, "\n    models ("@, count);
        lemma_shown(h7, "): "@, rows);
        assert(h8 == d.summary());
        if 0 <= r < d.models.len() && r < 4 {
            lemma_row_shown(d, shown, h7 + "): "@, r, j);
        }
    }
}

proof fn lemma_row_shown(d: DeviceView, shown: Seq<ModelView>, before: Seq<char>, r: int, j: int)
    requires
        0 <= r < shown.len(),
        d.summary() == before + text::joined(model_lines(shown), " | "@),
    ensures
        text::has(d.summary(), shown[r].market_name),
        0 <= j < shown[r].ids.len() ==> text::has(d.summary(), shown[r].ids[j]),
{
    let none = Seq::<char>::empty();
    let rows = text::joined(model_lines(shown), " | "@);
    let m = shown[r];
    let line = model_line(m);
    let ids = text::joined(m.ids, "/"@);
    assert(model_lines(shown)[r] == line);
    text::lemma_joined_has(model_lines(shown), " | "@, r);
    assert(before + rows + none =~= d.summary());
    lemma_shown(ids, ": "@, m.market_name);
    lemma_has_through(d.summary(), before, rows, line, m.market_name);
    if 0 <= j < m.ids.len() {
        text::lemma_joined_has(m.ids, "/"@, j);
        lemma_has_through(d.summary(), before, rows, line, m.ids[j]);
    }
}

/// What is found in the front of a text is found in the text, and so is its end.
proof fn lemma_shown(x: Seq<char>, lit: Seq<char>, f: Seq<char>)
    ensures
        text::has(x + lit + f, f),
        forall|p: Seq<char>| #[trigger] text::has(x, p) ==> text::has(x + lit + f, p),
{
    let none = Seq::<char>::empty();
    text::lemma_has_between(x + lit, f, none, none);
    assert(x + lit + f + none =~= x + lit + f);
    assert forall|p: Seq<char>| #[trigger] text::has(x, p) implies text::has(x + lit + f, p) by {
        text::lemma_has_within(none, x, lit + f, p);
        assert(none + x + (lit + f) =~= x + lit + f);
    }
}

proof fn lemma_has_through(
    all: Seq<char>,
    before: Seq<char>,
    rows: Seq<char>,
    line: Seq<char>,
    x: Seq<char>,
)
    requires
        all == before + rows + Seq::<char>::empty(),
        text::has(rows, line),
        text::has(line, x),
    ensures
        text::has(all, x),
{
    text::lemma_has_between(Seq::empty(), line, Seq::empty(), rows);
    let (a, b) = choose|a: Seq<char>, b: Seq<char>| rows == #[trigger] (a + line + b);
    text::lemma_has_within(a, line, b, x);
    text::lemma_has_within(before, rows, Seq::empty(), x);
}

} // verus!
