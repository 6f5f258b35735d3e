//! Network access certificates of phones (进网许可).
//!
//! The service answers a query for a span of registration dates with at most 30
//! records, so a span with more of them is bisected. Only phones of the LTE and
//! 5G generations are collected, one pass for each, and a model is taken once.
//! What was collected before is loaded first and kept.

use crate::collector::dates;
use crate::collector::entry;
use crate::collector::entry::DeviceEntry;
use crate::collector::url;
use crate::json;
use crate::json::Json;
use crate::json::JsonView;
use crate::seen::SeenSet;
use crate::text;
use vstd::prelude::*;
use vstd::utf8::encode_utf8;

verus! {

broadcast use vstd::string::group_string_axioms;

/// The certificate query of the service.
pub const TENAA_API: &'static str =
    "https://jwxk.miit.gov.cn/dev-api-20/internetService/CertificateQuery";

/// The number of records in a full answer.
pub const PAGE: usize = 30;

/// The most queries of one collection.
pub const MAX_QUERIES: usize = 6000;

/// The most bisections of a window.
pub const MAX_DEPTH: usize = 20;

/// The most attempts to ask for a window.
pub const ATTEMPTS: usize = 3;

/// The number of passes.
pub const PASSES: usize = 2;

/// Whether to ask for a window again after an attempt failed; attempts are counted
/// from 0 on.
pub fn asks_again(attempt: usize) -> (r: bool)
    ensures
        r == (attempt + 1 < ATTEMPTS),
{
    attempt < ATTEMPTS - 1
}

// ---------------------------------------------------------------------------
// Brands
// ---------------------------------------------------------------------------

/// What a company name contains, and the brand that it stands for.
pub open spec fn brand_rules() -> Seq<(Seq<char>, Seq<char>)> {
    seq![
        ("小米"@, "小米"@),
        ("华为"@, "华为"@),
        ("OPPO"@, "OPPO"@),
        ("维沃"@, "vivo"@),
        ("荣耀"@, "荣耀"@),
        ("中兴"@, "中兴"@),
        ("努比亚"@, "努比亚"@),
        ("三星"@, "三星"@),
        ("苹果"@, "Apple"@),
        ("诺基亚"@, "诺基亚"@),
        ("摩托罗拉"@, "摩托罗拉"@),
        ("联想"@, "联想"@),
        ("索尼"@, "索尼"@),
        ("魅族"@, "魅族"@),
        ("一加"@, "一加"@),
        ("真我"@, "真我"@),
        ("酷派"@, "酷派"@),
        ("TCL"@, "TCL"@),
        ("金立"@, "金立"@),
        ("360"@, "360"@),
    ]
}

/// The brand of the first rule from position `i` that applies; the company name
/// itself where none does.
pub open spec fn brand_from(
    rules: Seq<(Seq<char>, Seq<char>)>,
    org: Seq<char>,
    i: int,
) -> Seq<char>
    decreases rules.len() - i,
{
    if i < 0 || i >= rules.len() {
        org
    } else if text::has(org, rules[i].0) {
        rules[i].1
    } else {
        brand_from(rules, org, i + 1)
    }
}

/// The brand of a company.
pub open spec fn cn_brand(org: Seq<char>) -> Seq<char> {
    brand_from(brand_rules(), org, 0)
}

/// The characters with which the rules begin.
pub open spec fn rule_heads() -> Seq<char> {
    seq![
        '小', '华', 'O', '维', '荣', '中', '努', '三', '苹', '诺', '摩', '联', '索', '魅', '一',
        '真', '酷', 'T', '金', '3',
    ]
}

/// Rules that do not apply are passed over.
proof fn lemma_rules_passed(org: Seq<char>, i: int, n: int)
    requires
        0 <= i <= n <= brand_rules().len(),
        forall|j: int| i <= j < n ==> !text::has(org, (#[trigger] brand_rules()[j]).0),
    ensures
        brand_from(brand_rules(), org, i) == brand_from(brand_rules(), org, n),
    decreases n - i,
{
    if i < n {
        lemma_rules_passed(org, i + 1, n);
    }
}

proof fn lemma_rule_heads(j: int)
    requires
        0 <= j < 20,
    ensures
        brand_rules()[j].0.len() > 0,
        brand_rules()[j].0[0] == rule_heads()[j],
{
    reveal_strlit("小米");
    reveal_strlit("华为");
    reveal_strlit("OPPO");
    reveal_strlit("维沃");
    reveal_strlit("荣耀");
    reveal_strlit("中兴");
    reveal_strlit("努比亚");
    reveal_strlit("三星");
    reveal_strlit("苹果");
    reveal_strlit("诺基亚");
    reveal_strlit("摩托罗拉");
    reveal_strlit("联想");
    reveal_strlit("索尼");
    reveal_strlit("魅族");
    reveal_strlit("一加");
    reveal_strlit("真我");
    reveal_strlit("酷派");
    reveal_strlit("TCL");
    reveal_strlit("金立");
    reveal_strlit("360");
}

/// A text without the character with which a rule begins does not contain what the
/// rule looks for.
proof fn lemma_rule_needs_head(s: Seq<char>, j: int)
    requires
        0 <= j < 20,
        forall|p: int| 0 <= p < s.len() ==> #[trigger] s[p] != rule_heads()[j],
    ensures
        !text::has(s, brand_rules()[j].0),
{
    let key = brand_rules()[j].0;
    lemma_rule_heads(j);
    text::lemma_index_from(s, key, 0);
    match text::index_of(s, key) {
        Some(i) => {
            assert(s.subrange(i, i + key.len())[0] == s[i]);
        },
        None => {},
    }
}

/// No character of a brand is one with which the rule of another brand begins.
proof fn lemma_brand_characters(n: int, j: int, p: int)
    requires
        0 <= n < 20,
        0 <= j < 20,
        0 <= p < brand_rules()[n].1.len(),
        n != j || n == 3 || n == 8,
    ensures
        brand_rules()[n].1[p] != rule_heads()[j],
{
    reveal_strlit("小米");
    reveal_strlit("华为");
    reveal_strlit("OPPO");
    reveal_strlit("vivo");
    reveal_strlit("荣耀");
    reveal_strlit("中兴");
    reveal_strlit("努比亚");
    reveal_strlit("三星");
    reveal_strlit("Apple");
    reveal_strlit("诺基亚");
    reveal_strlit("摩托罗拉");
    reveal_strlit("联想");
    reveal_strlit("索尼");
    reveal_strlit("魅族");
    reveal_strlit("一加");
    reveal_strlit("真我");
    reveal_strlit("酷派");
    reveal_strlit("TCL");
    reveal_strlit("金立");
    reveal_strlit("360");
}

/// The brand of a rule is its own brand.
proof fn lemma_brand_stays(n: int)
    requires
        0 <= n < 20,
    ensures
        cn_brand(brand_rules()[n].1) == brand_rules()[n].1,
{
    let b = brand_rules()[n].1;
    let known = n == 3 || n == 8;
    assert forall|j: int| 0 <= j < 20 && (n != j || known) implies !text::has(
        b,
        (#[trigger] brand_rules()[j]).0,
    ) by {
        assert forall|p: int| 0 <= p < b.len() implies #[trigger] b[p] != rule_heads()[j] by {
            lemma_brand_characters(n, j, p);
        }
        lemma_rule_needs_head(b, j);
    }
    if known {
        lemma_rules_passed(b, 0, 20);
    } else {
        lemma_rules_passed(b, 0, n);
        assert(brand_rules()[n].0 == b);
        text::lemma_index_from(b, b, 0);
        assert(b.subrange(0, b.len() as int) =~= b);
        assert(text::occurs_at(b, b, 0));
    }
}

/// The first rule from a position on that applies, if one does, gives the brand.
proof fn lemma_brand_is_of_a_rule(org: Seq<char>, i: int)
    requires
        0 <= i <= 20,
    ensures
        brand_from(brand_rules(), org, i) == org || exists|n: int|
            0 <= n < 20 && brand_from(brand_rules(), org, i) == (#[trigger] brand_rules()[n]).1,
    decreases 20 - i,
{
    if i < 20 && !text::has(org, brand_rules()[i].0) {
        lemma_brand_is_of_a_rule(org, i + 1);
    }
}

/// A brand is its own brand: normalizing twice is normalizing once.
pub proof fn lemma_cn_brand_idempotent(org: Seq<char>)
    ensures
        cn_brand(cn_brand(org)) == cn_brand(org),
{
    lemma_brand_is_of_a_rule(org, 0);
    if cn_brand(org) != org {
        let n = choose|n: int|
            0 <= n < 20 && cn_brand(org) == (#[trigger] brand_rules()[n]).1;
        lemma_brand_stays(n);
    }
}

/// A company that no rule knows keeps its name, and of several rules that apply the
/// first decides.
pub proof fn lemma_first_rule_decides(org: Seq<char>, n: int)
    requires
        0 <= n <= brand_rules().len(),
        forall|j: int| 0 <= j < n ==> !text::has(org, (#[trigger] brand_rules()[j]).0),
        n < brand_rules().len() ==> text::has(org, brand_rules()[n].0),
    ensures
        cn_brand(org) == if n < brand_rules().len() {
            brand_rules()[n].1
        } else {
            org
        },
{
    lemma_rules_passed(org, 0, n);
}

/// The brand of a company: the first rule whose text its name contains decides,
/// and a company that no rule knows keeps its name.
pub fn normalize_cn_brand(org: &str) -> (r: String)
    ensures
        r@ == cn_brand(org@),
{
    let rules: [(&str, &str); 20] = [
        ("小米", "小米"),
        ("华为", "华为"),
        ("OPPO", "OPPO"),
        ("维沃", "vivo"),
        ("荣耀", "荣耀"),
        ("中兴", "中兴"),
        ("努比亚", "努比亚"),
        ("三星", "三星"),
        ("苹果", "Apple"),
        ("诺基亚", "诺基亚"),
        ("摩托罗拉", "摩托罗拉"),
        ("联想", "联想"),
        ("索尼", "索尼"),
        ("魅族", "魅族"),
        ("一加", "一加"),
        ("真我", "真我"),
        ("酷派", "酷派"),
        ("TCL", "TCL"),
        ("金立", "金立"),
        ("360", "360"),
    ];
    let ghost all = Seq::new(20, |i: int| (rules@[i].0@, rules@[i].1@));
    assert(all =~= brand_rules());
    let name = text::chars_of(org);
    let mut i: usize = 0;
    while i < 20
        invariant
            i <= 20,
            name@ == org@,
            all == brand_rules(),
            all == Seq::new(20, |i: int| (rules@[i].0@, rules@[i].1@)),
            cn_brand(org@) == brand_from(all, org@, i as int),
        decreases 20 - i,
    {
        let rule = rules[i];
        assert(all[i as int] == (rule.0@, rule.1@));
        if text::contains_str(name.as_slice(), rule.0) {
            return rule.1.to_owned();
        }
        i = i + 1;
    }
    org.to_owned()
}

// ---------------------------------------------------------------------------
// Records
// ---------------------------------------------------------------------------

/// Where a collected device comes from: a position in the file collected before,
/// or a record of the service.
pub enum Source {
    Kept(usize),
    New(DeviceEntry),
}

/// The contents of a source.
pub enum SourceView {
    Kept(usize),
    New(entry::EntryView),
}

/// A collected device with the model by which it is recognised.
pub struct Item {
    pub model: String,
    pub source: Source,
}

/// The contents of an item.
pub struct ItemView {
    pub model: Seq<char>,
    pub source: SourceView,
}

impl View for Item {
    type V = ItemView;

    open spec fn view(&self) -> ItemView {
        ItemView {
            model: self.model@,
            source: match self.source {
                Source::Kept(i) => SourceView::Kept(i),
                Source::New(e) => SourceView::New(e@),
            },
        }
    }
}

/// The contents of a list of items.
pub open spec fn items_view(v: Seq<Item>) -> Seq<ItemView> {
    Seq::new(v.len(), |i: int| v[i]@)
}

/// A list of that length reaches the limit.
pub open spec fn full(len: nat, limit: Option<usize>) -> bool {
    limit matches Some(l) && len >= l
}

/// The trimmed text of a field of a record; empty where it is missing.
pub open spec fn field(record: JsonView, name: Seq<char>) -> Seq<char> {
    text::trimmed(record.get(name).text_or_empty())
}

/// The device of a record. Only phones with a model number give one.
pub open spec fn record_item(record: JsonView) -> Option<ItemView> {
    let name = field(record, "equipmentName"@);
    let model = field(record, "equipmentModel"@);
    if text::has(name, "数字移动电话机"@) && model.len() > 0 {
        Some(
            ItemView {
                model,
                source: SourceView::New(
                    entry::EntryView {
                        brand: cn_brand(field(record, "applyOrg"@)),
                        name,
                        series: Some("进网许可"@),
                        code: Some(record.get("licenseNo"@).text_or_empty()),
                        codename: None,
                        models: entry::one_model(seq![model], name),
                    },
                ),
            },
        )
    } else {
        None
    }
}

/// What has been collected: the devices, and the models that were met.
pub struct Found {
    pub items: Seq<ItemView>,
    pub seen: Set<Seq<Seq<char>>>,
}

/// What has been collected after one more device: it is added where its model is
/// new.
pub open spec fn with_item(f: Found, item: ItemView) -> Found {
    if f.seen.contains(seq![item.model]) {
        f
    } else {
        Found { items: f.items.push(item), seen: f.seen.insert(seq![item.model]) }
    }
}

/// What has been collected after the records from position `i`. Where a device
/// fills the limit, the records behind it are passed over.
pub open spec fn absorbed(
    f: Found,
    records: Seq<JsonView>,
    limit: Option<usize>,
    i: int,
) -> Found
    decreases records.len() - i,
{
    if i < 0 || i >= records.len() {
        f
    } else {
        match record_item(records[i]) {
            Some(item) if !f.seen.contains(seq![item.model]) => {
                let g = with_item(f, item);
                if full(g.items.len(), limit) {
                    g
                } else {
                    absorbed(g, records, limit, i + 1)
                }
            },
            _ => absorbed(f, records, limit, i + 1),
        }
    }
}

/// The trimmed text of a field of a record.
fn read_field(record: &Json, name: &str) -> (r: String)
    ensures
        r@ == field(record@, name@),
{
    let v = json::text_or_empty(json::get(Some(record), name));
    text::trim_str(v.as_str())
}

/// The device of a record.
fn read_record(record: &Json) -> (r: Option<Item>)
    ensures
        match r {
            Some(item) => record_item(record@) == Some(item@),
            None => record_item(record@) is None,
        },
{
    let name = read_field(record, "equipmentName");
    let name_chars = text::chars_of(name.as_str());
    if !text::contains_str(name_chars.as_slice(), "数字移动电话机") {
        return None;
    }
    let model = read_field(record, "equipmentModel");
    if model.as_str().is_empty() {
        return None;
    }
    let brand = normalize_cn_brand(read_field(record, "applyOrg").as_str());
    let code = json::text_or_empty(json::get(Some(record), "licenseNo"));
    let models = entry::single_model(entry::one_string(model.clone()), name.clone());
    Some(
        Item {
            model,
            source: Source::New(
                DeviceEntry {
                    brand,
                    name,
                    series: Some("进网许可".to_owned()),
                    code: Some(code),
                    codename: None,
                    models,
                },
            ),
        },
    )
}

/// No model is met twice among the items, and each of them counts as met.
pub open spec fn each_model_once(f: Found) -> bool {
    &&& forall|i: int, j: int|
        0 <= i < j < f.items.len() ==> (#[trigger] f.items[i]).model != (
        #[trigger] f.items[j]).model
    &&& forall|i: int| 0 <= i < f.items.len() ==> f.seen.contains(seq![#[trigger] f.items[i].model])
}

/// Adding a device keeps each model to one device.
pub proof fn lemma_with_item_keeps_models_apart(f: Found, item: ItemView)
    requires
        each_model_once(f),
    ensures
        each_model_once(with_item(f, item)),
{
    let g = with_item(f, item);
    if !f.seen.contains(seq![item.model]) {
        assert forall|i: int, j: int| 0 <= i < j < g.items.len() implies (
        #[trigger] g.items[i]).model != (#[trigger] g.items[j]).model by {
            assert(f.items[i] == g.items[i]);
            assert(f.seen.contains(seq![f.items[i].model]));
        }
        assert forall|i: int| 0 <= i < g.items.len() implies g.seen.contains(
            seq![#[trigger] g.items[i].model],
        ) by {
            if i < f.items.len() {
                assert(f.items[i] == g.items[i]);
                assert(f.seen.contains(seq![f.items[i].model]));
            }
        }
    }
}

/// However many records are taken: each model is kept to one device, the devices
/// there stay in their places, and the limit is not passed.
pub proof fn lemma_absorbed(f: Found, records: Seq<JsonView>, limit: Option<usize>, i: int)
    requires
        each_model_once(f),
        !full(f.items.len(), limit),
    ensures
        each_model_once(absorbed(f, records, limit, i)),
        f.items.len() <= absorbed(f, records, limit, i).items.len(),
        f.items == absorbed(f, records, limit, i).items.take(f.items.len() as int),
        limit matches Some(l) ==> absorbed(f, records, limit, i).items.len() <= l,
    decreases records.len() - i,
{
    if 0 <= i < records.len() {
        match record_item(records[i]) {
            Some(item) if !f.seen.contains(seq![item.model]) => {
                let g = with_item(f, item);
                lemma_with_item_keeps_models_apart(f, item);
                assert(g.items.take(f.items.len() as int) =~= f.items);
                if !full(g.items.len(), limit) {
                    lemma_absorbed(g, records, limit, i + 1);
                    let all = absorbed(g, records, limit, i + 1);
                    assert(all.items.take(f.items.len() as int) =~= g.items.take(
                        f.items.len() as int,
                    ));
                }
            },
            _ => {
                lemma_absorbed(f, records, limit, i + 1);
            },
        }
    } else {
        assert(f.items.take(f.items.len() as int) =~= f.items);
    }
}

// ---------------------------------------------------------------------------
// What was collected before
// ---------------------------------------------------------------------------

/// The name of a phone of the LTE or 5G generation.
pub open spec fn modern(name: Seq<char>) -> bool {
    text::has(name, "数字移动电话机"@) && (text::has(name, "5G"@) || text::has(name, "LTE"@))
}

/// The model of a device of a collected file, where the device is to be kept.
pub open spec fn kept_model(device: JsonView) -> Option<Seq<char>> {
    match device.get("name"@).text() {
        Some(name) if modern(name) => device.get("models"@).at(0).get("ids"@).at(0).text(),
        _ => None,
    }
}

/// What is kept of the first `n` devices of a collected file.
pub open spec fn kept(devices: Seq<JsonView>, n: nat) -> Found
    decreases n,
{
    if n == 0 {
        Found { items: Seq::empty(), seen: Set::empty() }
    } else {
        let before = kept(devices, (n - 1) as nat);
        match kept_model(devices[n - 1]) {
            Some(model) => with_item(
                before,
                ItemView { model, source: SourceView::Kept((n - 1) as usize) },
            ),
            None => before,
        }
    }
}

/// What is kept of a collected file: nothing where the text is no JSON array.
pub open spec fn kept_of(file: Option<JsonView>) -> Found {
    match file {
        Some(v) => kept(v.items(), v.items().len()),
        None => kept(Seq::empty(), 0),
    }
}

/// Each model is kept once.
pub proof fn lemma_kept_models_apart(devices: Seq<JsonView>, n: nat)
    ensures
        each_model_once(kept(devices, n)),
    decreases n,
{
    if n > 0 {
        lemma_kept_models_apart(devices, (n - 1) as nat);
        match kept_model(devices[n - 1]) {
            Some(model) => lemma_with_item_keeps_models_apart(
                kept(devices, (n - 1) as nat),
                ItemView { model, source: SourceView::Kept((n - 1) as usize) },
            ),
            None => {},
        }
    }
}

/// Whether a name is that of a modern phone.
fn is_modern(name: &str) -> (r: bool)
    ensures
        r == modern(name@),
{
    let s = text::chars_of(name);
    text::contains_str(s.as_slice(), "数字移动电话机") && (text::contains_str(s.as_slice(), "5G")
        || text::contains_str(s.as_slice(), "LTE"))
}

/// The model of a device that is to be kept.
fn read_kept_model(device: &Json) -> (r: Option<String>)
    ensures
        text::opt_str(r) == kept_model(device@),
{
    match json::text(json::get(Some(device), "name")) {
        Some(name) => {
            if is_modern(name) {
                let models = json::get(Some(device), "models");
                let ids = json::get(json::at(models, 0), "ids");
                match json::text(json::at(ids, 0)) {
                    Some(model) => Some(model.to_owned()),
                    None => None,
                }
            } else {
                None
            }
        },
        None => None,
    }
}

// ---------------------------------------------------------------------------
// Windows
// ---------------------------------------------------------------------------

/// A span of registration dates, and how often it was bisected.
pub struct Window {
    pub start: String,
    pub end: String,
    pub depth: usize,
}

/// The contents of a window.
pub struct WindowView {
    pub start: Seq<char>,
    pub end: Seq<char>,
    pub depth: nat,
}

impl View for Window {
    type V = WindowView;

    open spec fn view(&self) -> WindowView {
        WindowView { start: self.start@, end: self.end@, depth: self.depth as nat }
    }
}

/// The contents of a list of windows.
pub open spec fn windows_view(v: Seq<Window>) -> Seq<WindowView> {
    Seq::new(v.len(), |i: int| v[i]@)
}

/// What the passes ask for.
pub open spec fn pass_filter(pass: nat) -> Seq<char> {
    if pass == 0 {
        "5G"@
    } else {
        "LTE"@
    }
}

/// The first date with certificates of a pass.
pub open spec fn pass_start(pass: nat) -> Seq<char> {
    if pass == 0 {
        "2019-01-01"@
    } else {
        "2013-01-01"@
    }
}

/// The whole span of a pass: from the later of its first date and `since`.
pub open spec fn pass_window(pass: nat, since: Option<Seq<char>>) -> WindowView {
    WindowView {
        start: match since {
            Some(s) if !text::less(s, pass_start(pass)) => s,
            _ => pass_start(pass),
        },
        end: "2026-12-31"@,
        depth: 0,
    }
}

/// The middle of a window.
pub open spec fn middle(w: WindowView) -> int {
    dates::half(dates::day_of(w.start) + dates::day_of(w.end))
}

/// The earlier half of a window.
pub open spec fn older_half(w: WindowView) -> WindowView {
    WindowView { start: w.start, end: dates::text_of(middle(w)), depth: w.depth + 1 }
}

/// The later half of a window.
pub open spec fn newer_half(w: WindowView) -> WindowView {
    WindowView { start: dates::text_of(middle(w) + 1), end: w.end, depth: w.depth + 1 }
}

/// A day lies in a window.
pub open spec fn covers(w: WindowView, day: int) -> bool {
    dates::day_of(w.start) <= day <= dates::day_of(w.end)
}

/// Bisects a window into its earlier and its later half. Each day of the window
/// is in one of the halves and no day is in both.
pub fn halves(w: &Window) -> (r: (Window, Window))
    requires
        w.depth < usize::MAX,
    ensures
        r.0@ == older_half(w@),
        r.1@ == newer_half(w@),
        forall|day: int|
            dates::day_of(w.start@) < dates::day_of(w.end@) ==> (#[trigger] covers(w@, day) <==> (
            covers(r.0@, day) || covers(r.1@, day))),
        forall|day: int|
            dates::day_of(w.start@) < dates::day_of(w.end@) ==> !(#[trigger] covers(r.0@, day)
                && covers(r.1@, day)),
        r.0.start@ == w.start@,
        r.1.end@ == w.end@,
        r.0.depth == w.depth + 1,
        r.1.depth == w.depth + 1,
        0 <= dates::day_of(w.start@) < dates::day_of(w.end@) ==> {
            let a = dates::day_of(w.start@);
            let b = dates::day_of(w.end@);
            let mid = dates::day_of(r.0.end@);
            &&& a <= mid < b
            &&& 0 <= a + b - 2 * mid <= 1
            &&& dates::day_of(r.1.start@) == mid + 1
        },
{
    let mid = dates::mid_date(w.start.as_str(), w.end.as_str());
    let end_day: i64 = dates::parse_date(w.end.as_str());
    let start_day: i64 = dates::parse_date(w.start.as_str());
    let next = dates::add_days(mid.as_str(), 1);
    let older = Window { start: w.start.clone(), end: mid, depth: w.depth + 1 };
    let newer = Window { start: next, end: w.end.clone(), depth: w.depth + 1 };
    proof {
        assert forall|day: int|
            dates::day_of(w.start@) < dates::day_of(w.end@) implies (#[trigger] covers(w@, day)
            <==> (covers(older@, day) || covers(newer@, day))) by {
            dates::lemma_halves_partition(start_day as int, end_day as int, day);
        }
    }
    (older, newer)
}

// ---------------------------------------------------------------------------
// The collection
// ---------------------------------------------------------------------------

/// A collection under way. It hands out the windows to ask the service for and
/// takes the replies.
pub struct Crawl {
    pub items: Vec<Item>,
    pub seen: SeenSet,
    pub waiting: Vec<Window>,
    pub passes: usize,
    pub queries: usize,
    pub limit: Option<usize>,
    pub since: Option<String>,
}

/// The contents of a collection: what was found, the windows that wait (the last
/// is next), the passes begun and the queries made.
pub struct CrawlView {
    pub found: Found,
    pub waiting: Seq<WindowView>,
    pub passes: nat,
    pub queries: nat,
    pub limit: Option<usize>,
    pub since: Option<Seq<char>>,
}

impl View for Crawl {
    type V = CrawlView;

    open spec fn view(&self) -> CrawlView {
        CrawlView {
            found: Found { items: items_view(self.items@), seen: self.seen@ },
            waiting: windows_view(self.waiting@),
            passes: self.passes as nat,
            queries: self.queries as nat,
            limit: self.limit,
            since: text::opt_str(self.since),
        }
    }
}

/// What became of a reply.
#[derive(Debug, Clone, Copy, PartialEq, Eq, Structural)]
pub enum Outcome {
    /// The window has no records.
    Empty,
    /// The answer is full of records from before the window.
    Stale,
    /// The answer is full, and the window was bisected.
    Split,
    /// The records were taken.
    Taken,
}

impl CrawlView {
    /// The window may be asked for.
    pub open spec fn allows(self, w: WindowView) -> bool {
        !full(self.found.items.len(), self.limit) && self.queries < MAX_QUERIES && w.depth
            <= MAX_DEPTH
    }

    /// Without the window that is next.
    pub open spec fn popped(self) -> CrawlView {
        CrawlView { waiting: self.waiting.drop_last(), ..self }
    }

    /// With the next pass begun.
    pub open spec fn begun(self) -> CrawlView {
        CrawlView {
            waiting: self.waiting.push(pass_window(self.passes, self.since)),
            passes: self.passes + 1,
            ..self
        }
    }

    /// With one more query counted.
    pub open spec fn counted(self) -> CrawlView {
        CrawlView { queries: self.queries + 1, ..self }
    }

    /// The next window to ask for, and the collection with it handed out. Windows
    /// that may not be asked for are dropped, and a pass begins where no window
    /// waits.
    pub open spec fn advanced(self) -> (CrawlView, Option<WindowView>)
        decreases PASSES - self.passes, self.waiting.len(),
    {
        if self.waiting.len() > 0 {
            if self.allows(self.waiting.last()) {
                (self.popped().counted(), Some(self.waiting.last()))
            } else {
                self.popped().advanced()
            }
        } else if self.passes < PASSES && !full(self.found.items.len(), self.limit) {
            self.begun().advanced()
        } else {
            (self, None)
        }
    }

    /// What a reply to a window amounts to.
    pub open spec fn outcome(self, w: WindowView, reply: JsonView) -> Outcome {
        let records = reply.get("data"@).get("records"@).items();
        if reply.get("code"@).int_or_zero() != 200 || reply.get("data"@) is Null {
            Outcome::Empty
        } else if records.len() >= PAGE && !any_within(records, w.start) {
            Outcome::Stale
        } else if records.len() >= PAGE && text::less(w.start, w.end) {
            Outcome::Split
        } else {
            Outcome::Taken
        }
    }

    /// The collection after a reply to a window.
    pub open spec fn replied(self, w: WindowView, reply: JsonView) -> CrawlView {
        match self.outcome(w, reply) {
            Outcome::Empty => self,
            Outcome::Stale => self,
            Outcome::Split => CrawlView {
                waiting: self.waiting.push(older_half(w)).push(newer_half(w)),
                ..self
            },
            Outcome::Taken => CrawlView {
                found: absorbed(
                    self.found,
                    reply.get("data"@).get("records"@).items(),
                    self.limit,
                    0,
                ),
                ..self
            },
        }
    }
}

/// The record was not registered before a date. A record without a date counts
/// as registered in time.
pub open spec fn within(record: JsonView, start: Seq<char>) -> bool {
    match record.get("regDate"@).text() {
        Some(d) => !text::less(d, start),
        None => true,
    }
}

/// One of the records was not registered before a date.
pub open spec fn any_within(records: Seq<JsonView>, start: Seq<char>) -> bool {
    exists|i: int| 0 <= i < records.len() && within(#[trigger] records[i], start)
}

/// Whether one of the records was not registered before a date.
fn some_within(records: &Vec<&Json>, start: &str) -> (r: bool)
    ensures
        r == exists|i: int| 0 <= i < records@.len() && within((*#[trigger] records@[i])@, start@),
{
    for i in 0..records.len()
        invariant
            forall|k: int| 0 <= k < i ==> !within((*#[trigger] records@[k])@, start@),
    {
        let ok = match json::text(json::get(Some(records[i]), "regDate")) {
            Some(d) => !text::is_less_str(d, start),
            None => true,
        };
        if ok {
            assert(within((*records@[i as int])@, start@));
            return true;
        }
    }
    false
}

/// What is asked for after so many passes were begun.
pub open spec fn current_filter(passes: nat) -> Seq<char> {
    pass_filter(
        if passes == 0 {
            0
        } else {
            (passes - 1) as nat
        },
    )
}

/// The address with which a window is asked for after so many passes were begun.
pub open spec fn window_address(passes: nat, w: WindowView) -> Seq<char> {
    TENAA_API@ + "?isphoto=0&pageNo=1&pageSize=30&equipmentName="@ + url::escaped(
        encode_utf8(current_filter(passes)),
    ) + "&startDate="@ + w.start + "&endDate="@ + w.end
}

impl Crawl {
    /// A collection that begins with what is kept of a file collected before,
    /// given as a JSON value.
    pub fn from_value(file: Option<&Json>, limit: Option<usize>, since: Option<String>) -> (r:
        Self)
        ensures
            r@.found == kept_of(
                match file {
                    Some(v) => Some(v@),
                    None => None,
                },
            ),
            r@.waiting.len() == 0,
            r@.passes == 0,
            r@.queries == 0,
            r@.limit == limit,
            r@.since == text::opt_str(since),
            each_model_once(r@.found),
            met_is_collected(r@.found),
    {
        let devices = json::items(file);
        let ghost all = json::opt_contents(file).items();
        let mut items: Vec<Item> = Vec::new();
        let mut seen = SeenSet::new();
        assert(items_view(items@) =~= Seq::<ItemView>::empty());
        for i in 0..devices.len()
            invariant
                devices@.len() == all.len(),
                forall|k: int| 0 <= k < devices@.len() ==> (*#[trigger] devices@[k])@ == all[k],
                (Found { items: items_view(items@), seen: seen@ }) == kept(all, i as nat),
        {
            let ghost before = items@;
            assert((*devices@[i as int])@ == all[i as int]);
            if let Some(model) = read_kept_model(devices[i]) {
                if seen.insert(entry::one_string(model.clone())) {
                    items.push(Item { model, source: Source::Kept(i) });
                    assert(items_view(items@) =~= items_view(before).push(
                        ItemView { model: model@, source: SourceView::Kept(i) },
                    ));
                } else {
                    assert(seen@ =~= kept(all, i as nat).seen);
                }
            }
        }
        proof {
            lemma_kept_models_apart(all, all.len());
            lemma_kept_met_is_collected(all, all.len());
        }
        let r = Crawl { items, seen, waiting: Vec::new(), passes: 0, queries: 0, limit, since };
        assert(r@.waiting =~= Seq::<WindowView>::empty());
        r
    }

    /// A collection that begins with what is kept of the text of a file collected
    /// before; with nothing where there is none or it is no JSON array.
    pub fn from_file(file: Option<&str>, limit: Option<usize>, since: Option<String>) -> (r: Self)
        ensures
            r@.found == kept_of(
                match file {
                    Some(s) => json::parsed(s@),
                    None => None,
                },
            ),
            r@.waiting.len() == 0,
            r@.passes == 0,
            r@.queries == 0,
            r@.limit == limit,
            r@.since == text::opt_str(since),
            each_model_once(r@.found),
            met_is_collected(r@.found),
    {
        match file {
            Some(s) => match json::parse(s) {
                Ok(v) => Self::from_value(Some(&v), limit, since),
                Err(_) => Self::from_value(None, limit, since),
            },
            None => Self::from_value(None, limit, since),
        }
    }

    /// Whether the window may be asked for.
    fn may_ask(&self, w: &Window) -> (r: bool)
        ensures
            r == self@.allows(w@),
    {
        !entry::reached(self.items.len(), self.limit) && self.queries < MAX_QUERIES && w.depth
            <= MAX_DEPTH
    }

    /// Begins the next pass.
    fn begin_pass(&mut self)
        requires
            old(self).passes < PASSES,
        ensures
            final(self)@ == old(self)@.begun(),
    {
        let first = if self.passes == 0 {
            "2019-01-01"
        } else {
            "2013-01-01"
        };
        let start: String = match &self.since {
            Some(s) => if !text::is_less_str(s.as_str(), first) {
                s.clone()
            } else {
                first.to_owned()
            },
            None => first.to_owned(),
        };
        let w = Window { start, end: "2026-12-31".to_owned(), depth: 0 };
        self.waiting.push(w);
        self.passes = self.passes + 1;
        proof {
            assert(self@.waiting =~= old(self)@.begun().waiting);
            assert(self@.found == old(self)@.found);
        }
    }

    /// The next window to ask the service for; None where the collection is done.
    pub fn advance(&mut self) -> (r: Option<Window>)
        ensures
            final(self)@ == old(self)@.advanced().0,
            match r {
                Some(w) => old(self)@.advanced().1 == Some(w@) && w.depth <= MAX_DEPTH,
                None => old(self)@.advanced().1 is None,
            },
    {
        loop
            invariant
                self@.advanced() == old(self)@.advanced(),
            decreases PASSES - self@.passes, self@.waiting.len(),
        {
            let ghost before = self@;
            match self.waiting.pop() {
                Some(w) => {
                    proof {
                        assert(before.waiting.last() == w@);
                        assert(self@.waiting =~= before.popped().waiting);
                        assert(self@ == before.popped());
                    }
                    if self.may_ask(&w) {
                        self.queries = self.queries + 1;
                        assert(self@ == before.popped().counted());
                        return Some(w);
                    }
                },
                None => {
                    assert(self@ == before);
                    if self.passes < PASSES && !entry::reached(self.items.len(), self.limit) {
                        self.begin_pass();
                    } else {
                        return None;
                    }
                },
            }
        }
    }

    /// What the pass that is under way asks for.
    pub fn filter(&self) -> (r: &'static str)
        ensures
            r@ == current_filter(self@.passes),
    {
        if self.passes <= 1 {
            "5G"
        } else {
            "LTE"
        }
    }

    /// The address with which a window is asked for.
    pub fn url(&self, w: &Window) -> (r: String)
        ensures
            r@ == window_address(self@.passes, w@),
    {
        let mut out: Vec<char> = text::chars_of(TENAA_API);
        text::append_str(&mut out, "?isphoto=0&pageNo=1&pageSize=30&equipmentName=");
        text::append_str(&mut out, url::percent_encode(self.filter()).as_str());
        text::append_str(&mut out, "&startDate=");
        text::append_str(&mut out, w.start.as_str());
        text::append_str(&mut out, "&endDate=");
        text::append_str(&mut out, w.end.as_str());
        text::string_of(out.as_slice())
    }

    /// Takes the records of a reply.
    fn absorb(&mut self, records: &Vec<&Json>)
        ensures
            forall|all: Seq<JsonView>|
                all.len() == records@.len() && (forall|k: int|
                    0 <= k < all.len() ==> (*#[trigger] records@[k])@ == all[k]) ==> final(self)@
                    == (CrawlView {
                    found: #[trigger] absorbed(old(self)@.found, all, old(self).limit, 0),
                    ..old(self)@
                }),
    {
        let ghost all = Seq::new(records@.len(), |k: int| (*records@[k])@);
        let ghost goal = absorbed(self@.found, all, self.limit, 0);
        let ghost start = self@;
        let mut i: usize = 0;
        let mut open = true;
        while open && i < records.len()
            invariant
                i <= records@.len(),
                all == Seq::new(records@.len(), |k: int| (*records@[k])@),
                self@ == (CrawlView { found: self@.found, ..start }),
                start == old(self)@,
                goal == absorbed(old(self)@.found, all, old(self).limit, 0),
                open ==> goal == absorbed(self@.found, all, self.limit, i as int),
                !open ==> goal == self@.found,
            decreases records.len() - i,
        {
            let ghost before = self@.found;
            assert(all[i as int] == (*records@[i as int])@);
            if let Some(item) = read_record(records[i]) {
                if self.seen.insert(entry::one_string(item.model.clone())) {
                    let ghost iv = item@;
                    self.items.push(item);
                    proof {
                        assert(items_view(self.items@) =~= before.items.push(iv));
                        assert(self@.found == with_item(before, iv));
                    }
                    if entry::reached(self.items.len(), self.limit) {
                        open = false;
                    }
                } else {
                    assert(self.seen@ =~= before.seen);
                    assert(self@.found == before);
                }
            }
            i = i + 1;
        }
        proof {
            assert forall|v: Seq<JsonView>|
                v.len() == records@.len() && (forall|k: int|
                    0 <= k < v.len() ==> (*#[trigger] records@[k])@ == v[k]) implies self@ == (
            CrawlView { found: #[trigger] absorbed(start.found, v, start.limit, 0), ..start }) by {
                assert(v =~= all);
            }
        }
    }

    /// Takes the reply to a window, given as a JSON value.
    pub fn take_value(&mut self, w: &Window, reply: Option<&Json>) -> (r: Outcome)
        requires
            w.depth < usize::MAX,
        ensures
            r == old(self)@.outcome(w@, json::opt_contents(reply)),
            final(self)@ == old(self)@.replied(w@, json::opt_contents(reply)),
    {
        let data = json::get(reply, "data");
        if json::int_or_zero(json::get(reply, "code")) != 200 || json::is_null(data) {
            return Outcome::Empty;
        }
        let records = json::items(json::get(data, "records"));
        let ghost all = json::opt_contents(reply).get("data"@).get("records"@).items();
        let fresh = some_within(&records, w.start.as_str());
        proof {
            if fresh {
                let k = choose|k: int|
                    0 <= k < records@.len() && within((*#[trigger] records@[k])@, w.start@);
                assert(within(all[k], w.start@));
            } else if any_within(all, w.start@) {
                let k = choose|k: int| 0 <= k < all.len() && within(#[trigger] all[k], w.start@);
                assert((*records@[k])@ == all[k]);
            }
            assert(fresh == any_within(all, w.start@));
        }
        if records.len() >= PAGE && !fresh {
            return Outcome::Stale;
        }
        if records.len() >= PAGE && text::is_less_str(w.start.as_str(), w.end.as_str()) {
            let (older, newer) = halves(w);
            self.waiting.push(older);
            self.waiting.push(newer);
            assert(self@.waiting =~= old(self)@.replied(w@, json::opt_contents(reply)).waiting);
            return Outcome::Split;
        }
        self.absorb(&records);
        proof {
            assert forall|k: int| 0 <= k < all.len() implies (*#[trigger] records@[k])@ == all[k] by {}
            assert(self@ == (CrawlView {
                found: absorbed(old(self)@.found, all, old(self).limit, 0),
                ..old(self)@
            }));
        }
        Outcome::Taken
    }

    /// Takes the text of the reply to a window. A text that is no JSON counts as
    /// an empty answer.
    pub fn take_reply(&mut self, w: &Window, reply: &str) -> (r: Outcome)
        requires
            w.depth < usize::MAX,
        ensures
            r == old(self)@.outcome(w@, reply_value(json::parsed(reply@))),
            final(self)@ == old(self)@.replied(w@, reply_value(json::parsed(reply@))),
    {
        match json::parse(reply) {
            Ok(v) => self.take_value(w, Some(&v)),
            Err(_) => self.take_value(w, None),
        }
    }
}

/// The value of a reply; `Null` where it is no JSON.
pub open spec fn reply_value(v: Option<JsonView>) -> JsonView {
    match v {
        Some(x) => x,
        None => JsonView::Null,
    }
}

impl CrawlView {
    /// The collection after so many turns: each asks for the next window and takes
    /// the reply, or none where the service could not be reached.
    pub open spec fn after(self, replies: Seq<Option<JsonView>>) -> CrawlView
        decreases replies.len(),
    {
        if replies.len() == 0 {
            self
        } else {
            let (s, asked) = self.after(replies.drop_last()).advanced();
            match (asked, replies.last()) {
                (Some(w), Some(v)) => s.replied(w, v),
                _ => s,
            }
        }
    }
}

/// Handing out a window changes nothing that was found, and a window is handed
/// out only within the bounds: below the limit of devices, the number of queries
/// and the number of bisections.
pub proof fn lemma_advanced(s: CrawlView)
    requires
        s.queries <= MAX_QUERIES,
    ensures
        s.advanced().0.found == s.found,
        s.advanced().0.limit == s.limit,
        s.advanced().0.queries <= MAX_QUERIES,
        s.advanced().1 matches Some(w) ==> s.advanced().0.queries == s.queries + 1 && w.depth
            <= MAX_DEPTH && !full(s.found.items.len(), s.limit),
        s.advanced().1 is None ==> s.advanced().0.queries == s.queries,
    decreases PASSES - s.passes, s.waiting.len(),
{
    if s.waiting.len() > 0 {
        if !s.allows(s.waiting.last()) {
            lemma_advanced(s.popped());
        }
    } else if s.passes < PASSES && !full(s.found.items.len(), s.limit) {
        lemma_advanced(s.begun());
    }
}

/// Whatever the service replies: there are at most 6000 queries, no model is
/// collected twice, what was there at the start stays in its place, and the limit
/// is not passed but by what was there at the start.
pub proof fn lemma_collection(s: CrawlView, replies: Seq<Option<JsonView>>)
    requires
        s.queries <= MAX_QUERIES,
        each_model_once(s.found),
    ensures
        s.after(replies).queries <= MAX_QUERIES,
        each_model_once(s.after(replies).found),
        s.found.items.len() <= s.after(replies).found.items.len(),
        s.found.items == s.after(replies).found.items.take(s.found.items.len() as int),
        s.limit matches Some(l) ==> s.after(replies).found.items.len() <= l || s.after(
            replies,
        ).found.items.len() == s.found.items.len(),
        s.after(replies).limit == s.limit,
    decreases replies.len(),
{
    let n = s.found.items.len() as int;
    if replies.len() == 0 {
        assert(s.found.items.take(n) =~= s.found.items);
    } else {
        let t = s.after(replies.drop_last());
        lemma_collection(s, replies.drop_last());
        lemma_advanced(t);
        let (u, asked) = t.advanced();
        match (asked, replies.last()) {
            (Some(w), Some(v)) => {
                let records = v.get("data"@).get("records"@).items();
                lemma_absorbed(u.found, records, u.limit, 0);
                let all = absorbed(u.found, records, u.limit, 0).items;
                assert(all.take(n) =~= all.take(u.found.items.len() as int).take(n));
            },
            _ => {},
        }
    }
}

// ---------------------------------------------------------------------------
// The order of the windows
// ---------------------------------------------------------------------------

impl CrawlView {
    /// The collection after a window was searched: where its answer is full it is
    /// bisected, and all of the newer half is searched before the older half.
    /// `replies` gives the reply to each query by the number of queries before it.
    pub open spec fn searched(
        self,
        w: WindowView,
        replies: spec_fn(nat) -> Option<JsonView>,
    ) -> CrawlView
        decreases MAX_DEPTH + 1 - w.depth,
    {
        if !self.allows(w) {
            self
        } else {
            match replies(self.queries) {
                None => self.counted(),
                Some(v) => if self.outcome(w, v) == Outcome::Split {
                    self.counted().searched(newer_half(w), replies).searched(
                        older_half(w),
                        replies,
                    )
                } else {
                    self.counted().replied(w, v)
                },
            }
        }
    }

    /// The collection after all of it: the windows that wait are searched, the last
    /// first, then the passes that are left, one after the other.
    pub open spec fn all_searched(self, replies: spec_fn(nat) -> Option<JsonView>) -> CrawlView
        decreases PASSES - self.passes, self.waiting.len(),
    {
        if self.waiting.len() > 0 {
            proof {
                lemma_searched_keeps(self.popped(), self.waiting.last(), replies);
            }
            self.popped().searched(self.waiting.last(), replies).all_searched(replies)
        } else if self.passes < PASSES && !full(self.found.items.len(), self.limit) {
            self.begun().all_searched(replies)
        } else {
            self
        }
    }

    /// The collection after a turn: the next window is asked for, and the reply
    /// taken where there is one.
    spec fn turned(self, reply: Option<JsonView>) -> CrawlView {
        let (s, asked) = self.advanced();
        match (asked, reply) {
            (Some(w), Some(v)) => s.replied(w, v),
            _ => s,
        }
    }

    /// The collection after all turns.
    spec fn collected(self, replies: spec_fn(nat) -> Option<JsonView>) -> CrawlView
        decreases MAX_QUERIES - self.queries,
    {
        if self.advanced().1 is None {
            self.advanced().0
        } else {
            proof {
                lemma_asked(self);
            }
            self.turned(replies(self.queries)).collected(replies)
        }
    }
}

/// Searching a window leaves the windows that wait and the passes as they are.
pub proof fn lemma_searched_keeps(
    s: CrawlView,
    w: WindowView,
    replies: spec_fn(nat) -> Option<JsonView>,
)
    ensures
        s.searched(w, replies).waiting == s.waiting,
        s.searched(w, replies).passes == s.passes,
    decreases MAX_DEPTH + 1 - w.depth,
{
    if s.allows(w) && replies(s.queries) is Some && s.outcome(w, replies(s.queries)->0)
        == Outcome::Split {
        lemma_searched_keeps(s.counted(), newer_half(w), replies);
        lemma_searched_keeps(
            s.counted().searched(newer_half(w), replies),
            older_half(w),
            replies,
        );
    }
}

/// What waits plays no part in searching a window.
proof fn lemma_waiting_plays_no_part(
    s: CrawlView,
    waiting: Seq<WindowView>,
    w: WindowView,
    replies: spec_fn(nat) -> Option<JsonView>,
)
    ensures
        (CrawlView { waiting, ..s }).searched(w, replies) == (CrawlView {
            waiting,
            ..s.searched(w, replies)
        }),
    decreases MAX_DEPTH + 1 - w.depth,
{
    let t = CrawlView { waiting, ..s };
    if s.allows(w) && replies(s.queries) is Some && s.outcome(w, replies(s.queries)->0)
        == Outcome::Split {
        assert(t.outcome(w, replies(s.queries)->0) == Outcome::Split);
        lemma_waiting_plays_no_part(s.counted(), waiting, newer_half(w), replies);
        assert(t.counted() == (CrawlView { waiting, ..s.counted() }));
        lemma_waiting_plays_no_part(
            s.counted().searched(newer_half(w), replies),
            waiting,
            older_half(w),
            replies,
        );
    }
}

/// A window that is handed out is one more query, and there is room for it.
proof fn lemma_asked(s: CrawlView)
    ensures
        s.advanced().1 is Some ==> s.queries < MAX_QUERIES && s.advanced().0.queries == s.queries
            + 1,
    decreases PASSES - s.passes, s.waiting.len(),
{
    if s.waiting.len() > 0 {
        if !s.allows(s.waiting.last()) {
            lemma_asked(s.popped());
        }
    } else if s.passes < PASSES && !full(s.found.items.len(), s.limit) {
        lemma_asked(s.begun());
    }
}

/// Where no window is left, none is left after that.
proof fn lemma_done(s: CrawlView)
    requires
        s.advanced().1 is None,
    ensures
        s.advanced().0.advanced() == (s.advanced().0, None::<WindowView>),
    decreases PASSES - s.passes, s.waiting.len(),
{
    if s.waiting.len() > 0 {
        lemma_done(s.popped());
    } else if s.passes < PASSES && !full(s.found.items.len(), s.limit) {
        lemma_done(s.begun());
    }
}

/// The turns search the last of the windows that wait before they go on.
proof fn lemma_last_is_searched(s: CrawlView, replies: spec_fn(nat) -> Option<JsonView>)
    requires
        s.waiting.len() > 0,
    ensures
        s.collected(replies) == s.popped().searched(s.waiting.last(), replies).collected(replies),
    decreases MAX_DEPTH + 1 - s.waiting.last().depth,
{
    let w = s.waiting.last();
    let rest = s.popped();
    if s.allows(w) {
        assert(s.advanced() == (rest.counted(), Some(w)));
        let next = s.turned(replies(s.queries));
        assert(s.collected(replies) == next.collected(replies));
        if replies(s.queries) is Some && s.outcome(w, replies(s.queries)->0) == Outcome::Split {
            let base = rest.waiting;
            let newer = newer_half(w);
            let older = older_half(w);
            assert(rest.counted().outcome(w, replies(s.queries)->0) == Outcome::Split);
            assert(next == (CrawlView { waiting: base.push(older).push(newer), ..rest.counted() }));
            assert(next.popped() == (CrawlView { waiting: base.push(older), ..rest.counted() })) by {
                assert(base.push(older).push(newer).drop_last() =~= base.push(older));
            }
            lemma_last_is_searched(next, replies);
            lemma_waiting_plays_no_part(rest.counted(), base.push(older), newer, replies);
            lemma_searched_keeps(rest.counted(), newer, replies);
            let half = rest.counted().searched(newer, replies);
            let then = CrawlView { waiting: base.push(older), ..half };
            assert(next.popped().searched(newer, replies) == then);
            assert(then.popped() == half) by {
                assert(base.push(older).drop_last() =~= base);
            }
            lemma_last_is_searched(then, replies);
        }
    }
}

proof fn lemma_turns_search(s: CrawlView, replies: spec_fn(nat) -> Option<JsonView>)
    ensures
        s.collected(replies) == s.all_searched(replies),
    decreases PASSES - s.passes, s.waiting.len(),
{
    if s.waiting.len() > 0 {
        lemma_last_is_searched(s, replies);
        lemma_searched_keeps(s.popped(), s.waiting.last(), replies);
        lemma_turns_search(s.popped().searched(s.waiting.last(), replies), replies);
    } else if s.passes < PASSES && !full(s.found.items.len(), s.limit) {
        assert(s.advanced() == s.begun().advanced());
        lemma_turns_search(s.begun(), replies);
    }
}

proof fn lemma_after(
    s: CrawlView,
    turns: Seq<Option<JsonView>>,
    replies: spec_fn(nat) -> Option<JsonView>,
)
    requires
        s.queries <= MAX_QUERIES,
        forall|i: int| 0 <= i < turns.len() ==> replies((s.queries + i) as nat) == #[trigger] turns[i],
    ensures
        s.after(turns).collected(replies) == s.collected(replies),
        s.after(turns).queries <= MAX_QUERIES,
        s.after(turns).queries == s.queries + turns.len() || s.after(turns).advanced() == (
            s.after(turns),
            None::<WindowView>,
        ),
    decreases turns.len(),
{
    if turns.len() > 0 {
        let init = turns.drop_last();
        assert forall|i: int| 0 <= i < init.len() implies replies((s.queries + i) as nat)
            == #[trigger] init[i] by {
            assert(turns[i] == init[i]);
        }
        lemma_after(s, init, replies);
        let t = s.after(init);
        lemma_asked(t);
        lemma_advanced(t);
        assert(s.after(turns) == t.turned(turns.last()));
        assert(turns[turns.len() - 1] == turns.last());
        if t.advanced().1 is None {
            lemma_done(t);
        }
    }
}

/// The windows are searched in the order of the bisection, whatever the service
/// replies: of a window that is bisected, all of the newer half comes before the
/// older, and a pass is done before the next begins. With more turns than there
/// may be queries the collection comes to its end.
pub proof fn lemma_newer_half_first(s: CrawlView, turns: Seq<Option<JsonView>>)
    requires
        s.queries <= MAX_QUERIES,
        turns.len() > MAX_QUERIES - s.queries,
    ensures
        s.after(turns) == s.all_searched(|n: nat| turns[n - s.queries]),
{
    let replies = |n: nat| turns[n - s.queries];
    lemma_after(s, turns, replies);
    lemma_turns_search(s, replies);
}

// ---------------------------------------------------------------------------
// What is collected
// ---------------------------------------------------------------------------

/// The text of a field of a record, without white space around it.
pub open spec fn trimmed_field(record: JsonView, name: Seq<char>) -> Seq<char> {
    text::trimmed(record.get(name).text_or_empty())
}

/// The record is that of a phone with a model number, of whatever generation.
pub open spec fn is_phone(record: JsonView) -> bool {
    text::has(trimmed_field(record, "equipmentName"@), "数字移动电话机"@) && trimmed_field(
        record,
        "equipmentModel"@,
    ).len() > 0
}

/// The item is that of a record.
pub open spec fn is_item_of(item: ItemView, record: JsonView) -> bool {
    let model = trimmed_field(record, "equipmentModel"@);
    let name = trimmed_field(record, "equipmentName"@);
    &&& item.model == model
    &&& item.source matches SourceView::New(e) && {
        &&& e.brand == cn_brand(trimmed_field(record, "applyOrg"@))
        &&& e.name == name
        &&& e.series == Some("进网许可"@)
        &&& e.code == Some(record.get("licenseNo"@).text_or_empty())
        &&& e.codename is None
        &&& e.models.len() == 1
        &&& e.models[0].ids == seq![model]
        &&& e.models[0].market_name == name
    }
}

/// A record gives a device exactly where it is that of a phone with a model number,
/// so that each phone of the LTE and the 5G generation gives one.
pub proof fn lemma_record_gives_a_device(record: JsonView)
    ensures
        record_item(record) is Some <==> is_phone(record),
        record_item(record) matches Some(item) ==> is_item_of(item, record),
        text::has(trimmed_field(record, "equipmentName"@), "数字移动电话机"@) && (text::has(
            trimmed_field(record, "equipmentName"@),
            "LTE"@,
        ) || text::has(trimmed_field(record, "equipmentName"@), "5G"@)) && trimmed_field(
            record,
            "equipmentModel"@,
        ).len() > 0 ==> record_item(record) is Some,
{
}

/// One of the items has the model.
pub open spec fn has_item(items: Seq<ItemView>, model: Seq<char>) -> bool {
    exists|i: int| 0 <= i < items.len() && (#[trigger] items[i]).model == model
}

/// Each model that counts as met is that of an item.
pub open spec fn met_is_collected(f: Found) -> bool {
    forall|model: Seq<char>| #[trigger]
        f.seen.contains(seq![model]) ==> has_item(f.items, model)
}

proof fn lemma_with_item_collects(f: Found, item: ItemView)
    requires
        met_is_collected(f),
    ensures
        met_is_collected(with_item(f, item)),
        has_item(with_item(f, item).items, item.model),
        forall|model: Seq<char>| #[trigger]
            has_item(f.items, model) ==> has_item(with_item(f, item).items, model),
{
    let g = with_item(f, item);
    assert forall|model: Seq<char>| #[trigger] has_item(f.items, model) implies has_item(
        g.items,
        model,
    ) by {
        let i = choose|i: int| 0 <= i < f.items.len() && (#[trigger] f.items[i]).model == model;
        assert(g.items[i] == f.items[i]);
    }
    if !f.seen.contains(seq![item.model]) {
        assert(g.items[f.items.len() as int].model == item.model);
        assert forall|model: Seq<char>| #[trigger] g.seen.contains(seq![model]) implies has_item(
            g.items,
            model,
        ) by {
            if f.seen.contains(seq![model]) {
                assert(has_item(f.items, model));
            } else {
                assert(seq![model][0] == seq![item.model][0]);
            }
        }
    }
}

/// What was collected has the models that were met, from the start on and whatever
/// is taken.
pub proof fn lemma_kept_met_is_collected(devices: Seq<JsonView>, n: nat)
    ensures
        met_is_collected(kept(devices, n)),
    decreases n,
{
    if n > 0 {
        let before = kept(devices, (n - 1) as nat);
        lemma_kept_met_is_collected(devices, (n - 1) as nat);
        match kept_model(devices[n - 1]) {
            Some(model) => lemma_with_item_collects(
                before,
                ItemView { model, source: SourceView::Kept((n - 1) as usize) },
            ),
            None => {},
        }
    }
}

/// There is room for so many devices more.
pub open spec fn room_for(len: nat, n: int, limit: Option<usize>) -> bool {
    limit matches Some(l) ==> len + n <= l
}

proof fn lemma_absorbed_collects(
    f: Found,
    records: Seq<JsonView>,
    limit: Option<usize>,
    i: int,
    k: int,
)
    requires
        0 <= i <= k < records.len(),
        met_is_collected(f),
        room_for(f.items.len(), records.len() - i, limit),
        is_phone(records[k]),
    ensures
        has_item(
            absorbed(f, records, limit, i).items,
            trimmed_field(records[k], "equipmentModel"@),
        ),
        met_is_collected(absorbed(f, records, limit, i)),
    decreases records.len() - i,
{
    lemma_record_gives_a_device(records[i]);
    lemma_record_gives_a_device(records[k]);
    let model = trimmed_field(records[k], "equipmentModel"@);
    match record_item(records[i]) {
        Some(item) => {
            let g = with_item(f, item);
            lemma_with_item_collects(f, item);
            if i == k {
                assert(has_item(g.items, model));
                lemma_absorbed_keeps(g, records, limit, i + 1, model);
            } else {
                lemma_absorbed_collects(g, records, limit, i + 1, k);
            }
        },
        None => {
            lemma_absorbed_collects(f, records, limit, i + 1, k);
        },
    }
}

/// What is there stays there.
proof fn lemma_absorbed_keeps(
    f: Found,
    records: Seq<JsonView>,
    limit: Option<usize>,
    i: int,
    model: Seq<char>,
)
    requires
        met_is_collected(f),
    ensures
        has_item(f.items, model) ==> has_item(absorbed(f, records, limit, i).items, model),
        met_is_collected(absorbed(f, records, limit, i)),
    decreases records.len() - i,
{
    if 0 <= i < records.len() {
        match record_item(records[i]) {
            Some(item) if !f.seen.contains(seq![item.model]) => {
                let g = with_item(f, item);
                lemma_with_item_collects(f, item);
                if !full(g.items.len(), limit) {
                    lemma_absorbed_keeps(g, records, limit, i + 1, model);
                }
            },
            _ => {
                lemma_absorbed_keeps(f, records, limit, i + 1, model);
            },
        }
    }
}

/// Whatever the service replies, each model that counts as met is that of an item.
pub proof fn lemma_met_stays_collected(s: CrawlView, replies: Seq<Option<JsonView>>)
    requires
        s.queries <= MAX_QUERIES,
        met_is_collected(s.found),
    ensures
        met_is_collected(s.after(replies).found),
        s.after(replies).queries <= MAX_QUERIES,
    decreases replies.len(),
{
    if replies.len() > 0 {
        let t = s.after(replies.drop_last());
        lemma_met_stays_collected(s, replies.drop_last());
        lemma_advanced(t);
        let (u, asked) = t.advanced();
        match (asked, replies.last()) {
            (Some(w), Some(v)) => {
                let records = v.get("data"@).get("records"@).items();
                lemma_absorbed_keeps(u.found, records, u.limit, 0, Seq::empty());
            },
            _ => {},
        }
    }
}

/// The reply has records for a window, and not so many that it is bisected: fewer
/// than 30, or the window is a single day and one of the records is of that day or
/// later.
pub open spec fn is_leaf(w: WindowView, reply: JsonView) -> bool {
    let records = reply.get("data"@).get("records"@).items();
    &&& reply.get("code"@).int_or_zero() == 200
    &&& reply.get("data"@) !is Null
    &&& records.len() < 30 || (!text::less(w.start, w.end) && exists|i: int|
        0 <= i < records.len() && !((#[trigger] records[i]).get("regDate"@).text() matches Some(d)
            && text::less(d, w.start)))
}

/// No phone of a reply is lost: where the reply is not to be bisected and there is
/// room, the model of each phone is among the items afterwards.
pub proof fn lemma_each_phone_is_collected(s: CrawlView, w: WindowView, reply: JsonView, k: int)
    requires
        met_is_collected(s.found),
        is_leaf(w, reply),
        0 <= k < reply.get("data"@).get("records"@).items().len(),
        is_phone(reply.get("data"@).get("records"@).items()[k]),
        room_for(
            s.found.items.len(),
            reply.get("data"@).get("records"@).items().len() as int,
            s.limit,
        ),
    ensures
        has_item(
            s.replied(w, reply).found.items,
            trimmed_field(
                reply.get("data"@).get("records"@).items()[k],
                "equipmentModel"@,
            ),
        ),
        s.replied(w, reply).waiting == s.waiting,
{
    let records = reply.get("data"@).get("records"@).items();
    if records.len() >= 30 {
        let i = choose|i: int|
            0 <= i < records.len() && !((#[trigger] records[i]).get("regDate"@).text() matches Some(
                d,
            ) && text::less(d, w.start));
        assert(within(records[i], w.start));
    }
    assert(s.outcome(w, reply) == Outcome::Taken);
    lemma_absorbed_collects(s.found, records, s.limit, 0, k);
}

proof fn lemma_absorbed_stems(
    f: Found,
    records: Seq<JsonView>,
    limit: Option<usize>,
    i: int,
    x: int,
)
    requires
        0 <= i,
        f.items.len() <= x < absorbed(f, records, limit, i).items.len(),
    ensures
        exists|k: int|
            0 <= k < records.len() && is_phone(#[trigger] records[k]) && is_item_of(
                absorbed(f, records, limit, i).items[x],
                records[k],
            ),
    decreases records.len() - i,
{
    if i < records.len() {
        match record_item(records[i]) {
            Some(item) if !f.seen.contains(seq![item.model]) => {
                let g = with_item(f, item);
                lemma_record_gives_a_device(records[i]);
                if full(g.items.len(), limit) {
                    assert(absorbed(f, records, limit, i).items[x] == item);
                } else if x > f.items.len() {
                    lemma_absorbed_stems(g, records, limit, i + 1, x);
                } else {
                    lemma_absorbed_front(g, records, limit, i + 1, x);
                    assert(absorbed(f, records, limit, i).items[x] == item);
                }
            },
            _ => {
                lemma_absorbed_stems(f, records, limit, i + 1, x);
            },
        }
    }
}

proof fn lemma_absorbed_front(
    f: Found,
    records: Seq<JsonView>,
    limit: Option<usize>,
    i: int,
    x: int,
)
    requires
        0 <= x < f.items.len(),
    ensures
        absorbed(f, records, limit, i).items.len() >= f.items.len(),
        absorbed(f, records, limit, i).items[x] == f.items[x],
    decreases records.len() - i,
{
    if 0 <= i < records.len() {
        match record_item(records[i]) {
            Some(item) if !f.seen.contains(seq![item.model]) => {
                let g = with_item(f, item);
                if !full(g.items.len(), limit) {
                    lemma_absorbed_front(g, records, limit, i + 1, x);
                }
            },
            _ => {
                lemma_absorbed_front(f, records, limit, i + 1, x);
            },
        }
    }
}

/// Nothing but the phones of a reply is collected: each item that a reply adds is
/// that of one of its records.
pub proof fn lemma_each_item_is_a_phone(s: CrawlView, w: WindowView, reply: JsonView, x: int)
    requires
        s.found.items.len() <= x < s.replied(w, reply).found.items.len(),
    ensures
        exists|k: int|
            0 <= k < reply.get("data"@).get("records"@).items().len() && is_phone(
                #[trigger] reply.get("data"@).get("records"@).items()[k],
            ) && is_item_of(
                s.replied(w, reply).found.items[x],
                reply.get("data"@).get("records"@).items()[k],
            ),
{
    let records = reply.get("data"@).get("records"@).items();
    lemma_absorbed_stems(s.found, records, s.limit, 0, x);
}

/// A full reply is not taken but bisected, where one of its 30 records or more is of
/// the window: both halves wait, the newer one is next, and nothing is collected
/// yet. A full reply with none of the window changes nothing.
pub proof fn lemma_full_reply_is_bisected(s: CrawlView, w: WindowView, reply: JsonView)
    requires
        reply.get("code"@).int_or_zero() == 200,
        reply.get("data"@) !is Null,
        reply.get("data"@).get("records"@).items().len() >= 30,
        text::less(w.start, w.end),
    ensures
        s.replied(w, reply).found == s.found,
        s.replied(w, reply).queries == s.queries,
        s.replied(w, reply).passes == s.passes,
        ({
            let records = reply.get("data"@).get("records"@).items();
            let fresh = exists|i: int|
                0 <= i < records.len() && !((#[trigger] records[i]).get("regDate"@).text() matches Some(
                    d,
                ) && text::less(d, w.start));
            let waiting = s.replied(w, reply).waiting;
            &&& !fresh ==> waiting == s.waiting
            &&& fresh ==> {
                let n = s.waiting.len() as int;
                &&& waiting.len() == n + 2
                &&& waiting.take(n) == s.waiting
                &&& waiting[n].start == w.start && waiting[n + 1].end == w.end
                &&& waiting[n].depth == w.depth + 1 && waiting[n + 1].depth == w.depth + 1
                &&& waiting[n].end == dates::text_of(
                    dates::half(dates::day_of(w.start) + dates::day_of(w.end)),
                )
                &&& waiting[n + 1].start == dates::text_of(
                    dates::half(dates::day_of(w.start) + dates::day_of(w.end)) + 1,
                )
            }
        }),
{
    let records = reply.get("data"@).get("records"@).items();
    if exists|i: int|
        0 <= i < records.len() && !((#[trigger] records[i]).get("regDate"@).text() matches Some(d)
            && text::less(d, w.start)) {
        let i = choose|i: int|
            0 <= i < records.len() && !((#[trigger] records[i]).get("regDate"@).text() matches Some(
                d,
            ) && text::less(d, w.start));
        assert(within(records[i], w.start));
    } else if any_within(records, w.start) {
        let i = choose|i: int| 0 <= i < records.len() && within(#[trigger] records[i], w.start);
        assert(!(records[i].get("regDate"@).text() matches Some(d) && text::less(d, w.start)));
    }
    let waiting = s.replied(w, reply).waiting;
    assert(waiting.len() > s.waiting.len() ==> waiting.take(s.waiting.len() as int) =~= s.waiting);
}

/// A window that waits is asked for while there is room for devices, fewer than 6000
/// queries were made and it stems from at most 20 bisections; where none waits, the
/// pass for 5G phones and then that for LTE phones begin, each at its first date or
/// the date that is asked for, whichever is later, and end at 2026-12-31.
pub proof fn lemma_next_window(s: CrawlView)
    ensures
        s.waiting.len() > 0 && (s.limit matches Some(l) ==> s.found.items.len() < l) && s.queries
            < 6000 && s.waiting.last().depth <= 20 ==> s.advanced().1 == Some(s.waiting.last())
            && s.advanced().0.waiting == s.waiting.drop_last() && s.advanced().0.queries
            == s.queries + 1,
        s.waiting.len() == 0 && (s.limit matches Some(l) ==> s.found.items.len() < l) && s.queries
            < 6000 && s.passes < 2 ==> {
            let first = if s.passes == 0 {
                "2019-01-01"@
            } else {
                "2013-01-01"@
            };
            &&& s.advanced().1 matches Some(w) && {
                &&& w.end == "2026-12-31"@
                &&& w.depth == 0
                &&& w.start == first || s.since == Some(w.start)
                &&& !text::less(w.start, first)
                &&& s.since matches Some(d) ==> w.start == d || text::less(d, first)
            }
            &&& s.advanced().0.passes == s.passes + 1
            &&& current_filter(s.advanced().0.passes) == (if s.passes == 0 {
                "5G"@
            } else {
                "LTE"@
            })
        },
        s.waiting.len() == 0 && s.passes >= 2 ==> s.advanced().1 is None,
        s.limit matches Some(l) && s.found.items.len() >= l ==> s.advanced().1 is None,
        s.queries >= 6000 ==> s.advanced().1 is None,
        s.advanced().1 matches Some(w) ==> w.depth <= 20,
    decreases PASSES - s.passes, s.waiting.len(),
{
    if s.waiting.len() > 0 {
        if !s.allows(s.waiting.last()) {
            lemma_next_window(s.popped());
        }
    } else if s.passes < PASSES && !full(s.found.items.len(), s.limit) {
        let t = s.begun();
        let first = if s.passes == 0 {
            "2019-01-01"@
        } else {
            "2013-01-01"@
        };
        assert(t.waiting.last() == pass_window(s.passes, s.since));
        text::lemma_less_total(first, first);
        lemma_next_window(t);
    }
}

/// The model by which a device of a collected file is known: the first id of its
/// first model, for a phone of the LTE or the 5G generation.
pub open spec fn known_model(device: JsonView) -> Option<Seq<char>> {
    let name = device.get("name"@).text_or_empty();
    if text::has(name, "数字移动电话机"@) && (text::has(name, "LTE"@) || text::has(name, "5G"@)) {
        device.get("models"@).at(0).get("ids"@).at(0).text()
    } else {
        None
    }
}

/// What was collected before is kept: each device of the file that is a modern phone
/// with a model has its model among the items, and each item is such a device of the
/// file, at its place there and the first with its model.
pub proof fn lemma_modern_phones_are_kept(devices: Seq<JsonView>, n: nat)
    requires
        n <= devices.len() <= usize::MAX,
    ensures
        forall|k: int|
            0 <= k < n && known_model(#[trigger] devices[k]) is Some ==> has_item(
                kept(devices, n).items,
                known_model(devices[k])->0,
            ),
        forall|x: int|
            0 <= x < kept(devices, n).items.len() ==> {
                let item = #[trigger] kept(devices, n).items[x];
                &&& item.source matches SourceView::Kept(k) && 0 <= k < n && known_model(
                    devices[k as int],
                ) == Some(item.model)
            },
    decreases n,
{
    if n > 0 {
        let m = (n - 1) as nat;
        lemma_modern_phones_are_kept(devices, m);
        lemma_kept_met_is_collected(devices, m);
        let before = kept(devices, m);
        let now = kept(devices, n);
        let d = devices[n - 1];
        lemma_kept_model(d);
        match kept_model(d) {
            Some(model) => {
                let item = ItemView { model, source: SourceView::Kept((n - 1) as usize) };
                lemma_with_item_collects(before, item);
                assert forall|k: int|
                    0 <= k < n && known_model(#[trigger] devices[k]) is Some implies has_item(
                    now.items,
                    known_model(devices[k])->0,
                ) by {
                    if k < m {
                        assert(has_item(before.items, known_model(devices[k])->0));
                    }
                }
                assert forall|x: int| 0 <= x < now.items.len() implies {
                    let item = #[trigger] now.items[x];
                    &&& item.source matches SourceView::Kept(k) && 0 <= k < n && known_model(
                        devices[k as int],
                    ) == Some(item.model)
                } by {
                    if x < before.items.len() {
                        assert(now.items[x] == before.items[x]);
                    }
                }
            },
            None => {},
        }
    }
}

proof fn lemma_kept_model(d: JsonView)
    ensures
        kept_model(d) == known_model(d),
{
    let name = d.get("name"@).text_or_empty();
    if d.get("name"@).text() is None {
        reveal_strlit("数字移动电话机");
        text::lemma_has(name, "数字移动电话机"@);
        assert(name.len() == 0);
    }
}

/// What a company name may contain.
pub open spec fn makers() -> Seq<Seq<char>> {
    seq![
        "小米"@,
        "华为"@,
        "OPPO"@,
        "维沃"@,
        "荣耀"@,
        "中兴"@,
        "努比亚"@,
        "三星"@,
        "苹果"@,
        "诺基亚"@,
        "摩托罗拉"@,
        "联想"@,
        "索尼"@,
        "魅族"@,
        "一加"@,
        "真我"@,
        "酷派"@,
        "TCL"@,
        "金立"@,
        "360"@,
    ]
}

/// The company name contains the name of one of the makers.
pub open spec fn names_maker(org: Seq<char>) -> bool {
    exists|k: int| 0 <= k < makers().len() && text::has(org, #[trigger] makers()[k])
}

/// The brand of a company is a maker that its name contains, in Latin letters for
/// two of them; a company whose name contains none keeps its name.
pub proof fn lemma_brand_is_contained(org: Seq<char>)
    ensures
        !names_maker(org) ==> cn_brand(org) == org,
        names_maker(org) ==> {
            let b = cn_brand(org);
            ||| b == "vivo"@ && text::has(org, "维沃"@)
            ||| b == "Apple"@ && text::has(org, "苹果"@)
            ||| makers().contains(b) && text::has(org, b) && b != "维沃"@ && b != "苹果"@
        },
{
    lemma_brand_found(org, 0);
    assert forall|k: int| 0 <= k < 20 implies makers()[k] == (#[trigger] brand_rules()[k]).0 by {}
    if names_maker(org) {
        let k = choose|k: int| 0 <= k < makers().len() && text::has(org, #[trigger] makers()[k]);
        assert(text::has(org, brand_rules()[k].0));
        if forall|j: int| 0 <= j < 20 ==> !text::has(org, (#[trigger] brand_rules()[j]).0) {
            assert(false);
        }
        let n = choose|n: int|
            0 <= n < 20 && text::has(org, (#[trigger] brand_rules()[n]).0) && cn_brand(org)
                == brand_rules()[n].1;
        reveal_strlit("维沃");
        reveal_strlit("苹果");
        if n != 3 && n != 8 {
            assert(makers()[n] == brand_rules()[n].1);
            lemma_rule_heads(n);
            assert(rule_heads()[n] != '维' && rule_heads()[n] != '苹');
        }
    } else {
        assert forall|j: int| 0 <= j < 20 implies !text::has(org, (#[trigger] brand_rules()[j]).0) by {
            assert(!text::has(org, makers()[j]));
        }
    }
}

proof fn lemma_brand_found(org: Seq<char>, i: int)
    requires
        0 <= i <= 20,
    ensures
        (forall|j: int| i <= j < 20 ==> !text::has(org, (#[trigger] brand_rules()[j]).0))
            ==> brand_from(brand_rules(), org, i) == org,
        (forall|j: int| i <= j < 20 ==> !text::has(org, (#[trigger] brand_rules()[j]).0))
            || exists|n: int|
            i <= n < 20 && text::has(org, (#[trigger] brand_rules()[n]).0) && brand_from(
                brand_rules(),
                org,
                i,
            ) == brand_rules()[n].1,
    decreases 20 - i,
{
    if i < 20 && !text::has(org, brand_rules()[i].0) {
        lemma_brand_found(org, i + 1);
    }
}

/// A reply without success, or without data, is an empty answer: it changes nothing
/// of the collection, whatever records it holds.
pub proof fn lemma_failed_reply_changes_nothing(s: CrawlView, w: WindowView, reply: JsonView)
    requires
        reply.get("code"@).int_or_zero() != 200 || reply.get("data"@) is Null,
    ensures
        s.replied(w, reply) == s,
        s.outcome(w, reply) is Empty,
{
}

/// A window is asked for by its two dates, at the end of the address, and by what its
/// pass asks for; windows of a pass that differ have different addresses where their
/// first dates are of the same length.
pub proof fn lemma_window_address(passes: nat, w: WindowView, v: WindowView)
    ensures
        text::begins(
            window_address(passes, w),
            "https://jwxk.miit.gov.cn/dev-api-20/internetService/CertificateQuery?isphoto=0&pageNo=1&pageSize=30&equipmentName="@,
        ),
        text::ends(window_address(passes, w), "&startDate="@ + w.start + "&endDate="@ + w.end),
        w.start.len() == v.start.len() && window_address(passes, w) == window_address(passes, v)
            ==> w.start == v.start && w.end == v.end,
{
    reveal_strlit(
        "https://jwxk.miit.gov.cn/dev-api-20/internetService/CertificateQuery?isphoto=0&pageNo=1&pageSize=30&equipmentName=",
    );
    reveal_strlit("https://jwxk.miit.gov.cn/dev-api-20/internetService/CertificateQuery");
    reveal_strlit("?isphoto=0&pageNo=1&pageSize=30&equipmentName=");
    let head =
        "https://jwxk.miit.gov.cn/dev-api-20/internetService/CertificateQuery?isphoto=0&pageNo=1&pageSize=30&equipmentName="@;
    assert(TENAA_API@ + "?isphoto=0&pageNo=1&pageSize=30&equipmentName="@ =~= head);
    let name = url::escaped(encode_utf8(current_filter(passes)));
    let a = window_address(passes, w);
    let b = window_address(passes, v);
    let dates = "&startDate="@ + w.start + "&endDate="@ + w.end;
    assert(a =~= (head + name) + dates);
    assert(a =~= head + (name + dates));
    text::lemma_begins_and_ends(a, head, name + dates);
    text::lemma_begins_and_ends(a, dates, head + name);
    if w.start.len() == v.start.len() && a == b {
        let m = (head + name + "&startDate="@).len() as int;
        let n = w.start.len() as int;
        let l = "&endDate="@.len() as int;
        assert(a.subrange(m, m + n) =~= w.start);
        assert(b.subrange(m, m + n) =~= v.start);
        assert(a.skip(m + n + l) =~= w.end);
        assert(b.skip(m + n + l) =~= v.end);
    }
}

} // verus!
