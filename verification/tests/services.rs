//! Collections from services that are asked step by step.

use mobilemodels_db::collector::dates::{
    add_days, checked_add_days, format_date, mid_date, parse_date, FIRST_DAY, LAST_DAY,
};
use mobilemodels_db::collector::huawei::{
    add_unrepeated, coded_row_entry, device_titles, extract_huawei_models, huawei_list_entries,
    Articles, Tour, HUAWEI_CATEGORY,
};
use mobilemodels_db::collector::parse_wiki_tables;
use mobilemodels_db::collector::tenaa::{
    asks_again, halves, normalize_cn_brand, Crawl, Outcome, Source, Window, MAX_QUERIES,
};
use mobilemodels_db::collector::url::{category_url, page_url, percent_encode, WIKI_API};
use mobilemodels_db::pattern;

fn strings(v: &[&str]) -> Vec<String> {
    v.iter().map(|s| s.to_string()).collect()
}

// ---------------------------------------------------------------------------
// Dates
// ---------------------------------------------------------------------------

#[test]
fn days_are_counted_from_the_epoch() {
    assert_eq!(parse_date("1970-01-01"), 0);
    assert_eq!(parse_date("1970-01-02"), 1);
    assert_eq!(parse_date("1969-12-31"), -1);
    assert_eq!(parse_date("2026-12-31"), 20818);
    assert_eq!(parse_date("no date"), 0);
    assert_eq!(parse_date("2026-02-30"), 0);
}

#[test]
fn dates_are_written_and_read_back() {
    for day in [FIRST_DAY, -719529, -719528, -1, 0, 1, 15706, 20818, 2932896, 2932897, LAST_DAY] {
        assert_eq!(parse_date(&format_date(day)), day);
    }
    assert_eq!(format_date(FIRST_DAY), "-262143-01-01");
    assert_eq!(format_date(LAST_DAY), "+262142-12-31");
}

#[test]
fn there_is_no_date_outside_of_the_calendar() {
    assert_eq!(format_date(FIRST_DAY - 1), "");
    assert_eq!(format_date(LAST_DAY + 1), "");
    assert_eq!(add_days("+262142-12-31", 1), "");
}

#[test]
fn adding_days_may_not_be_countable() {
    assert_eq!(checked_add_days("2026-12-31", 1).as_deref(), Some("2027-01-01"));
    assert_eq!(checked_add_days("2026-12-31", i64::MAX), None);
    assert_eq!(checked_add_days("2026-12-31", i64::MAX / 86400), None);
    assert_eq!(checked_add_days("1970-01-01", i64::MAX / 86400).as_deref(), Some(""));
}

#[test]
fn the_middle_is_rounded_toward_the_epoch() {
    assert_eq!(mid_date("1970-01-01", "1970-01-04"), "1970-01-02");
    assert_eq!(mid_date("1969-12-29", "1970-01-01"), "1969-12-31");
}

// ---------------------------------------------------------------------------
// Addresses
// ---------------------------------------------------------------------------

#[test]
fn reserved_bytes_are_escaped() {
    assert_eq!(percent_encode("aZ09-_.~"), "aZ09-_.~");
    assert_eq!(percent_encode("a b/c?"), "a%20b%2Fc%3F");
    assert_eq!(percent_encode("华为"), "%E5%8D%8E%E4%B8%BA");
    assert_eq!(percent_encode(""), "");
}

#[test]
fn escaped_texts_can_be_read_back() {
    for s in ["", "plain", "100% 华为 ~", "a&b=c", "\u{0}\u{10ffff}"] {
        let text = percent_encode(s);
        let mut bytes: Vec<u8> = Vec::new();
        let mut rest = text.as_bytes();
        while let Some(b) = rest.first() {
            if *b == b'%' {
                let hex = std::str::from_utf8(&rest[1..3]).unwrap();
                bytes.push(u8::from_str_radix(hex, 16).unwrap());
                rest = &rest[3..];
            } else {
                bytes.push(*b);
                rest = &rest[1..];
            }
        }
        assert_eq!(bytes, s.as_bytes());
    }
}

#[test]
fn addresses_of_pages_and_categories() {
    assert_eq!(
        page_url(WIKI_API, "List_of_iPhone_models"),
        "https://en.wikipedia.org/w/api.php?action=parse&page=List_of_iPhone_models&prop=text&format=json&formatversion=2"
    );
    assert_eq!(
        category_url("Category:A b", ""),
        "https://en.wikipedia.org/w/api.php?action=query&list=categorymembers&cmtitle=Category%3AA%20b&cmlimit=500&cmtype=page%7Csubcat&format=json&formatversion=2"
    );
    assert!(category_url("C", "page|4").ends_with("&formatversion=2&cmcontinue=page%7C4"));
}

// ---------------------------------------------------------------------------
// Certificates
// ---------------------------------------------------------------------------

fn record(name: &str, model: &str, org: &str, date: &str) -> String {
    format!(
        r#"{{"equipmentName":"{name}","equipmentModel":"{model}","applyOrg":"{org}","licenseNo":"L-{model}","regDate":"{date}"}}"#
    )
}

fn answer(records: &[String]) -> String {
    format!(r#"{{"code":200,"data":{{"records":[{}]}}}}"#, records.join(","))
}

fn phones(n: usize, date: &str) -> String {
    let v: Vec<String> = (0..n)
        .map(|i| record("5G数字移动电话机", &format!("M{i}"), "某公司", date))
        .collect();
    answer(&v)
}

#[test]
fn companies_stand_for_brands() {
    assert_eq!(normalize_cn_brand("小米通讯技术有限公司"), "小米");
    assert_eq!(normalize_cn_brand("维沃移动通信有限公司"), "vivo");
    assert_eq!(normalize_cn_brand("苹果电脑贸易"), "Apple");
    assert_eq!(normalize_cn_brand("奇酷360"), "360");
    assert_eq!(normalize_cn_brand("华为小米"), "小米");
    assert_eq!(normalize_cn_brand("某公司"), "某公司");
    assert_eq!(normalize_cn_brand("维沃移动通信有限公司"), "vivo");
    assert_eq!(normalize_cn_brand("苹果电脑贸易(上海)有限公司"), "Apple");
}

#[test]
fn a_brand_is_its_own_brand() {
    for org in ["小米", "华为", "OPPO", "维沃", "荣耀", "中兴", "努比亚", "三星", "苹果", "诺基亚",
        "摩托罗拉", "联想", "索尼", "魅族", "一加", "真我", "酷派", "TCL", "金立", "360", "某公司"]
    {
        let brand = normalize_cn_brand(org);
        assert_eq!(normalize_cn_brand(&brand), brand);
    }
}

#[test]
fn the_first_window_is_that_of_the_newest_generation() {
    let mut c = Crawl::from_file(None, None, None);
    let w = c.advance().unwrap();
    assert_eq!((w.start.as_str(), w.end.as_str(), w.depth), ("2019-01-01", "2026-12-31", 0));
    assert_eq!(
        c.url(&w),
        "https://jwxk.miit.gov.cn/dev-api-20/internetService/CertificateQuery?isphoto=0&pageNo=1&pageSize=30&equipmentName=5G&startDate=2019-01-01&endDate=2026-12-31"
    );
    assert_eq!(c.filter(), "5G");
    let w = c.advance().unwrap();
    assert_eq!(w.start, "2013-01-01");
    assert_eq!(c.filter(), "LTE");
    assert!(c.url(&w).contains("equipmentName=LTE&"));
    assert!(c.advance().is_none());
    assert_eq!(c.queries, 2);
}

#[test]
fn since_moves_the_start_but_not_before_the_generation() {
    let mut c = Crawl::from_file(None, None, Some("2015-06-01".to_string()));
    assert_eq!(c.advance().unwrap().start, "2019-01-01");
    assert_eq!(c.advance().unwrap().start, "2015-06-01");
}

#[test]
fn records_are_taken_once_and_only_of_phones() {
    let mut c = Crawl::from_file(None, None, None);
    let w = c.advance().unwrap();
    let reply = answer(&[
        record(" 5G数字移动电话机 ", " V1 ", "维沃移动通信", "2020-01-01"),
        record("5G数字移动电话机", "V1", "华为", "2020-01-02"),
        record("5G基站", "B1", "华为", "2020-01-02"),
        record("5G数字移动电话机", " ", "华为", "2020-01-02"),
    ]);
    assert_eq!(c.take_reply(&w, &reply), Outcome::Taken);
    assert_eq!(c.items.len(), 1);
    assert_eq!(c.items[0].model, "V1");
    match &c.items[0].source {
        Source::New(e) => {
            assert_eq!(e.brand, "vivo");
            assert_eq!(e.name, "5G数字移动电话机");
            assert_eq!(e.series.as_deref(), Some("进网许可"));
            assert_eq!(e.code.as_deref(), Some("L- V1 "));
            assert_eq!(e.models[0].ids, vec!["V1"]);
            assert_eq!(e.models[0].market_name, "5G数字移动电话机");
        }
        Source::Kept(_) => panic!("a record of the service"),
    }
}

#[test]
fn a_full_answer_is_bisected_with_the_newer_half_first() {
    let mut c = Crawl::from_file(None, None, None);
    let w = c.advance().unwrap();
    assert_eq!(c.take_reply(&w, &phones(30, "2020-01-01")), Outcome::Split);
    assert!(c.items.is_empty());
    let newer = c.advance().unwrap();
    assert_eq!((newer.start.as_str(), newer.end.as_str()), ("2023-01-01", "2026-12-31"));
    assert_eq!(newer.depth, 1);
    let older = c.advance().unwrap();
    assert_eq!((older.start.as_str(), older.end.as_str()), ("2019-01-01", "2022-12-31"));
}

/// The reply to a window: full where it is longer than 300 days or holds the first
/// day of 2024, and none for one of the years.
fn reply_to(start: &str, end: &str) -> Option<String> {
    if start.starts_with("2021") {
        return None;
    }
    let days = parse_date(end) - parse_date(start);
    let full = days > 300 || (start <= "2024-01-01" && "2024-01-01" <= end);
    Some(if full { phones(30, end) } else { answer(&[]) })
}

fn search(w: &Window, asked: &mut Vec<(String, String)>) {
    asked.push((w.start.clone(), w.end.clone()));
    if let Some(reply) = reply_to(&w.start, &w.end) {
        if reply == phones(30, &w.end) && w.start < w.end {
            let (older, newer) = halves(w);
            search(&newer, asked);
            search(&older, asked);
        }
    }
}

#[test]
fn windows_are_searched_in_the_order_of_the_bisection() {
    let mut expected = Vec::new();
    for start in ["2019-01-01", "2013-01-01"] {
        let w = Window { start: start.to_string(), end: "2026-12-31".to_string(), depth: 0 };
        search(&w, &mut expected);
    }
    let mut c = Crawl::from_file(None, None, None);
    let mut asked = Vec::new();
    while let Some(w) = c.advance() {
        asked.push((w.start.clone(), w.end.clone()));
        if let Some(reply) = reply_to(&w.start, &w.end) {
            c.take_reply(&w, &reply);
        }
    }
    assert!(asked.len() > 40);
    assert_eq!(asked, expected);
}

#[test]
fn a_window_is_asked_for_three_times_at_most() {
    assert!(asks_again(0));
    assert!(asks_again(1));
    assert!(!asks_again(2));
    assert!(!asks_again(usize::MAX));
}

#[test]
fn the_halves_of_a_window_meet() {
    let w = Window { start: "2026-01-01".to_string(), end: "2026-01-02".to_string(), depth: 3 };
    let (older, newer) = halves(&w);
    assert_eq!((older.start.as_str(), older.end.as_str()), ("2026-01-01", "2026-01-01"));
    assert_eq!((newer.start.as_str(), newer.end.as_str()), ("2026-01-02", "2026-01-02"));
    assert_eq!((older.depth, newer.depth), (4, 4));
}

#[test]
fn other_answers() {
    let mut c = Crawl::from_file(None, None, None);
    let w = c.advance().unwrap();
    assert_eq!(c.take_reply(&w, "no json"), Outcome::Empty);
    assert_eq!(c.take_reply(&w, r#"{"code":500,"data":{}}"#), Outcome::Empty);
    assert_eq!(c.take_reply(&w, r#"{"code":200,"data":null}"#), Outcome::Empty);
    assert_eq!(c.take_reply(&w, r#"{"code":200,"data":{}}"#), Outcome::Taken);
    assert_eq!(c.take_reply(&w, &phones(30, "2018-12-31")), Outcome::Stale);
    assert_eq!(c.take_reply(&w, &phones(29, "2018-12-31")), Outcome::Taken);
    assert_eq!(c.items.len(), 29);
    let day = Window { start: "2020-01-01".to_string(), end: "2020-01-01".to_string(), depth: 9 };
    assert_eq!(c.take_reply(&day, &phones(31, "2020-01-01")), Outcome::Taken);
    assert_eq!(c.items.len(), 31);
}

#[test]
fn the_limit_ends_the_collection() {
    let mut c = Crawl::from_file(None, Some(3), None);
    let w = c.advance().unwrap();
    assert_eq!(c.take_reply(&w, &phones(20, "2020-01-01")), Outcome::Taken);
    assert_eq!(c.items.len(), 3);
    assert!(c.advance().is_none());
    assert!(Crawl::from_file(None, Some(0), None).advance().is_none());
}

#[test]
fn queries_and_bisections_are_bounded() {
    let mut c = Crawl::from_file(None, None, None);
    let full = phones(30, "9999-12-31");
    let mut asked = 0;
    while let Some(w) = c.advance() {
        asked += 1;
        assert!(w.depth <= 20);
        c.take_reply(&w, &full);
    }
    assert!(asked <= MAX_QUERIES);
    assert_eq!(c.queries, asked);
}

#[test]
fn what_was_collected_before_is_kept() {
    let file = r#"[
        {"name":"TD-LTE数字移动电话机","models":[{"ids":["A1"]}]},
        {"name":"GSM数字移动电话机","models":[{"ids":["A2"]}]},
        {"name":"5G数字移动电话机","models":[{"ids":["A1"]}]},
        {"name":"5G数字移动电话机","models":[]},
        {"name":"5G数字移动电话机","models":[{"ids":["A3","A4"]}]}
    ]"#;
    let mut c = Crawl::from_file(Some(file), None, None);
    let kept: Vec<usize> = c
        .items
        .iter()
        .map(|i| match i.source {
            Source::Kept(p) => p,
            Source::New(_) => panic!("nothing new yet"),
        })
        .collect();
    assert_eq!(kept, vec![0, 4]);
    let w = c.advance().unwrap();
    let reply = answer(&[record("5G数字移动电话机", "A3", "华为", "2020-01-01")]);
    c.take_reply(&w, &reply);
    assert_eq!(c.items.len(), 2);
    assert!(Crawl::from_file(Some("{}"), None, None).items.is_empty());
    assert!(Crawl::from_file(Some("["), None, None).items.is_empty());
}

// ---------------------------------------------------------------------------
// Huawei
// ---------------------------------------------------------------------------

const ARTICLE: &str = r#"<table class="x">LYA-AL00</table><TABLE id="i" class="a infobox b">
<tr><th scope="row">Brand</th> <td>XXX-AL99</td></tr>
<tr><th>Also <b>Model</b></th>
<td>Mate 60: BRA-AL00, Pro: <i>ALN-AL00</i>/ALN-AL80, BRA-AL00 and A-AL00</td></tr>
</TABLE>"#;

#[test]
fn codes_of_an_article() {
    let codes = extract_huawei_models(ARTICLE).ok().unwrap();
    assert_eq!(codes, vec!["BRA-AL00", "ALN-AL00", "ALN-AL80"]);
    assert!(extract_huawei_models("<table>BRA-AL00</table>").ok().unwrap().is_empty());
}

#[test]
fn patterns_may_be_rejected() {
    assert!(pattern::check("(").is_err());
    assert!(pattern::check("(a)").is_ok());
}

#[test]
fn texts_are_added_once() {
    let mut v = strings(&["a"]);
    add_unrepeated(&mut v, strings(&["b", "a", "b", "c"]));
    assert_eq!(v, vec!["a", "b", "c"]);
}

#[test]
fn a_tour_goes_through_each_category_once() {
    let mut t = Tour::new(HUAWEI_CATEGORY);
    let first = t.advance().unwrap();
    assert!(first.contains("cmtitle=Category%3AHuawei_mobile_phones&"));
    let reply = r#"{"continue":{"cmcontinue":"page|2"},"query":{"categorymembers":[
        {"title":"Huawei P30"},{"title":"Category:Huawei_mobile_phones"},{"title":"Category:B"}]}}"#;
    assert!(!t.take_reply(Some(reply)));
    assert!(t.advance().unwrap().ends_with("&cmcontinue=page%7C2"));
    let reply = r#"{"query":{"categorymembers":[{"title":"Huawei P30"},{"title":"Huawei P40"}]}}"#;
    assert!(t.take_reply(Some(reply)));
    assert!(t.advance().unwrap().contains("cmtitle=Category%3AB&"));
    assert!(t.take_reply(None));
    assert!(t.advance().is_none());
    assert_eq!(t.titles, vec!["Huawei P30", "Huawei P40"]);
}

#[test]
fn a_reply_that_is_no_json_ends_the_category() {
    let mut t = Tour::new("Category:A");
    assert!(t.advance().is_some());
    assert!(t.take_reply(Some("<html>")));
    assert!(t.advance().is_none());
    assert!(t.titles.is_empty());
}

#[test]
fn titles_of_devices() {
    let titles = strings(&[
        "Huawei P30",
        "List of Huawei phones",
        "Huawei Mobile Services",
        "Smartphone A",
        "A List of B",
    ]);
    assert_eq!(device_titles(&titles), vec!["Huawei P30", "A List of B"]);
}

#[test]
fn articles_give_devices_up_to_the_limit() {
    let titles = strings(&["Huawei Huawei HUAWEI Mate 60", "Huawei P30", "Huawei P40"]);
    let mut a = Articles::new(titles, Some(1));
    let title = a.advance().unwrap();
    assert_eq!(title, "Huawei Huawei HUAWEI Mate 60");
    let quoted = ARTICLE.replace('"', "\\\"").replace('\n', " ");
    let reply = format!(r#"{{"parse":{{"text":"{quoted}"}}}}"#);
    assert!(matches!(a.take_reply(&title, "{}"), Ok(false)));
    assert!(matches!(a.take_reply(&title, "no json"), Ok(false)));
    assert!(matches!(a.take_reply(&title, &reply), Ok(true)));
    assert!(matches!(a.take_reply("Huawei copy", &reply), Ok(false)));
    assert!(a.advance().is_none());
    let e = &a.found.entries[0];
    assert_eq!(e.brand, "华为 (Huawei)");
    assert_eq!(e.name, "Mate 60");
    assert_eq!(e.series.as_deref(), Some("维基百科"));
    assert_eq!(e.models[0].ids, vec!["BRA-AL00", "ALN-AL00", "ALN-AL80"]);
}

const LIST: &str = r#"<table class="wikitable">
<tr><th>其他</th></tr><tr><td>LYA-AL00</td></tr></table>
<table class="wikitable">
<tr><th>名称</th><th>内部代号</th><th>型号</th></tr>
<tr><th>Mate</th></tr>
<tr><td>Mate 60</td><td>Charlotte</td><td>BRA-AL00 / ALN-AL80 / BRA-AL00</td></tr>
<tr><td>copy</td><td></td><td>ALN-AL80 BRA-AL00</td></tr>
<tr><td></td><td></td><td>VOG2-L29</td></tr>
<tr><td>none</td><td>x</td><td>-</td></tr></table>
<table class="wikitable">
<tr><th>型号</th></tr><tr><td>ELE-AL00</td></tr></table>"#;

#[test]
fn devices_of_the_list() {
    let tables = parse_wiki_tables(LIST);
    let all = huawei_list_entries(&tables, None).ok().unwrap();
    assert_eq!(all.len(), 3);
    assert_eq!(all[0].name, "Mate 60");
    assert_eq!(all[0].codename.as_deref(), Some("Charlotte"));
    assert_eq!(all[0].series.as_deref(), Some("华为智能手机型号列表"));
    assert_eq!(all[0].models[0].ids, vec!["ALN-AL80", "BRA-AL00"]);
    assert_eq!(all[1].name, "VOG2-L29");
    assert_eq!(all[1].codename.as_deref(), Some(""));
    assert_eq!(all[2].models[0].ids, vec!["ELE-AL00"]);
    assert_eq!(huawei_list_entries(&tables, Some(2)).ok().unwrap().len(), 2);
    assert_eq!(huawei_list_entries(&tables, Some(0)).ok().unwrap().len(), 1);
}

#[test]
fn a_row_of_the_list_with_its_codes() {
    let row: Vec<(bool, String)> =
        ["Mate", "x", "Code"].iter().map(|s| (false, format!(" {s} "))).collect();
    let codes = strings(&["B-2", "A-1", "B-2"]);
    let (key, e) = coded_row_entry(&row, Some(0), Some(1), Some(2), &codes).unwrap();
    assert_eq!(key, vec!["A-1|B-2"]);
    assert_eq!((e.brand.as_str(), e.name.as_str()), ("华为 (Huawei)", "Mate"));
    assert_eq!(e.codename.as_deref(), Some("Code"));
    assert_eq!(e.models[0].ids, vec!["A-1", "B-2"]);
    let (_, e) = coded_row_entry(&row, None, Some(1), None, &codes).unwrap();
    assert_eq!((e.name.as_str(), e.codename.as_deref()), ("x", Some("")));
    assert!(coded_row_entry(&row, Some(0), Some(1), Some(2), &Vec::new()).is_none());
    let section = vec![(true, "Mate".to_string())];
    assert!(coded_row_entry(&section, Some(0), None, None, &codes).is_none());
}
