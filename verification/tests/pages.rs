//! Device entries from pages.

use mobilemodels_db::collector::apple::{apple_support_entries, next_marker};
use mobilemodels_db::collector::columns::label_kind;
use mobilemodels_db::collector::google::google_play_entries;
use mobilemodels_db::collector::html::{parse_rows, strip_tags, unescape, unescape_html};
use mobilemodels_db::collector::page::{extract_page, page_html, ReplyError};
use mobilemodels_db::collector::tables::try_parse_wiki_tables;
use mobilemodels_db::collector::wiki::{col_index, contains_one};
use mobilemodels_db::collector::{
    add_days, extract_apple_columns, extract_from_tables, mid_date, parse_apple_support,
    parse_wiki_tables,
};

const APPLE_FIXTURE: &str = r#"<table class="wikitable"><tbody>
<tr><th>Model</th><th>Release date</th><th>Model number</th><th>SoC</th></tr>
<tr><td>iPhone 3G</td><td>July 11, 2008</td><td>A1324</td><td>Samsung S5L8920</td></tr>
<tr><td>iPhone 4</td><td>June 24, 2010</td><td>A1332 (GSM), A1349 (CDMA)</td><td>Apple A4</td></tr>
<tr><th colspan="4">2011: iPhone 4S</th></tr>
<tr><td>iPhone 4S</td><td>October 14, 2011</td><td>A1431 (GSM), A1387 (CDMA)</td><td>Apple A5</td></tr>
</tbody></table>"#;

#[test]
fn parse_apple_fixture() {
    let tables = parse_wiki_tables(APPLE_FIXTURE);
    assert_eq!(tables.len(), 1);
    let devices = extract_from_tables(&tables, "Apple", "apple", None);
    assert_eq!(devices.len(), 3, "section header row must be skipped");
    let d0 = &devices[0];
    assert_eq!(d0.name, "iPhone 3G");
    assert_eq!(d0.models[0].ids[0], "A1324");
    let d1 = &devices[1];
    let ids: Vec<&str> = d1.models[0].ids.iter().map(|v| v.as_str()).collect();
    assert_eq!(ids, vec!["A1332", "A1349"], "split multiple A-numbers");
    let d3 = &devices[2];
    assert_eq!(d3.name, "iPhone 4S");
}

const HUAWEI_FIXTURE: &str = r#"<table class="wikitable"><tbody>
<tr><th>Model</th><th>Codename</th><th>Released</th></tr>
<tr><td>Huawei P30 Pro</td><td>VOG-L29</td><td>2019</td></tr>
<tr><td>Huawei Mate 60 Pro</td><td>ALN-AL10</td><td>2023</td></tr>
</tbody></table>"#;

#[test]
fn date_math() {
    assert_eq!(mid_date("2000-01-01", "2026-12-31"), "2013-07-01");
    assert_eq!(add_days("2026-12-31", 1), "2027-01-01");
    assert_eq!(mid_date("2026-01-01", "2026-12-31"), "2026-07-02");
    assert_eq!(add_days("2000-01-01", -1), "1999-12-31");
}

#[test]
fn parse_huawei_fixture() {
    let tables = parse_wiki_tables(HUAWEI_FIXTURE);
    let devices = extract_from_tables(&tables, "Huawei", "huawei", None);
    assert_eq!(devices.len(), 2);
    assert_eq!(devices[0].name, "Huawei P30 Pro");
    assert_eq!(devices[0].codename.as_deref(), Some("VOG-L29"));
    assert_eq!(devices[0].models[0].ids[0], "VOG-L29");
    assert_eq!(devices[1].name, "Huawei Mate 60 Pro");
}

const APPLE_SUPPORT_FIXTURE: &str = r#"<div><h2 class="gb-header">iPhone 15 Pro Max</h2>
<p>Model numbers: A2849 (United States, Puerto Rico), A3105 (Canada), A3108 (China mainland)</p>
<h2 class="gb-header">iPhone 15</h2>
<p>Model numbers: A3089, A3092, A3090</p>
<h2 class="gb-header">iPhone SE (2nd generation)</h2>
<p>Model numbers: A2275 (United States)</p>
<p>Find the model number on the back: A1234 example text</p>"#;

#[test]
fn parse_apple_support_fixture() {
    let pairs = parse_apple_support(APPLE_SUPPORT_FIXTURE);
    assert_eq!(pairs.len(), 3, "instruction text without a header must be skipped");
    let (name, ids) = &pairs[0];
    assert_eq!(name, "iPhone 15 Pro Max");
    assert_eq!(ids, &vec!["A2849".to_string(), "A3105".to_string(), "A3108".to_string()]);
    assert_eq!(pairs[1].0, "iPhone 15");
    assert_eq!(pairs[2].0, "iPhone SE (2nd generation)");
}

const APPLE_COLUMNS_FIXTURE: &str = r#"<table class="wikitable"><tbody>
<tr><th>Model</th><th>iPhone 5c</th><th>iPhone 5</th><th>iPhone 4s</th><th>iPhone 4</th></tr>
<tr><td>Picture</td><td></td><td></td><td></td><td></td></tr>
<tr><td>Basic Info</td><td>Hardware Strings</td><td>iPhone5,3iPhone5,4</td><td>iPhone5,1iPhone5,2</td><td>iPhone4,1</td><td>iPhone3,1</td></tr>
<tr><td>Model number</td><td>A1456A1507A1529</td><td>A1428A1429A1442</td><td>A1431A1387</td><td>A1349A1332</td></tr>
</tbody></table>"#;

#[test]
fn parse_apple_columns_fixture() {
    let tables = parse_wiki_tables(APPLE_COLUMNS_FIXTURE);
    assert_eq!(tables.len(), 1);
    let devices = extract_apple_columns(&tables);
    assert_eq!(devices.len(), 4);
    assert_eq!(devices[0].name, "iPhone 5c");
    assert_eq!(devices[0].models[0].ids, vec!["A1456", "A1507", "A1529"]);
    assert_eq!(devices[3].name, "iPhone 4");
    assert_eq!(devices[3].models[0].ids, vec!["A1332", "A1349"], "A1332 老机型回归");
    assert_eq!(devices[3].codename.as_deref(), Some("iPhone3,1"));
}

#[test]
fn a_blank_heading_does_not_move_the_columns() {
    let row = |cells: &[&str], header: bool| -> Vec<(bool, String)> {
        cells.iter().map(|c| (header, c.to_string())).collect()
    };
    let tables = vec![vec![
        row(&["Model", "", "iPhone 5", "iPhone 4"], true),
        row(&["Model number", "", "A1428", "A1332"], false),
        row(&["Hardware", "x", "iPhone5,1", "iPhone3,1"], false),
    ]];
    let devices = extract_apple_columns(&tables);
    assert_eq!(devices.len(), 2);
    assert_eq!(devices[0].name, "iPhone 5");
    assert_eq!(devices[0].models[0].ids, vec!["A1428"]);
    assert_eq!(devices[0].codename.as_deref(), Some("iPhone5,1"));
    assert_eq!(devices[1].name, "iPhone 4");
    assert_eq!(devices[1].models[0].ids, vec!["A1332"]);
    assert_eq!(devices[1].codename.as_deref(), Some("iPhone3,1"));
}

#[test]
fn tables_of_two_pages_come_one_after_the_other() {
    for b in [HUAWEI_FIXTURE, "<table no", "", "e class=\"wikitable\"></table>"] {
        let mut both = parse_wiki_tables(APPLE_FIXTURE);
        both.extend(parse_wiki_tables(b));
        assert_eq!(parse_wiki_tables(&format!("{APPLE_FIXTURE}{b}")), both);
    }
}

// ---------------------------------------------------------------------------
// Apple support page
// ---------------------------------------------------------------------------

#[test]
fn support_numbers_are_sorted_and_once() {
    let page = r#"<h2 class="gb-header">iPhone 9</h2>Model numbers: A3092, A3089, A3092<p>"#;
    let pairs = parse_apple_support(page);
    assert_eq!(pairs, vec![("iPhone 9".to_string(), vec!["A3089".to_string(), "A3092".to_string()])]);
}

#[test]
fn support_pairs_are_not_repeated() {
    let one = r#"<h2 class="gb-header">iPhone 9</h2><p>Model numbers: A3092</p>"#;
    let page = format!("{one}{one}");
    assert_eq!(parse_apple_support(&page).len(), 1);
}

#[test]
fn support_skips_other_devices_and_cut_headings() {
    let ipad = r#"<h2 class="gb-header">iPad 9</h2><p>Model numbers: A3092</p>"#;
    assert!(parse_apple_support(ipad).is_empty());
    let cut = r#"<h2 class="gb-header">iPhone 9</h2><p>Model numbers: A3092</p><h2 class="gb-header"#;
    assert_eq!(parse_apple_support(cut).len(), 1);
}

#[test]
fn support_entries_keep_the_first_up_to_the_limit() {
    let all = apple_support_entries(APPLE_SUPPORT_FIXTURE, None);
    assert_eq!(all.len(), 3);
    assert_eq!(all[1].brand, "Apple");
    assert_eq!(all[1].name, "iPhone 15");
    assert_eq!(all[1].models[0].ids, vec!["A3089", "A3090", "A3092"]);
    assert_eq!(all[1].models[0].market_name, "iPhone 15");
    assert!(all[1].codename.is_none());
    assert_eq!(apple_support_entries(APPLE_SUPPORT_FIXTURE, Some(2)).len(), 2);
    assert_eq!(apple_support_entries(APPLE_SUPPORT_FIXTURE, Some(0)).len(), 0);
    assert_eq!(apple_support_entries(APPLE_SUPPORT_FIXTURE, Some(9)).len(), 3);
}

#[test]
fn later_text_changes_no_entry() {
    let first = parse_apple_support(APPLE_SUPPORT_FIXTURE);
    for more in ["", "A9999", APPLE_SUPPORT_FIXTURE, "<h2 class=\"gb-header\">iPhone 1</h2>Model numbers: A1203"] {
        let all = parse_apple_support(&format!("{APPLE_SUPPORT_FIXTURE}{more}"));
        assert_eq!(&all[..first.len()], &first[..]);
    }
}

#[test]
fn the_earlier_marker_comes_first() {
    let chars = |s: &str| s.chars().collect::<Vec<char>>();
    assert_eq!(next_marker(&chars("ab gb-header Model numbers:")), Some(3));
    assert_eq!(next_marker(&chars("Model numbers: gb-header")), Some(0));
    assert_eq!(next_marker(&chars("only gb-header")), Some(5));
    assert_eq!(next_marker(&chars("neither")), None);
}

// ---------------------------------------------------------------------------
// Text of pages
// ---------------------------------------------------------------------------

#[test]
fn tags_are_removed() {
    assert_eq!(strip_tags("a<b>c</b>d"), "acd");
    assert_eq!(strip_tags("plain"), "plain");
    assert_eq!(strip_tags("cut <b"), "cut ");
}

#[test]
fn references_are_resolved() {
    assert_eq!(unescape("A &amp; B &lt;C&gt; &quot;D&quot;"), "A & B <C> \"D\"");
    assert_eq!(unescape_html("&#65;&#x42;&nbsp;C"), "AB C");
    assert_eq!(unescape_html("no references"), "no references");
    assert_eq!(unescape_html("&unknown; &#xD800;"), "&unknown; &#xD800;");
}

#[test]
fn rows_of_four_cells() {
    let page = "<tr><td>B</td><td>N</td><td>C</td><td>M</td></tr><tr><td>short</td></tr>";
    let rows = parse_rows(page);
    assert_eq!(
        rows,
        vec![("B".to_string(), "N".to_string(), "C".to_string(), "M".to_string())]
    );
}

#[test]
fn play_devices_once_for_each_brand_codename_and_model() {
    let page = "<tr><td>B</td><td>N</td><td>C</td><td>M</td></tr>\
        <tr><td>B</td><td>other</td><td>C</td><td>M</td></tr>\
        <tr><td></td><td></td><td>c2</td><td>M2</td></tr>\
        <tr><td>B</td><td>none</td><td></td><td>M3</td></tr>";
    let all = google_play_entries(page, None);
    assert_eq!(all.len(), 2);
    assert_eq!(all[0].brand, "B");
    assert_eq!(all[0].name, "N");
    assert_eq!(all[0].codename.as_deref(), Some("C"));
    assert_eq!(all[0].models[0].ids, vec!["M"]);
    assert_eq!(all[1].brand, "Unknown");
    assert_eq!(all[1].name, "M2");
    assert_eq!(google_play_entries(page, Some(1)).len(), 1);
}

#[test]
fn a_cell_that_is_not_closed_has_no_tables() {
    assert!(try_parse_wiki_tables("<table class=\"wikitable\"><tr><td>open</tr></table>").is_none());
    assert_eq!(try_parse_wiki_tables("no tables").map(|t| t.len()), Some(0));
}

#[test]
fn labels_in_lower_case() {
    assert_eq!(label_kind("the model number"), (true, true));
    assert_eq!(label_kind("hardware strings"), (false, true));
    assert_eq!(label_kind("hardware"), (false, true));
    assert_eq!(label_kind("hardware x"), (false, false));
    assert_eq!(label_kind("Model number"), (false, false));
    assert!(contains_one("model number", &["name", "number"]));
    assert!(!contains_one("Number", &["name", "number"]));
    assert!(!contains_one("x", &[]));
}

#[test]
fn columns_are_found_in_whatever_case() {
    let header = vec![(true, "Name".to_string()), (true, "MODEL Number".to_string())];
    assert_eq!(col_index(&header, &["model number"]), Some(1));
    assert_eq!(col_index(&header, &["codename", "name"]), Some(0));
    assert_eq!(col_index(&header, &["year"]), None);
}

#[test]
fn the_limit_is_looked_at_when_an_entry_is_added() {
    let tables = parse_wiki_tables(HUAWEI_FIXTURE);
    assert_eq!(extract_from_tables(&tables, "Huawei", "huawei", Some(1)).len(), 1);
    assert_eq!(extract_from_tables(&tables, "Huawei", "huawei", Some(0)).len(), 1);
}

// ---------------------------------------------------------------------------
// Replies
// ---------------------------------------------------------------------------

#[test]
fn the_page_of_a_reply() {
    let reply = r#"{"parse":{"title":"T","text":"<b>华</b>"}}"#;
    assert!(matches!(page_html(reply), Ok(s) if s == "<b>华</b>"));
    assert!(matches!(page_html("{}"), Err(ReplyError::NoPage)));
    assert!(matches!(page_html(r#"{"parse":{"text":5}}"#), Err(ReplyError::NoPage)));
    assert!(matches!(page_html("{"), Err(ReplyError::NotJson(_))));
}

#[test]
fn the_kind_of_a_page_decides_how_it_is_read() {
    let tables = parse_wiki_tables(APPLE_COLUMNS_FIXTURE);
    let columns = extract_page(&tables, "Apple", "apple-columns", None);
    assert_eq!(columns.len(), 4);
    assert_eq!(extract_page(&tables, "Apple", "apple-columns", Some(3)).len(), 3);
    assert_eq!(extract_page(&tables, "Apple", "apple-columns", Some(0)).len(), 0);
    let tables = parse_wiki_tables(APPLE_FIXTURE);
    assert_eq!(extract_page(&tables, "Apple", "apple", None).len(), 3);
}
