//! The index of the store and what is asked of it.

use mobilemodels_db::kv::{
    append_id, ids_for, norm, postings, series_key, IndexTable, Posting,
};
use mobilemodels_db::model::{Device, Model};
use mobilemodels_db::order::{least, order};
use mobilemodels_db::query::{
    answer_brand, answer_headline, answer_series, brand_note, brands_containing, lookup,
    lowered_has, missing_device, per_brand, question, search_key, series_contains, series_note, stats,
    unknown_kind, Question,
};
use mobilemodels_db::record::{all_devices, device_bytes, device_from_bytes};
use std::collections::HashMap;

fn strings(v: &[&str]) -> Vec<String> {
    v.iter().map(|s| s.to_string()).collect()
}

fn device(id: u32, brand: &str, series: &str, code: &str, name: &str, codename: &str, ids: &[&str]) -> Device {
    Device {
        id,
        brand: brand.to_string(),
        file: "f.json".to_string(),
        series: series.to_string(),
        code: code.to_string(),
        name: name.to_string(),
        codename: codename.to_string(),
        models: vec![Model { ids: strings(ids), market_name: name.to_string() }],
    }
}

fn ids_of(bytes: Option<&Vec<u8>>) -> Vec<u64> {
    ids_for(bytes.map(|b| b.as_slice())).ok().unwrap()
}

fn list(ids: &[u32]) -> Vec<u8> {
    let mut bytes: Option<Vec<u8>> = None;
    for id in ids {
        bytes = append_id(bytes.as_deref(), *id).ok();
    }
    bytes.unwrap_or_else(|| vec![0; 8])
}

#[test]
fn keys_are_lowered_in_ascii_only() {
    assert_eq!(norm("A1332"), "a1332");
    assert_eq!(norm("A1332"), norm("a1332"));
    assert_eq!(norm("X1 Ä华"), "x1 Ä华");
    assert_eq!(norm(&norm("Mi ONE")), norm("Mi ONE"));
}

#[test]
fn lists_are_kept_in_eight_bytes_for_each_number() {
    let one = append_id(None, 7).ok().unwrap();
    assert_eq!(one, vec![1, 0, 0, 0, 0, 0, 0, 0, 7, 0, 0, 0, 0, 0, 0, 0]);
    let two = append_id(Some(&one), 0x0102_0304).ok().unwrap();
    assert_eq!(two.len(), 24);
    assert_eq!(two[0], 2);
    assert_eq!(&two[16..], &[4, 3, 2, 1, 0, 0, 0, 0]);
    assert_eq!(ids_for(Some(&two)).ok().unwrap(), vec![7, 0x0102_0304]);
    assert_eq!(ids_for(None).ok().unwrap(), Vec::<u64>::new());
}

#[test]
fn damaged_lists_are_rejected() {
    assert!(ids_for(Some(&[1, 0, 0])).is_err());
    assert!(ids_for(Some(&[2, 0, 0, 0, 0, 0, 0, 0, 7, 0, 0, 0, 0, 0, 0, 0])).is_err());
    assert!(append_id(Some(&[1]), 5).is_err());
    assert!(ids_for(Some(&[255; 8])).is_err());
    let longer = [1, 0, 0, 0, 0, 0, 0, 0, 7, 0, 0, 0, 0, 0, 0, 0, 9, 9];
    assert_eq!(ids_for(Some(&longer)).ok().unwrap(), vec![7]);
}

#[test]
fn tables_have_names() {
    assert_eq!(IndexTable::ModelId.name(), "by_model_id");
    assert_eq!(IndexTable::Name.name(), "by_name");
    assert_eq!(IndexTable::Code.name(), "by_code");
    assert_eq!(IndexTable::Codename.name(), "by_codename");
    assert_eq!(IndexTable::Brand.name(), "by_brand");
    assert_eq!(IndexTable::Series.name(), "by_series");
}

#[test]
fn a_device_is_posted_under_its_keys() {
    let d = device(3, "Apple", "iPhone", "N90AP", "iPhone 4", "iPhone3,1", &["A1332", "A1349"]);
    let all: Vec<(IndexTable, String, u32)> =
        postings(&d).into_iter().map(|p: Posting| (p.table, p.key, p.id)).collect();
    assert_eq!(
        all,
        vec![
            (IndexTable::Name, "iphone 4".to_string(), 3),
            (IndexTable::Code, "n90ap".to_string(), 3),
            (IndexTable::Codename, "iphone3,1".to_string(), 3),
            (IndexTable::Brand, "Apple".to_string(), 3),
            (IndexTable::Series, "Apple\u{0}iPhone".to_string(), 3),
            (IndexTable::ModelId, "a1332".to_string(), 3),
            (IndexTable::ModelId, "a1349".to_string(), 3),
        ]
    );
    let bare = device(4, "B", "", "", "N", "", &[]);
    assert_eq!(postings(&bare).len(), 2);
    assert_eq!(series_key("B", "S"), "B\u{0}S");
}

fn build(devices: &[Device]) -> HashMap<(String, String), Vec<u8>> {
    let mut store: HashMap<(String, String), Vec<u8>> = HashMap::new();
    for d in devices {
        for p in postings(d) {
            let k = (p.table.name().to_string(), p.key);
            let bytes = append_id(store.get(&k).map(|b| b.as_slice()), p.id).ok().unwrap();
            store.insert(k, bytes);
        }
    }
    store
}

#[test]
fn a_built_store_finds_the_devices() {
    let store = build(&[
        device(1, "Apple", "", "", "iPhone 4", "", &["A1332"]),
        device(2, "Apple", "", "", "iPhone 4 CDMA", "", &["A1349", "a1332"]),
    ]);
    let find = |kind: &str, key: &str| {
        let (table, key) = lookup(kind, key).unwrap();
        ids_of(store.get(&(table.name().to_string(), key)))
    };
    assert_eq!(find("model", "a1332"), vec![1, 2]);
    assert_eq!(find("model", "A1349"), vec![2]);
    assert_eq!(find("name", "IPHONE 4"), vec![1]);
    assert_eq!(find("brand", "Apple"), vec![1, 2]);
    assert_eq!(find("brand", "apple"), Vec::<u64>::new());
    assert_eq!(find("codename", ""), Vec::<u64>::new());
}

#[test]
fn a_device_is_found_by_its_market_names() {
    let mut d = device(1, "Apple", "", "", "iPhone 4", "", &["A1332"]);
    d.models[0].market_name = "iPhone 4 (GSM)".to_string();
    for name in ["iPhone 4 (GSM)", "IPHONE 4", "", "iPhone 4 (CDMA)"] {
        d.models.push(Model { ids: strings(&["A1349"]), market_name: name.to_string() });
    }
    let store = build(&[d.clone(), device(2, "Apple", "", "", "iphone 4 (gsm)", "", &[])]);
    let find = |key: &str| {
        let (table, key) = lookup("name", key).unwrap();
        ids_of(store.get(&(table.name().to_string(), key)))
    };
    assert_eq!(find("iPhone 4 (GSM)"), vec![1, 2]);
    assert_eq!(find("iPhone 4"), vec![1]);
    assert_eq!(find("iphone 4 (cdma)"), vec![1]);
    assert_eq!(find(""), Vec::<u64>::new());
    let names: Vec<String> = postings(&d)
        .into_iter()
        .filter(|p| p.table == IndexTable::Name)
        .map(|p| p.key)
        .collect();
    assert_eq!(names, vec!["iphone 4", "iphone 4 (gsm)", "iphone 4 (cdma)"]);
}

/// The entries of a table in the order of their keys.
fn walk(store: &HashMap<(String, String), Vec<u8>>, table: IndexTable) -> Vec<(String, Vec<u8>)> {
    let mut v: Vec<(String, Vec<u8>)> = store
        .iter()
        .filter(|(k, _)| k.0 == table.name())
        .map(|(k, b)| (k.1.clone(), b.clone()))
        .collect();
    v.sort();
    v
}

#[test]
fn answers_of_a_built_store() {
    let store = build(&[
        device(1, "Huawei", "Mate", "", "a", "c1", &["X", "x"]),
        device(2, "华为 (HUAWEI)", "mate X", "", "b", "C1", &["Y"]),
        device(3, "Huawei", "", "", "c", "", &["z"]),
        device(4, "Apple", "Mate", "", "d", "", &[]),
    ]);
    let brands = walk(&store, IndexTable::Brand);
    let series = walk(&store, IndexTable::Series);
    let names: Vec<String> = brands.iter().map(|e| e.0.clone()).collect();
    assert_eq!(ids_of(store.get(&("by_model_id".to_string(), "x".to_string()))), vec![1, 1]);
    assert_eq!(answer_brand(vec![], &brands, "huawei", true).ok().unwrap(), vec![1, 3, 2]);
    assert_eq!(series_contains(&series, None, "MATE").ok().unwrap(), vec![4, 1, 2]);
    assert_eq!(series_contains(&series, None, "").ok().unwrap(), vec![4, 1, 2]);
    assert_eq!(series_contains(&series, Some("Huawei"), "mate").ok().unwrap(), vec![1]);
    let found = answer_series(vec![], &names, &series, "HUAWEI", "mate", true).ok().unwrap();
    assert_eq!(found.ids, vec![1, 2]);
    let counts = per_brand(&brands).ok().unwrap();
    assert_eq!(counts[0], ("Huawei".to_string(), 2));
    assert_eq!(counts.iter().map(|c| c.1).sum::<u64>(), 4);
    assert_eq!(walk(&store, IndexTable::ModelId).len(), 3);
    assert_eq!(walk(&store, IndexTable::Codename).len(), 1);
}

#[test]
fn all_devices_come_out_by_id() {
    let devices: Vec<Device> = [9, 2, 5].iter().map(|i| device(*i, "B", "", "", "n", "", &["m"])).collect();
    let mut entries: Vec<(u32, Vec<u8>)> =
        devices.iter().map(|d| (d.id, device_bytes(d).ok().unwrap())).collect();
    entries.sort();
    let out = all_devices(&entries).ok().unwrap();
    assert_eq!(out.iter().map(|d| d.id).collect::<Vec<u32>>(), vec![2, 5, 9]);
    assert_eq!(format!("{:?}", out[2]), format!("{:?}", devices[0]));
    entries.push((10, vec![1]));
    assert!(all_devices(&entries).is_err());
}

#[test]
fn names_in_lower_case() {
    assert!(lowered_has("华为 (huawei)", "huawei"));
    assert!(!lowered_has("HUAWEI", "huawei"));
    assert!(lowered_has("", ""));
}

#[test]
fn kinds_of_questions() {
    assert!(matches!(lookup("code", "X1"), Some((IndexTable::Code, k)) if k == "x1"));
    assert!(matches!(lookup("codename", "X1"), Some((IndexTable::Codename, k)) if k == "x1"));
    assert!(lookup("series", "X1").is_none());
    assert!(lookup("", "X1").is_none());
    assert_eq!(unknown_kind("x"), "unknown kind `x` (model|code|codename|name|brand)");
    assert_eq!(search_key(" A1 ").as_deref(), Some(" a1 "));
    assert_eq!(search_key(" \u{3000}"), None);
}

#[test]
fn questions_of_the_command_line() {
    assert!(matches!(question(&strings(&["model", "A1"])),
        Some(Question::Lookup { table: IndexTable::ModelId, key }) if key == "a1"));
    assert!(matches!(question(&strings(&["series", "小米", "数字"])),
        Some(Question::Series { brand, series }) if brand == "小米" && series == "数字"));
    assert!(question(&strings(&["series", "小米"])).is_none());
    assert!(question(&strings(&["model"])).is_none());
    assert!(question(&strings(&["other", "x"])).is_none());
}

#[test]
fn what_is_said_of_answers() {
    assert_eq!(answer_headline(0, "model", "X"), "no results for model = \"X\"");
    assert_eq!(answer_headline(12, "brand", "Y"), "12 result(s) for brand = \"Y\":");
    assert_eq!(
        brand_note("a", &strings(&["A", "AB"])),
        "(exact brand \"a\" not found; matching A, AB)"
    );
    assert_eq!(series_note(&strings(&["A"])), "(matched brand(s): A)");
    assert_eq!(missing_device(70), "device 70 not found");
}

#[test]
fn brands_are_found_by_a_part_of_their_name() {
    let brands = strings(&["Xiaomi", "小米 (XIAOMI)", "Apple"]);
    assert_eq!(brands_containing(&brands, "xiaoMI"), vec!["Xiaomi", "小米 (XIAOMI)"]);
    assert_eq!(brands_containing(&brands, "").len(), 3);
    assert!(brands_containing(&brands, "z").is_empty());
    assert_eq!(brands_containing(&strings(&["ÄPFEL"]), "äpf").len(), 1);
}

#[test]
fn an_exact_brand_wins_over_similar_ones() {
    let table = vec![
        ("Xiaomi".to_string(), list(&[1, 2])),
        ("小米 (Xiaomi)".to_string(), list(&[3])),
        ("xiaomi x".to_string(), vec![9]),
    ];
    assert_eq!(answer_brand(vec![5], &table, "xiaomi", true).ok().unwrap(), vec![5]);
    assert_eq!(answer_brand(vec![], &table, "xiaomi", false).ok().unwrap(), vec![1, 2, 3]);
    assert!(answer_brand(vec![], &table, "xiaomi", true).is_err());
    assert_eq!(answer_brand(vec![], &table, "小米", true).ok().unwrap(), vec![3]);
    assert!(answer_brand(vec![], &table, "none", true).ok().unwrap().is_empty());
}

#[test]
fn series_are_found_by_a_part_of_their_name() {
    let table = vec![
        (series_key("A", "Mate"), list(&[1])),
        (series_key("A", "P"), list(&[2])),
        (series_key("B", "mate X"), list(&[3])),
        ("no separator mate".to_string(), list(&[4])),
        (series_key("C", "bad"), vec![1]),
    ];
    assert_eq!(series_contains(&table, None, "MATE").ok().unwrap(), vec![1, 3]);
    assert_eq!(series_contains(&table, Some("B"), "mate").ok().unwrap(), vec![3]);
    assert_eq!(series_contains(&table, Some("b"), "mate").ok().unwrap(), Vec::<u64>::new());
    assert!(series_contains(&table, Some("C"), "bad").is_err());
    assert!(series_contains(&table, None, "").is_err());
    let brands = strings(&["A", "B", "C"]);
    let found = answer_series(vec![], &brands, &table, "", "mate", true).ok().unwrap();
    assert_eq!((found.ids, found.fuzzy), (vec![1, 3], true));
    assert_eq!(found.brands, vec!["A", "B", "C"]);
    let exact = answer_series(vec![8], &brands, &table, "", "mate", true).ok().unwrap();
    assert_eq!((exact.ids, exact.fuzzy), (vec![8], false));
    assert!(answer_series(vec![], &brands, &table, "", "", true).is_err());
    let loose = answer_series(vec![], &brands, &table, "", "", false).ok().unwrap();
    assert_eq!(loose.ids, vec![1, 2, 3]);
}

#[test]
fn the_largest_brands_come_first() {
    let table = vec![
        ("A".to_string(), list(&[1])),
        ("B".to_string(), list(&[1, 2, 3])),
        ("C".to_string(), list(&[4])),
        ("D".to_string(), list(&[])),
        ("E".to_string(), list(&[5, 6, 7])),
    ];
    let names: Vec<(String, u64)> = per_brand(&table).ok().unwrap();
    let expected: Vec<(String, u64)> =
        [("B", 3), ("E", 3), ("A", 1), ("C", 1), ("D", 0)].iter().map(|(s, n)| (s.to_string(), *n)).collect();
    assert_eq!(names, expected);
    let s = stats(5, 6, 7, Some("99".to_string()), &table).ok().unwrap();
    assert_eq!((s.devices, s.model_ids, s.codenames, s.built_at.as_str()), (5, 6, 7, "99"));
    assert_eq!(s.per_brand, expected);
    assert_eq!(stats(0, 0, 0, None, &Vec::new()).ok().unwrap().built_at, "");
    assert!(stats(0, 0, 0, None, &vec![("A".to_string(), vec![])]).is_err());
}

#[test]
fn positions_in_the_order_of_their_keys() {
    assert_eq!(order(&vec![30, 10, 20, 10]), vec![1, 3, 2, 0]);
    assert_eq!(order(&Vec::new()), Vec::<usize>::new());
    assert_eq!(least(&vec![30, 10, 20, 10], 2), vec![1, 3]);
    assert_eq!(least(&vec![5, 4], 9), vec![1, 0]);
    let keys: Vec<u64> = (0..1000u64).map(|i| (i * 7919) % 503).collect();
    let mut expected: Vec<usize> = (0..1000).collect();
    expected.sort_by_key(|i| keys[*i]);
    assert_eq!(order(&keys), expected);
}

#[test]
fn records_are_written_field_by_field() {
    let d = device(0x0102, "é", "", "", "n", "", &["A"]);
    let b = device_bytes(&d).ok().unwrap();
    let mut expected: Vec<u8> = vec![2, 1, 0, 0];
    let mut text = |s: &[u8]| {
        expected.extend([s.len() as u8, 0, 0, 0, 0, 0, 0, 0]);
        expected.extend(s);
    };
    text("é".as_bytes());
    text(b"f.json");
    text(b"");
    text(b"");
    text(b"n");
    text(b"");
    expected.extend([1, 0, 0, 0, 0, 0, 0, 0]);
    expected.extend([1, 0, 0, 0, 0, 0, 0, 0]);
    expected.extend([1, 0, 0, 0, 0, 0, 0, 0, b'A']);
    expected.extend([1, 0, 0, 0, 0, 0, 0, 0, b'n']);
    assert_eq!(b, expected);
}

#[test]
fn a_record_reads_back_as_the_device() {
    let d = device(7, "华为", "Mate", "C", "Mate 60", "cn", &["BRA-AL00", "", "x"]);
    let back = device_from_bytes(&device_bytes(&d).ok().unwrap()).ok().unwrap();
    assert_eq!(format!("{back:?}"), format!("{d:?}"));
    assert!(device_from_bytes(&[1, 0, 0]).is_err());
    assert!(device_from_bytes(&[]).is_err());
}
