//! The command line, input files, and texts.

use mobilemodels_db::cli::{
    collected_file, job, json_array, mode, nonempty, read_k, read_limit, serve_address,
    take_flag, Job, Mode,
};
use mobilemodels_db::json;
use mobilemodels_db::model::{Device, Model};
use mobilemodels_db::number::{parse_unsigned, parse_usize, push_decimal};
use mobilemodels_db::parser::{
    assign_ids, devices_from_inputs, input_files, load_devices, stem, DeviceInput, ModelInput,
};
use mobilemodels_db::seen::SeenSet;
use mobilemodels_db::text;

fn strings(v: &[&str]) -> Vec<String> {
    v.iter().map(|s| s.to_string()).collect()
}

#[test]
fn a_flag_has_the_value_behind_it() {
    let args = strings(&["a", "--x", "1", "b"]);
    assert_eq!(take_flag(&args, "--x", "0"), ("1".to_string(), strings(&["a", "b"])));
    assert_eq!(take_flag(&args, "--y", "0"), ("0".to_string(), args.clone()));
    let twice = strings(&["--x", "1", "--x", "2"]);
    assert_eq!(take_flag(&twice, "--x", "0"), ("2".to_string(), Vec::new()));
    let last = strings(&["a", "--x"]);
    assert_eq!(take_flag(&last, "--x", "0"), ("0".to_string(), last.clone()));
}

#[test]
fn what_is_asked_before_a_command() {
    assert_eq!(mode(&strings(&["p", "build", "-V", "-h"])), Mode::Version);
    assert_eq!(mode(&strings(&["p", "--version"])), Mode::Version);
    assert_eq!(mode(&strings(&["p", "--help"])), Mode::Help);
    assert_eq!(mode(&strings(&["p", "build", "-h"])), Mode::Help);
    assert_eq!(mode(&strings(&["p", "build"])), Mode::Command);
}

#[test]
fn numbers_on_the_command_line() {
    assert_eq!(read_limit(""), Ok(None));
    assert_eq!(read_limit("25"), Ok(Some(25)));
    assert_eq!(read_limit("+7"), Ok(Some(7)));
    assert_eq!(read_limit("x1"), Err("invalid limit: x1".to_string()));
    assert_eq!(read_limit("-1"), Err("invalid limit: -1".to_string()));
    assert_eq!((read_k("3"), read_k("x"), read_k("")), (3, 10, 10));
    assert_eq!(nonempty(String::new()), None);
    assert_eq!(nonempty("s".to_string()).as_deref(), Some("s"));
    assert_eq!(json_array(&strings(&["1", "{}"])), "[1,{}]");
    assert_eq!(json_array(&Vec::new()), "[]");
}

fn address(args: &[&str], env: Option<&str>) -> Result<(String, u16), String> {
    serve_address(&strings(args), env).map(|a| (a.host, a.port))
}

#[test]
fn where_to_serve() {
    assert_eq!(address(&[], None), Ok(("127.0.0.1".to_string(), 8080)));
    assert_eq!(address(&[], Some("9000")), Ok(("0.0.0.0".to_string(), 9000)));
    assert_eq!(
        address(&["--port", "1", "--host", "h"], Some("9000")),
        Ok(("h".to_string(), 1))
    );
    assert_eq!(address(&["--port", "65535"], None), Ok(("127.0.0.1".to_string(), 65535)));
    assert_eq!(address(&["--port", "65536"], None), Err("invalid port: 65536".to_string()));
    assert_eq!(address(&[], Some("web")), Err("invalid port: web".to_string()));
}

#[test]
fn sources_of_a_collection() {
    assert!(matches!(job("google-play"), Ok(Job::GooglePlay)));
    assert!(matches!(job("apple"), Ok(Job::AppleSupport)));
    assert!(matches!(
        job("apple-all"),
        Ok(Job::Wikipedia { page: "List_of_iPhone_models", brand: "Apple", kind: "apple-columns" })
    ));
    assert!(matches!(
        job("wikipedia-apple"),
        Ok(Job::Wikipedia { page: "List_of_iPhone_models", brand: "Apple", kind: "apple" })
    ));
    assert!(matches!(
        job("wikipedia-huawei"),
        Ok(Job::Wikipedia { page: "List_of_Huawei_products", brand: "Huawei", kind: "huawei" })
    ));
    assert!(matches!(
        job("wikipedia-honor"),
        Ok(Job::Wikipedia { page: "List_of_Honor_phones", brand: "Honor", kind: "huawei" })
    ));
    assert!(matches!(job("wikipedia-huawei-models"), Ok(Job::HuaweiModels)));
    assert!(matches!(job("tenaa"), Ok(Job::Tenaa)));
    assert!(matches!(job("x"), Err(m) if m.starts_with("unknown source `x` (available: google-play, ")));
    assert_eq!(collected_file("tenaa"), "tenaa.json");
}

// ---------------------------------------------------------------------------
// Input files
// ---------------------------------------------------------------------------

fn input(name: &str, models: Vec<ModelInput>) -> DeviceInput {
    DeviceInput {
        brand: None,
        file: None,
        series: None,
        code: None,
        name: name.to_string(),
        codename: None,
        models,
    }
}

#[test]
fn fields_that_are_left_out() {
    let d = &devices_from_inputs(&vec![input("N", Vec::new())], "brand", "brand.json")[0];
    assert_eq!((d.id, d.brand.as_str(), d.file.as_str(), d.name.as_str()), (0, "brand", "brand.json", "N"));
    assert_eq!((d.series.as_str(), d.code.as_str(), d.codename.as_str()), ("", "", ""));
    assert!(d.models.is_empty());
    let mut full = input("N", Vec::new());
    full.brand = Some("B".to_string());
    full.file = Some("F".to_string());
    full.series = Some("S".to_string());
    full.code = Some("C".to_string());
    full.codename = Some("cn".to_string());
    let d = &devices_from_inputs(&vec![full], "brand", "brand.json")[0];
    assert_eq!((d.brand.as_str(), d.file.as_str(), d.series.as_str()), ("B", "F", "S"));
    assert_eq!((d.code.as_str(), d.codename.as_str()), ("C", "cn"));
}

#[test]
fn input_files_of_a_directory() {
    let names = strings(&["b.json", "a.json", ".json", "c.JSON", "json", "a.json.bak", "x..json", "B.json"]);
    assert_eq!(input_files(&names), vec!["B.json", "a.json", "b.json", "x..json"]);
    for name in &names {
        let listed = std::path::Path::new(name).extension().and_then(|x| x.to_str()) == Some("json");
        assert_eq!(input_files(&vec![name.clone()]).len() == 1, listed, "{name}");
    }
}

#[test]
fn names_without_their_extension() {
    for name in ["a.json", "x..json", "..json", ".json", "a", "a.b.c", "a.", "", "小米.json"] {
        let expected = std::path::Path::new(name).file_stem().and_then(|s| s.to_str());
        assert_eq!(stem(name), expected.unwrap_or(""), "{name}");
    }
}

#[test]
fn files_are_loaded_one_after_the_other() {
    let file = |name: &str, devices: &[&str]| -> (String, Result<Vec<DeviceInput>, u8>) {
        let inputs = devices.iter().map(|d| input(d, Vec::new())).collect();
        (name.to_string(), Ok(inputs))
    };
    let devices =
        load_devices(vec![file("A.json", &["1", "2"]), file("B.json", &[]), file("c.d.json", &["3"])])
            .unwrap();
    let rows: Vec<(&str, &str, &str)> = devices
        .iter()
        .map(|d| (d.name.as_str(), d.brand.as_str(), d.file.as_str()))
        .collect();
    assert_eq!(
        rows,
        vec![("1", "A", "A.json"), ("2", "A", "A.json"), ("3", "c.d", "c.d.json")]
    );
    assert!(load_devices::<u8>(Vec::new()).unwrap().is_empty());
}

#[test]
fn the_first_file_that_fails_decides() {
    let good = || ("a.json".to_string(), Ok(vec![input("1", Vec::new())]));
    let bad = |n: u8| ("b.json".to_string(), Err::<Vec<DeviceInput>, u8>(n));
    assert_eq!(load_devices(vec![good(), bad(7), good(), bad(8)]).err(), Some(7));
    assert_eq!(load_devices(vec![good(), bad(7)]).err(), Some(7));
    assert_eq!(load_devices(vec![bad(8), good()]).err(), Some(8));
}

#[test]
fn three_ways_to_write_a_model() {
    let models = vec![
        ModelInput::One(" A1 ".to_string()),
        ModelInput::One("  ".to_string()),
        ModelInput::Ids(strings(&["B1", " ", " B2"])),
        ModelInput::Ids(strings(&[" "])),
        ModelInput::Full { ids: strings(&["C1"]), market_name: Some("M".to_string()) },
        ModelInput::Full { ids: strings(&["D1"]), market_name: None },
        ModelInput::Full { ids: Vec::new(), market_name: Some("M".to_string()) },
    ];
    let d = &devices_from_inputs(&vec![input("N", models)], "b", "f")[0];
    let rows: Vec<(Vec<String>, &str)> =
        d.models.iter().map(|m| (m.ids.clone(), m.market_name.as_str())).collect();
    assert_eq!(
        rows,
        vec![
            (strings(&["A1"]), "N"),
            (strings(&["B1", "B2"]), "N"),
            (strings(&["C1"]), "M"),
            (strings(&["D1"]), "N"),
        ]
    );
}

#[test]
fn devices_are_numbered_from_one() {
    let inputs = vec![input("A", Vec::new()), input("B", Vec::new())];
    let mut devices = devices_from_inputs(&inputs, "b", "f");
    assign_ids(&mut devices);
    assert_eq!(devices.iter().map(|d| d.id).collect::<Vec<u32>>(), vec![1, 2]);
    assert_eq!(devices[1].name, "B");
}

#[test]
fn texts_of_a_device() {
    let d = Device {
        id: 12,
        brand: "Apple".to_string(),
        file: "f".to_string(),
        series: "iPhone".to_string(),
        code: "N90AP".to_string(),
        name: "iPhone 4".to_string(),
        codename: "iPhone3,1".to_string(),
        models: vec![Model { ids: strings(&["A1332", "A1349"]), market_name: "iPhone 4 GSM".to_string() }],
    };
    assert_eq!(
        d.search_text(),
        "Apple iPhone iPhone 4 N90AP iPhone3,1 A1332 A1349 iPhone 4 GSM"
    );
    assert!(d.summary().starts_with(
        "#12 [Apple] iPhone 4 (series: iPhone, code: N90AP, codename: iPhone3,1)"
    ));
    assert!(d.summary().contains("A1332/A1349: iPhone 4 GSM"));
}

// ---------------------------------------------------------------------------
// Texts, numbers, JSON
// ---------------------------------------------------------------------------

#[test]
fn white_space_is_that_of_unicode() {
    for n in 0..=0x10_ffff_u32 {
        if let Some(c) = char::from_u32(n) {
            assert_eq!(text::space(c), c.is_whitespace(), "{n:x}");
        }
    }
}

#[test]
fn classes_of_ascii() {
    for n in 0..0x250_u32 {
        let c = char::from_u32(n).unwrap();
        assert_eq!(text::digit(c), c.is_ascii_digit());
        assert_eq!(text::alnum(c), c.is_ascii_alphanumeric());
        assert_eq!(text::lower_char(c), c.to_ascii_lowercase());
    }
}

#[test]
fn texts_are_trimmed_and_joined() {
    assert_eq!(text::trim_str(" \u{3000}a b\n"), "a b");
    assert_eq!(text::trim_str(" \t"), "");
    assert_eq!(text::trim_str(&text::trim_str(" a ")), "a");
    assert_eq!(text::join(&strings(&["a", "b", "c"]), ", "), "a, b, c");
    assert_eq!(text::join(&Vec::new(), ","), "");
}

#[test]
fn texts_in_lower_case() {
    for s in ["", "Model Number", "ÄÖ ẞ", "İ", "ΑΣ", "华 A", "\u{7f}\u{0}Z"] {
        assert_eq!(text::lower(s), s.to_lowercase());
    }
    assert_eq!(text::lower("Model Number"), "model number");
}

#[test]
fn texts_of_a_list() {
    let v = strings(&["a", "B"]);
    assert!(text::has_text(&v, &"B".to_string()));
    assert!(!text::has_text(&v, &"b".to_string()));
    assert!(!text::has_text(&Vec::new(), &String::new()));
}

#[test]
fn texts_are_sorted_and_once() {
    let codes = strings(&["VOG-L29", "ALN-AL80", "VOG-L29", "ALN-AL8"]);
    assert_eq!(text::sort_unique(&codes), vec!["ALN-AL8", "ALN-AL80", "VOG-L29"]);
}

#[test]
fn texts_are_ordered_like_strings() {
    let words = ["", "a", "ab", "b", "A", "华", "~", "\u{10000}", "\u{ffff}"];
    for a in words {
        for b in words {
            assert_eq!(text::is_less_str(a, b), a < b);
        }
    }
}

#[test]
fn numbers_are_read_as_the_standard_library_does() {
    for s in ["", "0", "00", "+", "+5", "-1", "18446744073709551615", "18446744073709551616", "1_0", " 1", "9a"] {
        assert_eq!(parse_usize(s), s.parse::<usize>().ok(), "{s}");
        let chars: Vec<char> = s.chars().collect();
        assert_eq!(parse_unsigned(&chars, 10, 65535), s.parse::<u16>().ok().map(u64::from), "{s}");
    }
    let hex: Vec<char> = "1F600".chars().collect();
    assert_eq!(parse_unsigned(&hex, 16, u64::MAX), Some(0x1F600));
}

#[test]
fn numbers_are_written_in_decimal() {
    for n in [0, 9, 10, 12345, u64::MAX] {
        let mut out = Vec::new();
        push_decimal(&mut out, n);
        assert_eq!(out.into_iter().collect::<String>(), n.to_string());
    }
}

#[test]
fn keys_are_new_once() {
    let mut seen = SeenSet::new();
    assert!(seen.insert(strings(&["a", "b"])));
    assert!(!seen.insert(strings(&["a", "b"])));
    assert!(seen.insert(strings(&["a|b"])));
    assert!(seen.insert(strings(&["b", "a"])));
}

#[test]
fn members_of_json_values() {
    let v = json::parse(r#"{"a":{"b":[1,"x",null,-9,1.5]},"a2":true,"s":"t\n"}"#).ok().unwrap();
    let v = Some(&v);
    let list = json::get(json::get(v, "a"), "b");
    assert_eq!(json::items(list).len(), 5);
    assert_eq!(json::int_or_zero(json::at(list, 0)), 1);
    assert_eq!(json::int_or_zero(json::at(list, 3)), -9);
    assert_eq!(json::int_or_zero(json::at(list, 4)), 0);
    assert_eq!(json::text(json::at(list, 1)), Some("x"));
    assert!(json::is_null(json::at(list, 2)));
    assert!(json::is_null(json::at(list, 9)));
    assert!(json::is_null(json::get(list, "a")));
    assert!(!json::is_null(json::get(v, "a2")));
    assert_eq!(json::text_or_empty(json::get(v, "s")), "t\n");
    assert_eq!(json::text_or_empty(json::get(v, "none")), "");
    assert!(json::parse("{\"a\":").is_err());
}
