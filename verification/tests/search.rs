//! Search results and the vectors behind them.

use mobilemodels_db::embed::{features, fnv1a, normalize, weights, Feature, DIM};
use mobilemodels_db::kv::IndexTable;
use mobilemodels_db::search::{
    brand_filter, default_k, indented, line_up, named_tables, probe, search_headline,
    search_width, served_k, served_probe, Pick, Picker,
};

fn strings(v: &[&str]) -> Vec<String> {
    v.iter().map(|s| s.to_string()).collect()
}

#[test]
fn numbers_of_results() {
    assert_eq!(default_k(), 10);
    assert_eq!((served_k(0), served_k(1), served_k(100), served_k(101)), (1, 1, 100, 100));
    assert_eq!((probe(0), probe(5)), (0, 40));
    assert_eq!((served_probe(1), served_probe(4), served_probe(5)), (32, 32, 40));
    assert_eq!((search_width(1), search_width(8), search_width(9)), (32, 32, 36));
}

#[test]
fn the_filter_names_known_brands_or_itself() {
    let brands = strings(&["小米", "小米 (Xiaomi)", "Apple"]);
    assert!(brand_filter(None, &brands).is_empty());
    assert_eq!(brand_filter(Some("小米"), &brands), vec!["小米", "小米 (Xiaomi)"]);
    assert_eq!(brand_filter(Some("Nokia"), &brands), vec!["Nokia"]);
    assert_eq!(brand_filter(Some(""), &brands).len(), 3);
}

#[test]
fn what_is_said_above_results() {
    assert_eq!(search_headline(5, "x", &Vec::new()), "top 5 semantic matches for \"x\"");
    assert_eq!(
        search_headline(10, "x", &strings(&["A", "B"])),
        "top 10 semantic matches for \"x\" (brand: A, B)"
    );
    assert_eq!(indented("a\nb"), "a\n             b");
}

fn run(k: usize, brands: &[&str], candidates: &[(u64, Option<usize>, Option<(u32, &str)>)]) -> Vec<Pick> {
    let mut p = Picker::new(k, strings(brands));
    for (id, hit, device) in candidates {
        if p.wants(*id) {
            if let Some((own, brand)) = device {
                p.offer(*own, brand, *hit);
            }
        }
    }
    p.picked
}

#[test]
fn named_devices_come_first_and_none_twice() {
    let picked = run(
        3,
        &[],
        &[
            (7, None, Some((7, "A"))),
            (8, None, None),
            (7, None, Some((7, "A"))),
            (9, Some(0), Some((9, "B"))),
            (7, Some(1), Some((7, "A"))),
            (4, Some(2), Some((4, "B"))),
            (5, Some(3), Some((5, "B"))),
        ],
    );
    assert_eq!(
        picked,
        vec![
            Pick { id: 7, hit: None },
            Pick { id: 9, hit: Some(0) },
            Pick { id: 4, hit: Some(2) },
        ]
    );
}

#[test]
fn named_devices_stand_before_the_neighbours() {
    assert_eq!(named_tables(), [IndexTable::ModelId, IndexTable::Codename, IndexTable::Name]);
    let line = line_up(&vec![vec![7, 8], vec![], vec![7]], &vec![9, 7]);
    assert_eq!(line, vec![(7, None), (8, None), (7, None), (9, Some(0)), (7, Some(1))]);
    assert!(line_up(&Vec::new(), &Vec::new()).is_empty());
}

#[test]
fn only_brands_that_are_asked_for() {
    let candidates = [
        (1, None, Some((1, "A"))),
        (2, Some(0), Some((2, "B"))),
        (3, Some(1), Some((3, "b"))),
    ];
    assert_eq!(run(9, &["B", "C"], &candidates), vec![Pick { id: 2, hit: Some(0) }]);
    assert_eq!(run(9, &[], &candidates).len(), 3);
    assert!(run(0, &[], &candidates).is_empty());
}

#[test]
fn hashes_of_pieces() {
    assert_eq!(fnv1a(b"", 0), 0xcbf2_9ce4_8422_2325);
    assert_eq!(fnv1a(b"a", 0), 0xaf63_dc4c_8601_ec8c);
    assert_eq!(fnv1a(b"foobar", 0), 0x8594_4171_f739_67e8);
    assert_eq!(fnv1a(b"", 5), 0xcbf2_9ce4_8422_2320);
}

#[test]
fn features_of_a_text() {
    assert_eq!(normalize("Mi 华É"), "mi 华É");
    let all = features("A1 x");
    let piece = |s: &str, halves: u8| {
        let h = fnv1a(s.as_bytes(), 0);
        Feature { index: ((h >> 1) % DIM as u64) as usize, positive: h & 1 == 1, halves }
    };
    let expected = vec![
        piece("a1", 8),
        piece("x", 8),
        piece("a1", 4),
        piece("a", 1),
        piece("1", 1),
        piece("x", 1),
    ];
    assert_eq!(all, expected);
    assert_eq!(features("A1332"), features("a1332"));
    assert!(features(" \u{3000}\n").is_empty());
}

#[test]
fn weights_add_up() {
    assert_eq!(DIM, 1024);
    let w = weights("x x");
    assert_eq!(w.len(), DIM);
    let h = fnv1a(b"x", 0);
    let at = ((h >> 1) % DIM as u64) as usize;
    let sign: i128 = if h & 1 == 1 { 1 } else { -1 };
    assert_eq!(w[at], sign * 18);
    assert_eq!(w.iter().filter(|v| **v != 0).count(), 1);
    assert!(weights("").iter().all(|v| *v == 0));
}
