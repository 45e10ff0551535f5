use sketchdb::datasets::Datasets;
use sketchdb::error::Error;
use sketchdb::keys::encode_key;
use sketchdb::stats::{stats_for_cf, CfStats};

fn enc(ids: &[u64]) -> Vec<u8> {
    Datasets::new(ids).as_bytes().unwrap()
}

fn entries() -> Vec<(Vec<u8>, Vec<u8>)> {
    vec![
        (encode_key(1), enc(&[0, 1])),
        (encode_key(2), enc(&[1])),
        (encode_key(3), enc(&[1, 2, 3])),
    ]
}

#[test]
fn stats_add_up_keys_and_values() {
    let stats = stats_for_cf(&entries(), true, false).unwrap();
    assert_eq!(stats.kcount, 24);
    assert_eq!(stats.vcount, 17 + 9 + 25);
    assert_eq!(stats.sizes, vec![2, 1, 3]);
    assert_eq!(stats.datasets, Datasets::new(&[0, 1, 2, 3]));
}

#[test]
fn quick_stats_do_not_look_into_values() {
    for (deep, quick) in [(true, true), (false, false), (false, true)] {
        let stats = stats_for_cf(&entries(), deep, quick).unwrap();
        assert_eq!(stats.kcount, 24);
        assert_eq!(stats.vcount, 51);
        assert!(stats.sizes.is_empty());
        assert_eq!(stats.datasets, Datasets::Empty);
    }
    let odd = vec![(encode_key(1), vec![9u8, 9, 9])];
    assert_eq!(stats_for_cf(&odd, true, true).unwrap().vcount, 3);
    assert_eq!(stats_for_cf(&odd, false, false).unwrap().vcount, 3);
}

#[test]
fn stats_of_no_entries() {
    let stats = stats_for_cf(&vec![], true, false).unwrap();
    assert_eq!(
        stats,
        CfStats { kcount: 0, vcount: 0, sizes: vec![], datasets: Datasets::Empty }
    );
}

#[test]
fn stats_refuse_short_keys_and_bad_values() {
    let short = vec![(vec![1u8, 2, 3], enc(&[1]))];
    assert_eq!(stats_for_cf(&short, false, true), Err(Error::DeserializationFailure));
    let bad = vec![(encode_key(1), vec![9u8, 9, 9])];
    assert_eq!(stats_for_cf(&bad, true, false), Err(Error::DeserializationFailure));
}

#[test]
fn report_of_a_colors_column() {
    let stats = CfStats {
        kcount: 8 * 1234567,
        vcount: 2048,
        sizes: vec![],
        datasets: Datasets::new(&[1, 2, 3]),
    };
    assert_eq!(
        stats.report("colors", false),
        vec![
            "*** colors ***".to_string(),
            "total datasets: 3".to_string(),
            "total keys: 1,234,567".to_string(),
            "k: 9.42 MiB".to_string(),
            "v: 2.00 KiB".to_string(),
        ]
    );
}

#[test]
fn report_leaves_out_datasets_when_quick_or_not_colors() {
    let stats = CfStats { kcount: 16, vcount: 0, sizes: vec![], datasets: Datasets::Unique(1) };
    assert_eq!(
        stats.report("colors", true),
        vec![
            "*** colors ***".to_string(),
            "total keys: 2".to_string(),
            "k: 16 bytes".to_string(),
            "v: 0 bytes".to_string(),
        ]
    );
    assert_eq!(stats.report("hashes", false).len(), 4);
    assert_eq!(stats.report("hashes", false)[0], "*** hashes ***");
}

#[test]
fn report_agrees_with_the_formatting_crates() {
    let stats = CfStats {
        kcount: 8_000_000_000,
        vcount: 123_456_789,
        sizes: vec![],
        datasets: Datasets::Empty,
    };
    let lines = stats.report("signatures", false);
    assert_eq!(
        lines[1],
        format!("total keys: {}", numsep::separate(1_000_000_000u64, numsep::Locale::English))
    );
    assert_eq!(lines[2], format!("k: {}", size::Size::from_bytes(8_000_000_000u64).to_string()));
    assert_eq!(lines[3], format!("v: {}", size::Size::from_bytes(123_456_789u64).to_string()));
}
