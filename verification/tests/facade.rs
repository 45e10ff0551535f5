use sketchdb::store::{Family, StoreOp, COLORS, HASHES, SIGS};
use sketchdb::{RevIndex, Scan};

#[test]
fn open_settles_colors_and_mode() {
    match RevIndex::open("some/path", true, false) {
        RevIndex::Plain(db) => {
            assert_eq!(db.path, "some/path");
            assert!(db.read_only);
        }
        RevIndex::Color(_) => panic!("a plain index was asked for"),
    }
    match RevIndex::open("other", false, true) {
        RevIndex::Color(db) => {
            assert_eq!(db.path, "other");
            assert!(!db.read_only);
        }
        RevIndex::Plain(_) => panic!("a color index was asked for"),
    }
}

#[test]
fn column_family_names() {
    assert_eq!(Family::Hashes.name(), "hashes");
    assert_eq!(Family::Colors.name(), "colors");
    assert_eq!(Family::Signatures.name(), "signatures");
    assert_eq!((HASHES, SIGS, COLORS), ("hashes", "signatures", "colors"));
}

#[test]
fn flush_writes_the_log_and_every_column() {
    assert_eq!(
        RevIndex::open("i", false, false).flush(),
        Ok(vec![
            StoreOp::FlushLog,
            StoreOp::Flush { family: Family::Hashes },
            StoreOp::Flush { family: Family::Signatures },
        ])
    );
    assert_eq!(
        RevIndex::open("i", false, true).flush(),
        Ok(vec![
            StoreOp::FlushLog,
            StoreOp::Flush { family: Family::Hashes },
            StoreOp::Flush { family: Family::Colors },
            StoreOp::Flush { family: Family::Signatures },
        ])
    );
}

#[test]
fn compact_of_a_plain_index_compacts_the_ranges() {
    let entries = vec![(vec![1u8; 8], vec![9u8; 3])];
    assert_eq!(
        RevIndex::open("i", false, false).compact(&entries),
        Ok(vec![
            StoreOp::CompactRange { family: Family::Hashes },
            StoreOp::CompactRange { family: Family::Signatures },
        ])
    );
}

#[test]
fn compact_of_a_color_index_recolors_first() {
    let index = RevIndex::open("i", false, true);
    let ops = index.compact(&vec![]).unwrap();
    assert_eq!(
        ops,
        vec![
            StoreOp::CompactRange { family: Family::Hashes },
            StoreOp::CompactRange { family: Family::Colors },
            StoreOp::CompactRange { family: Family::Signatures },
        ]
    );
    let set = sketchdb::datasets::Datasets::new(&[1, 2]).as_bytes().unwrap();
    let ops = index.compact(&vec![(vec![7u8; 8], set)]).unwrap();
    assert_eq!(ops.len(), 5);
    assert!(matches!(ops[0], StoreOp::Emplace { family: Family::Colors, .. }));
    assert!(matches!(ops[1], StoreOp::Put { family: Family::Hashes, .. }));
    assert_eq!(
        index.compact(&vec![(vec![7u8; 8], vec![9u8; 3])]),
        Err(sketchdb::error::Error::DeserializationFailure)
    );
}

#[test]
fn check_looks_into_the_column_of_sets() {
    assert_eq!(
        RevIndex::open("i", true, false).check(false),
        vec![
            Scan { family: Family::Hashes, deep_check: true },
            Scan { family: Family::Signatures, deep_check: false },
        ]
    );
    assert_eq!(
        RevIndex::open("i", true, true).check(false),
        vec![
            Scan { family: Family::Hashes, deep_check: false },
            Scan { family: Family::Colors, deep_check: true },
            Scan { family: Family::Signatures, deep_check: false },
        ]
    );
    assert_eq!(
        RevIndex::open("i", true, true).check(true),
        vec![
            Scan { family: Family::Hashes, deep_check: false },
            Scan { family: Family::Colors, deep_check: false },
            Scan { family: Family::Signatures, deep_check: false },
        ]
    );
}
