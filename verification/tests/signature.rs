use sketchdb::signature::SignatureData;
use sketchdb::sketch::{HashFunctions, KmerMinHash, Signature};

fn mh(ksize: u32, function: HashFunctions, mins: &[u64]) -> KmerMinHash {
    KmerMinHash { ksize, hash_function: function, seed: 42, max_hash: 1 << 50, mins: mins.to_vec() }
}

fn sample() -> Signature {
    Signature {
        name: "Escherichia coli".to_string(),
        filename: "é/coli.sig".to_string(),
        md5sum: "d41d8cd98f00b204".to_string(),
        sketches: vec![
            mh(31, HashFunctions::Murmur64Dna, &[1, 2, 3]),
            mh(10, HashFunctions::Murmur64Protein, &[]),
            mh(7, HashFunctions::Murmur64Dayhoff, &[u64::MAX]),
            mh(9, HashFunctions::Murmur64Hp, &[0, 5]),
        ],
    }
}

#[test]
fn default_blob_is_empty() {
    assert_eq!(SignatureData::default(), SignatureData::Empty);
}

#[test]
fn empty_blob_is_one_byte() {
    assert_eq!(SignatureData::Empty.as_bytes(), Some(vec![0]));
    assert_eq!(SignatureData::from_slice(&[0]), Some(SignatureData::Empty));
    assert_eq!(SignatureData::from_slice(&[0, 0]), None);
    assert_eq!(SignatureData::from_slice(&[]), None);
}

#[test]
fn external_blob_is_tag_and_path() {
    let blob = SignatureData::External("a/b.sig".to_string());
    let bytes = blob.as_bytes().unwrap();
    assert_eq!(bytes, b"\x02a/b.sig".to_vec());
    assert_eq!(SignatureData::from_slice(&bytes), Some(blob));
    assert_eq!(
        SignatureData::from_slice(&[2]),
        Some(SignatureData::External(String::new()))
    );
    assert_eq!(SignatureData::from_slice(&[2, 0xff]), None);
}

#[test]
fn internal_blob_layout() {
    let sig = Signature {
        name: "n".to_string(),
        filename: String::new(),
        md5sum: "m5".to_string(),
        sketches: vec![mh(31, HashFunctions::Murmur64Protein, &[9])],
    };
    let bytes = SignatureData::Internal(sig).as_bytes().unwrap();
    let mut expected: Vec<u8> = vec![1];
    expected.extend_from_slice(&1u64.to_le_bytes());
    expected.extend_from_slice(b"n");
    expected.extend_from_slice(&0u64.to_le_bytes());
    expected.extend_from_slice(&2u64.to_le_bytes());
    expected.extend_from_slice(b"m5");
    for word in [31u64, 2, 42, 1 << 50, 1, 9] {
        expected.extend_from_slice(&word.to_le_bytes());
    }
    assert_eq!(bytes, expected);
}

#[test]
fn internal_blob_round_trip() {
    let blob = SignatureData::Internal(sample());
    let bytes = blob.as_bytes().unwrap();
    assert_eq!(SignatureData::from_slice(&bytes), Some(blob));
    let bare = SignatureData::Internal(Signature {
        name: String::new(),
        filename: String::new(),
        md5sum: String::new(),
        sketches: vec![],
    });
    let bytes = bare.as_bytes().unwrap();
    assert_eq!(bytes.len(), 25);
    assert_eq!(SignatureData::from_slice(&bytes), Some(bare));
}

#[test]
fn internal_blob_refuses_damage() {
    let bytes = SignatureData::Internal(sample()).as_bytes().unwrap();
    // cut short anywhere
    for cut in [1usize, 5, 9, 12, bytes.len() - 1, bytes.len() - 8] {
        assert_eq!(SignatureData::from_slice(&bytes[..cut]), None);
    }
    // bytes left over
    let mut longer = bytes.clone();
    longer.push(0);
    assert_eq!(SignatureData::from_slice(&longer), None);
    // an unknown tag
    let mut tagged = bytes.clone();
    tagged[0] = 3;
    assert_eq!(SignatureData::from_slice(&tagged), None);
    // a name that is no UTF-8
    let mut name = bytes.clone();
    name[9] = 0xff;
    assert_eq!(SignatureData::from_slice(&name), None);
}

#[test]
fn internal_blob_refuses_bad_sketch_words() {
    let sig = Signature {
        name: String::new(),
        filename: String::new(),
        md5sum: String::new(),
        sketches: vec![mh(31, HashFunctions::Murmur64Dna, &[9])],
    };
    let bytes = SignatureData::Internal(sig).as_bytes().unwrap();
    // the words start behind the tag and three empty texts
    let words = 25;
    let mut ksize = bytes.clone();
    ksize[words + 4] = 1; // a k-mer size beyond 32 bits
    assert_eq!(SignatureData::from_slice(&ksize), None);
    let mut function = bytes.clone();
    function[words + 8] = 5;
    assert_eq!(SignatureData::from_slice(&function), None);
    let mut count = bytes.clone();
    count[words + 32] = 2; // two hashes announced, one held
    assert_eq!(SignatureData::from_slice(&count), None);
}
