//! What the index stores for each dataset, and its byte encoding.
//!
//! One tag byte comes first: 0 for nothing, 1 for a signature, 2 for a path.
//! A path follows its tag as UTF-8. A signature follows as its name, its file
//! name and its checksum, each as a length of eight bytes and that many bytes
//! of UTF-8, and then its sketches as integers of eight bytes: for each
//! sketch the k-mer size, the hash function, the seed, the limit, the number
//! of hashes, and the hashes. Every integer is little-endian.

use vstd::prelude::*;
use vstd::bytes::spec_u64_from_le_bytes;
use vstd::utf8::{decode_utf8, encode_utf8, valid_utf8};
use crate::encoding::{lemma_unpacked_packed, pack, packed, unpack, unpacked};
use crate::keys::{append_bytes, encode_key, key_of, lemma_key_len, read_u64_at};
use crate::sketch::{HashFunctions, KmerMinHash, Signature, SignatureView, SketchView};

verus! {

/// Tag of a dataset whose sketch was not kept.
pub const BLOB_EMPTY: u8 = 0;

/// Tag of a stored signature.
pub const BLOB_INTERNAL: u8 = 1;

/// Tag of the path of a signature file.
pub const BLOB_EXTERNAL: u8 = 2;

/// What is stored for a dataset.
#[derive(Debug, Clone, PartialEq)]
pub enum SignatureData {
    /// Nothing: the sketch was empty, or smaller than the index asks for.
    Empty,
    /// The signature itself, with the sketch that was indexed.
    Internal(Signature),
    /// The path of the file that the signature came from.
    External(String),
}

/// What is stored for a dataset, as a value.
pub enum Blob {
    Empty,
    Internal(SignatureView),
    External(Seq<char>),
}

impl View for SignatureData {
    type V = Blob;

    open spec fn view(&self) -> Blob {
        match self {
            SignatureData::Empty => Blob::Empty,
            SignatureData::Internal(sig) => Blob::Internal(sig@),
            SignatureData::External(path) => Blob::External(path@),
        }
    }
}

impl Default for SignatureData {
    fn default() -> (data: Self)
        ensures
            data == SignatureData::Empty,
    {
        SignatureData::Empty
    }
}

/// The number that stands for a hash function.
pub open spec fn function_code(hash_function: HashFunctions) -> u64 {
    match hash_function {
        HashFunctions::Murmur64Dna => 1,
        HashFunctions::Murmur64Protein => 2,
        HashFunctions::Murmur64Dayhoff => 3,
        HashFunctions::Murmur64Hp => 4,
    }
}

/// The hash function that a number stands for.
pub open spec fn function_of(code: u64) -> Option<HashFunctions> {
    if code == 1 {
        Some(HashFunctions::Murmur64Dna)
    } else if code == 2 {
        Some(HashFunctions::Murmur64Protein)
    } else if code == 3 {
        Some(HashFunctions::Murmur64Dayhoff)
    } else if code == 4 {
        Some(HashFunctions::Murmur64Hp)
    } else {
        None
    }
}

/// A text as its length and its UTF-8 bytes.
pub open spec fn text(chars: Seq<char>) -> Seq<u8> {
    key_of(encode_utf8(chars).len() as u64) + encode_utf8(chars)
}

/// A sketch as integers: its parameters, the number of its hashes, its hashes.
pub open spec fn sketch_words(sketch: SketchView) -> Seq<u64> {
    seq![
        sketch.ksize as u64,
        function_code(sketch.hash_function),
        sketch.seed,
        sketch.max_hash,
        sketch.mins.len() as u64,
    ] + sketch.mins
}

/// The sketches of a list as integers, one sketch after the other.
pub open spec fn sketches_words(sketches: Seq<SketchView>) -> Seq<u64>
    decreases sketches.len(),
{
    if sketches.len() == 0 {
        Seq::empty()
    } else {
        sketch_words(sketches.first()) + sketches_words(sketches.drop_first())
    }
}

/// The encoding of what is stored for a dataset.
pub open spec fn blob_encoding(blob: Blob) -> Seq<u8> {
    match blob {
        Blob::Empty => seq![BLOB_EMPTY],
        Blob::External(path) => seq![BLOB_EXTERNAL] + encode_utf8(path),
        Blob::Internal(sig) => seq![BLOB_INTERNAL] + text(sig.name) + text(sig.filename) + text(
            sig.md5sum,
        ) + packed(sketches_words(sig.sketches)),
    }
}

/// The text that starts at `pos`, and the position behind it.
pub open spec fn text_at(bytes: Seq<u8>, pos: int) -> Option<(Seq<char>, int)> {
    if pos < 0 || pos + 8 > bytes.len() {
        None
    } else {
        let n = spec_u64_from_le_bytes(bytes.subrange(pos, pos + 8)) as int;
        if pos + 8 + n > bytes.len() {
            None
        } else if valid_utf8(bytes.subrange(pos + 8, pos + 8 + n)) {
            Some((decode_utf8(bytes.subrange(pos + 8, pos + 8 + n)), pos + 8 + n))
        } else {
            None
        }
    }
}

/// The sketch whose integers start at `pos`, and the position behind it.
pub open spec fn sketch_at(words: Seq<u64>, pos: int) -> Option<(SketchView, int)> {
    if pos < 0 || pos + 5 > words.len() {
        None
    } else if words[pos] > u32::MAX || function_of(words[pos + 1]) is None || pos + 5 + words[pos
        + 4] > words.len() {
        None
    } else {
        Some(
            (
                SketchView {
                    ksize: words[pos] as u32,
                    hash_function: function_of(words[pos + 1])->0,
                    seed: words[pos + 2],
                    max_hash: words[pos + 3],
                    mins: words.subrange(pos + 5, pos + 5 + words[pos + 4]),
                },
                pos + 5 + words[pos + 4],
            ),
        )
    }
}

/// The sketches whose integers fill `words` from `pos` on, behind those of `done`.
pub open spec fn sketches_from(words: Seq<u64>, pos: int, done: Seq<SketchView>) -> Option<
    Seq<SketchView>,
>
    decreases words.len() - pos,
{
    if pos >= words.len() {
        Some(done)
    } else {
        match sketch_at(words, pos) {
            Some((sketch, next)) => sketches_from(words, next, done.push(sketch)),
            None => None,
        }
    }
}

/// What `bytes` encodes, if it is the encoding of something stored for a dataset.
pub open spec fn blob_decoding(bytes: Seq<u8>) -> Option<Blob> {
    if bytes.len() == 0 {
        None
    } else if bytes[0] == BLOB_EMPTY {
        if bytes.len() == 1 {
            Some(Blob::Empty)
        } else {
            None
        }
    } else if bytes[0] == BLOB_EXTERNAL {
        if valid_utf8(bytes.skip(1)) {
            Some(Blob::External(decode_utf8(bytes.skip(1))))
        } else {
            None
        }
    } else if bytes[0] == BLOB_INTERNAL {
        match text_at(bytes, 1) {
            Some((name, name_end)) => match text_at(bytes, name_end) {
                Some((filename, filename_end)) => match text_at(bytes, filename_end) {
                    Some((md5sum, texts_end)) => if (bytes.len() - texts_end) % 8 != 0 {
                        None
                    } else {
                        match sketches_from(unpacked(bytes.skip(texts_end)), 0, Seq::empty()) {
                            Some(sketches) => Some(
                                Blob::Internal(SignatureView { name, filename, md5sum, sketches }),
                            ),
                            None => None,
                        }
                    },
                    None => None,
                },
                None => None,
            },
            None => None,
        }
    } else {
        None
    }
}

/// `String::from_utf8`.
///
/// Claimed of it: it succeeds exactly on well-formed UTF-8, and the string
/// then holds the characters that the bytes encode.
#[verifier::external_body]
fn string_from_utf8(bytes: Vec<u8>) -> (decoded: Option<String>)
    ensures
        decoded is Some <==> valid_utf8(bytes@),
        decoded matches Some(s) ==> s@ == decode_utf8(bytes@),
{
    String::from_utf8(bytes).ok()
}

/// A copy of the bytes from `from` up to `to`.
fn copy_range(bytes: &[u8], from: usize, to: usize) -> (out: Vec<u8>)
    requires
        from <= to <= bytes@.len(),
    ensures
        out@ == bytes@.subrange(from as int, to as int),
{
    let mut out: Vec<u8> = Vec::new();
    let mut i: usize = from;
    while i < to
        invariant
            from <= i <= to,
            to <= bytes@.len(),
            out@ == bytes@.subrange(from as int, i as int),
        decreases to - i,
    {
        out.push(bytes[i]);
        i += 1;
        assert(bytes@.subrange(from as int, i as int) == bytes@.subrange(from as int, i - 1).push(
            bytes@[i - 1],
        ));
    }
    out
}

/// Appends a text: its length, then its bytes.
fn append_text(out: &mut Vec<u8>, chars: &String)
    ensures
        final(out)@ == old(out)@ + text(chars@),
{
    let bytes = chars.as_str().as_bytes();
    let len = encode_key(bytes.len() as u64);
    append_bytes(out, len.as_slice());
    append_bytes(out, bytes);
    assert(out@ == old(out)@ + text(chars@)) by {
        assert(old(out)@ + key_of(bytes@.len() as u64) + bytes@ =~= old(out)@ + (key_of(
            bytes@.len() as u64,
        ) + bytes@));
    }
}

/// Reads the text that starts at `pos`.
fn read_text(bytes: &[u8], pos: usize) -> (read: Option<(String, usize)>)
    requires
        pos <= bytes@.len(),
    ensures
        match text_at(bytes@, pos as int) {
            Some((chars, next)) => read matches Some((s, p)) && s@ == chars && p == next,
            None => read is None,
        },
        read matches Some((_, p)) ==> p <= bytes@.len(),
{
    if bytes.len() - pos < 8 {
        return None;
    }
    let n = read_u64_at(bytes, pos);
    let left = bytes.len() - pos - 8;
    if n > left as u64 {
        return None;
    }
    let len = n as usize;
    let body = copy_range(bytes, pos + 8, pos + 8 + len);
    match string_from_utf8(body) {
        Some(s) => Some((s, pos + 8 + len)),
        None => None,
    }
}

/// The number that stands for a hash function.
fn code_of_function(hash_function: HashFunctions) -> (code: u64)
    ensures
        code == function_code(hash_function),
{
    match hash_function {
        HashFunctions::Murmur64Dna => 1,
        HashFunctions::Murmur64Protein => 2,
        HashFunctions::Murmur64Dayhoff => 3,
        HashFunctions::Murmur64Hp => 4,
    }
}

/// The hash function that a number stands for.
fn function_of_code(code: u64) -> (hash_function: Option<HashFunctions>)
    ensures
        hash_function == function_of(code),
{
    if code == 1 {
        Some(HashFunctions::Murmur64Dna)
    } else if code == 2 {
        Some(HashFunctions::Murmur64Protein)
    } else if code == 3 {
        Some(HashFunctions::Murmur64Dayhoff)
    } else if code == 4 {
        Some(HashFunctions::Murmur64Hp)
    } else {
        None
    }
}

/// The sketches of a list as integers.
fn words_of_sketches(sketches: &Vec<KmerMinHash>) -> (words: Vec<u64>)
    ensures
        words@ == sketches_words(crate::sketch::sketch_views(sketches@)),
{
    let ghost views = crate::sketch::sketch_views(sketches@);
    let mut words: Vec<u64> = Vec::new();
    let mut i: usize = 0;
    proof {
        assert(views.skip(0) == views);
        assert(words@ + sketches_words(views) == sketches_words(views));
    }
    while i < sketches.len()
        invariant
            i <= sketches.len(),
            views == crate::sketch::sketch_views(sketches@),
            words@ + sketches_words(views.skip(i as int)) == sketches_words(views),
        decreases sketches.len() - i,
    {
        let sketch = &sketches[i];
        let ghost before = words@;
        words.push(sketch.ksize as u64);
        words.push(code_of_function(sketch.hash_function));
        words.push(sketch.seed);
        words.push(sketch.max_hash);
        words.push(sketch.mins.len() as u64);
        let mut j: usize = 0;
        while j < sketch.mins.len()
            invariant
                j <= sketch.mins.len(),
                words@ == before + sketch_words(sketch@).take(5 + j),
            decreases sketch.mins.len() - j,
        {
            words.push(sketch.mins[j]);
            proof {
                assert(sketch_words(sketch@).take(5 + j + 1) == sketch_words(sketch@).take(5 + j).push(
                    sketch.mins@[j as int],
                ));
            }
            j += 1;
        }
        proof {
            assert(sketch_words(sketch@).take(5 + j) == sketch_words(sketch@));
            assert(views.skip(i as int).first() == sketch@);
            assert(views.skip(i as int).drop_first() == views.skip(i + 1));
            assert(words@ + sketches_words(views.skip(i + 1)) == before + (sketch_words(sketch@)
                + sketches_words(views.skip(i + 1))));
        }
        i += 1;
    }
    assert(sketches_words(views.skip(i as int)) == Seq::<u64>::empty());
    assert(words@ + Seq::<u64>::empty() == words@);
    words
}

/// Reads the sketch whose integers start at `pos`.
fn read_sketch(words: &Vec<u64>, pos: usize) -> (read: Option<(KmerMinHash, usize)>)
    requires
        pos <= words@.len(),
    ensures
        match sketch_at(words@, pos as int) {
            Some((sketch, next)) => read matches Some((k, p)) && k@ == sketch && p == next,
            None => read is None,
        },
        read matches Some((_, p)) ==> pos < p <= words@.len(),
{
    if words.len() - pos < 5 {
        return None;
    }
    let ksize = words[pos];
    let function = function_of_code(words[pos + 1]);
    let count = words[pos + 4];
    let left = words.len() - pos - 5;
    if ksize > u32::MAX as u64 || function.is_none() || count > left as u64 {
        return None;
    }
    let n = count as usize;
    let mut mins: Vec<u64> = Vec::new();
    let mut j: usize = 0;
    while j < n
        invariant
            j <= n,
            pos + 5 + n <= words@.len(),
            words@.len() <= usize::MAX,
            mins@ == words@.subrange(pos + 5, pos + 5 + j),
        decreases n - j,
    {
        mins.push(words[pos + 5 + j]);
        j += 1;
        assert(words@.subrange(pos + 5, pos + 5 + j) == words@.subrange(pos + 5, pos + 5 + j - 1).push(
            words@[pos + 5 + j - 1],
        ));
    }
    let sketch = KmerMinHash {
        ksize: ksize as u32,
        hash_function: function.unwrap(),
        seed: words[pos + 2],
        max_hash: words[pos + 3],
        mins,
    };
    Some((sketch, pos + 5 + n))
}

/// Reads the sketches whose integers fill `words`.
fn read_sketches(words: &Vec<u64>) -> (read: Option<Vec<KmerMinHash>>)
    ensures
        match sketches_from(words@, 0, Seq::empty()) {
            Some(sketches) => read matches Some(v) && crate::sketch::sketch_views(v@) == sketches,
            None => read is None,
        },
{
    let mut out: Vec<KmerMinHash> = Vec::new();
    let mut pos: usize = 0;
    assert(crate::sketch::sketch_views(out@) == Seq::<SketchView>::empty());
    while pos < words.len()
        invariant
            pos <= words.len(),
            sketches_from(words@, 0, Seq::empty()) == sketches_from(
                words@,
                pos as int,
                crate::sketch::sketch_views(out@),
            ),
        decreases words.len() - pos,
    {
        match read_sketch(words, pos) {
            Some((sketch, next)) => {
                proof {
                    assert(crate::sketch::sketch_views(out@.push(sketch))
                        == crate::sketch::sketch_views(out@).push(sketch@));
                }
                out.push(sketch);
                pos = next;
            },
            None => {
                return None;
            },
        }
    }
    Some(out)
}

impl SignatureData {
    /// The encoding of what is stored; it is always produced.
    pub fn as_bytes(&self) -> (bytes: Option<Vec<u8>>)
        ensures
            bytes matches Some(b) && b@ == blob_encoding(self@),
    {
        let mut out: Vec<u8> = Vec::new();
        match self {
            SignatureData::Empty => {
                out.push(BLOB_EMPTY);
            },
            SignatureData::External(path) => {
                out.push(BLOB_EXTERNAL);
                append_bytes(&mut out, path.as_str().as_bytes());
            },
            SignatureData::Internal(sig) => {
                out.push(BLOB_INTERNAL);
                append_text(&mut out, &sig.name);
                append_text(&mut out, &sig.filename);
                append_text(&mut out, &sig.md5sum);
                let words = words_of_sketches(&sig.sketches);
                let packed_words = pack(words.as_slice());
                append_bytes(&mut out, packed_words.as_slice());
            },
        }
        Some(out)
    }

    /// Decodes what is stored for a dataset.
    ///
    /// `None` exactly when the bytes are no encoding: on a wrong tag, a text
    /// that is cut short or is not UTF-8, or sketches that do not fill the rest.
    pub fn from_slice(slice: &[u8]) -> (decoded: Option<Self>)
        ensures
            match blob_decoding(slice@) {
                Some(blob) => decoded matches Some(d) && d@ == blob,
                None => decoded is None,
            },
    {
        if slice.len() == 0 {
            return None;
        }
        let tag = slice[0];
        if tag == BLOB_EMPTY {
            if slice.len() == 1 {
                Some(SignatureData::Empty)
            } else {
                None
            }
        } else if tag == BLOB_EXTERNAL {
            let body = copy_range(slice, 1, slice.len());
            assert(body@ == slice@.skip(1));
            match string_from_utf8(body) {
                Some(path) => Some(SignatureData::External(path)),
                None => None,
            }
        } else if tag == BLOB_INTERNAL {
            let (name, name_end) = match read_text(slice, 1) {
                Some(read) => read,
                None => {
                    return None;
                },
            };
            let (filename, filename_end) = match read_text(slice, name_end) {
                Some(read) => read,
                None => {
                    return None;
                },
            };
            let (md5sum, texts_end) = match read_text(slice, filename_end) {
                Some(read) => read,
                None => {
                    return None;
                },
            };
            let words = match unpack(slice, texts_end) {
                Some(words) => words,
                None => {
                    return None;
                },
            };
            match read_sketches(&words) {
                Some(sketches) => Some(
                    SignatureData::Internal(Signature { name, filename, md5sum, sketches }),
                ),
                None => None,
            }
        } else {
            None
        }
    }
}

/// The lengths of a sketch fit the integers that hold them.
pub open spec fn sketch_fits(sketch: SketchView) -> bool {
    sketch.mins.len() <= u64::MAX
}

/// The lengths of what is stored fit the integers that hold them.
pub open spec fn blob_fits(blob: Blob) -> bool {
    match blob {
        Blob::Empty => true,
        Blob::External(_) => true,
        Blob::Internal(sig) => {
            &&& encode_utf8(sig.name).len() <= u64::MAX
            &&& encode_utf8(sig.filename).len() <= u64::MAX
            &&& encode_utf8(sig.md5sum).len() <= u64::MAX
            &&& forall|i: int| 0 <= i < sig.sketches.len() ==> sketch_fits(#[trigger] sig.sketches[i])
        },
    }
}

/// A text is read back from where it was written.
proof fn lemma_text_at(prefix: Seq<u8>, chars: Seq<char>, suffix: Seq<u8>)
    requires
        encode_utf8(chars).len() <= u64::MAX,
    ensures
        text_at(prefix + text(chars) + suffix, prefix.len() as int) == Some(
            (chars, (prefix.len() + text(chars).len()) as int),
        ),
        text(chars).len() == 8 + encode_utf8(chars).len(),
{
    let body = encode_utf8(chars);
    let n = body.len() as u64;
    let bytes = prefix + text(chars) + suffix;
    let pos = prefix.len() as int;
    lemma_key_len(n);
    vstd::bytes::lemma_auto_spec_u64_to_from_le_bytes();
    assert(bytes.subrange(pos, pos + 8) =~= key_of(n));
    assert(bytes.subrange(pos + 8, pos + 8 + n) =~= body);
    vstd::utf8::encode_utf8_valid_utf8(chars);
    vstd::utf8::encode_utf8_decode_utf8(chars);
}

/// A sketch is read back from where its integers were written.
proof fn lemma_sketch_at(prefix: Seq<u64>, sketch: SketchView, suffix: Seq<u64>)
    requires
        sketch_fits(sketch),
    ensures
        sketch_at(prefix + sketch_words(sketch) + suffix, prefix.len() as int) == Some(
            (sketch, (prefix.len() + sketch_words(sketch).len()) as int),
        ),
        sketch_words(sketch).len() == 5 + sketch.mins.len(),
{
    let words = prefix + sketch_words(sketch) + suffix;
    let pos = prefix.len() as int;
    assert(words[pos] == sketch.ksize as u64);
    assert(words[pos + 1] == function_code(sketch.hash_function));
    assert(words[pos + 2] == sketch.seed);
    assert(words[pos + 3] == sketch.max_hash);
    assert(words[pos + 4] == sketch.mins.len() as u64);
    assert(function_of(function_code(sketch.hash_function)) == Some(sketch.hash_function));
    assert(words.subrange(pos + 5, pos + 5 + sketch.mins.len()) =~= sketch.mins);
}

/// The sketches of a list are read back from where their integers were written.
proof fn lemma_sketches_from(prefix: Seq<u64>, done: Seq<SketchView>, sketches: Seq<SketchView>)
    requires
        forall|i: int| 0 <= i < sketches.len() ==> sketch_fits(#[trigger] sketches[i]),
    ensures
        sketches_from(prefix + sketches_words(sketches), prefix.len() as int, done) == Some(
            done + sketches,
        ),
    decreases sketches.len(),
{
    let words = prefix + sketches_words(sketches);
    if sketches.len() == 0 {
        assert(done + sketches == done);
    } else {
        let first = sketches.first();
        let rest = sketches.drop_first();
        assert(sketch_fits(sketches[0]));
        lemma_sketch_at(prefix, first, sketches_words(rest));
        assert(words == prefix + sketch_words(first) + sketches_words(rest));
        let longer = prefix + sketch_words(first);
        assert forall|i: int| 0 <= i < rest.len() implies sketch_fits(#[trigger] rest[i]) by {
            assert(rest[i] == sketches[i + 1]);
        }
        lemma_sketches_from(longer, done.push(first), rest);
        assert(done.push(first) + rest == done + sketches);
        assert(prefix.len() < words.len());
    }
}

/// Law of the stored encoding (round trip): what is stored decodes to itself.
pub proof fn lemma_blob_decoding_of_encoding(blob: Blob)
    requires
        blob_fits(blob),
    ensures
        blob_decoding(blob_encoding(blob)) == Some(blob),
{
    let bytes = blob_encoding(blob);
    match blob {
        Blob::Empty => {},
        Blob::External(path) => {
            assert(bytes.skip(1) =~= encode_utf8(path));
            vstd::utf8::encode_utf8_valid_utf8(path);
            vstd::utf8::encode_utf8_decode_utf8(path);
        },
        Blob::Internal(sig) => {
            let words = sketches_words(sig.sketches);
            let name_text = text(sig.name);
            let filename_text = text(sig.filename);
            let md5_text = text(sig.md5sum);
            let tag = seq![BLOB_INTERNAL];
            lemma_text_at(tag, sig.name, filename_text + md5_text + packed(words));
            assert(bytes =~= tag + name_text + (filename_text + md5_text + packed(words)));
            lemma_text_at(tag + name_text, sig.filename, md5_text + packed(words));
            assert(bytes =~= (tag + name_text) + filename_text + (md5_text + packed(words)));
            lemma_text_at(tag + name_text + filename_text, sig.md5sum, packed(words));
            assert(bytes =~= (tag + name_text + filename_text) + md5_text + packed(words));
            let texts_end = 1 + name_text.len() + filename_text.len() + md5_text.len();
            assert(bytes.skip(texts_end as int) =~= packed(words));
            lemma_unpacked_packed(words);
            lemma_sketches_from(Seq::empty(), Seq::empty(), sig.sketches);
            assert(Seq::<u64>::empty() + words == words);
            assert(Seq::<SketchView>::empty() + sig.sketches == sig.sketches);
            assert(packed(words).len() == 8 * words.len());
        },
    }
}

/// What is stored for a dataset with a sketch is never taken for nothing
/// stored: only the one byte of `Empty` decodes to `Empty`.
pub proof fn lemma_blob_empty_only(bytes: Seq<u8>)
    ensures
        blob_decoding(bytes) == Some(Blob::Empty) <==> bytes == seq![BLOB_EMPTY],
{
    if bytes == seq![BLOB_EMPTY] {
        assert(bytes.len() == 1 && bytes[0] == BLOB_EMPTY);
    }
    if blob_decoding(bytes) == Some(Blob::Empty) {
        assert(bytes =~= seq![BLOB_EMPTY]);
    }
}

} // verus!
