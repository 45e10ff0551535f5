//! The byte encoding of a set of dataset identifiers.
//!
//! One tag byte, then the members in ascending order, eight bytes each, least
//! significant byte first. The tag is 0 for the empty set, 1 for a set of one
//! member and 2 for a larger set. A set has exactly one encoding, so equal
//! sets are stored as equal bytes, and an encoding is never eight bytes long.

use vstd::prelude::*;
use vstd::bytes::spec_u64_from_le_bytes;
use crate::keys::{
    append_bytes, encode_key, key_of, lemma_key_len, lemma_key_of_injective, read_u64_at,
};
use crate::ordered::{
    ascending, lemma_ascending_lists, lemma_ascending_of_listing, strictly_ascending,
};

verus! {

/// Tag of the empty set.
pub const TAG_EMPTY: u8 = 0;

/// Tag of a set of one member.
pub const TAG_UNIQUE: u8 = 1;

/// Tag of a set of two members or more.
pub const TAG_MANY: u8 = 2;

/// The tag of a set of `n` members.
pub open spec fn tag_for(n: nat) -> u8 {
    if n == 0 {
        TAG_EMPTY
    } else if n == 1 {
        TAG_UNIQUE
    } else {
        TAG_MANY
    }
}

/// The identifiers of `ids` one after the other, eight little-endian bytes each.
pub open spec fn packed(ids: Seq<u64>) -> Seq<u8> {
    Seq::new(8 * ids.len(), |k: int| key_of(ids[k / 8])[k % 8])
}

/// The encoding of the list `ids`: the tag of its length, then its identifiers.
pub open spec fn encoding_of_list(ids: Seq<u64>) -> Seq<u8> {
    seq![tag_for(ids.len())] + packed(ids)
}

/// The encoding of the set `s`.
pub open spec fn encoding(s: Set<u64>) -> Seq<u8> {
    encoding_of_list(ascending(s))
}

/// Whether `bytes` is the encoding of some set.
pub open spec fn is_encoding(bytes: Seq<u8>) -> bool {
    exists|s: Set<u64>| #[trigger] encoding(s) == bytes
}

/// The set that `bytes` encodes, if it encodes one.
pub open spec fn decoding(bytes: Seq<u8>) -> Option<Set<u64>> {
    if is_encoding(bytes) {
        Some(choose|s: Set<u64>| #[trigger] encoding(s) == bytes)
    } else {
        None
    }
}

/// The bytes of the `i`-th identifier of an encoding.
pub open spec fn chunk(bytes: Seq<u8>, i: int) -> Seq<u8> {
    bytes.subrange(1 + 8 * i, 9 + 8 * i)
}

/// `bytes` is a tag for `ids.len()` members followed by the identifiers of `ids`.
pub open spec fn frames(bytes: Seq<u8>, ids: Seq<u64>) -> bool {
    &&& bytes.len() == 1 + 8 * ids.len()
    &&& bytes[0] == tag_for(ids.len())
    &&& forall|i: int| 0 <= i < ids.len() ==> #[trigger] chunk(bytes, i) == key_of(ids[i])
}

/// The encoding of a list frames that list.
pub proof fn lemma_encoding_frames(ids: Seq<u64>)
    ensures
        frames(encoding_of_list(ids), ids),
{
    let bytes = encoding_of_list(ids);
    assert forall|i: int| 0 <= i < ids.len() implies #[trigger] chunk(bytes, i) == key_of(
        ids[i],
    ) by {
        lemma_key_len(ids[i]);
        assert(chunk(bytes, i) =~= key_of(ids[i])) by {
            assert forall|k: int| 0 <= k < 8 implies chunk(bytes, i)[k] == key_of(ids[i])[k] by {
                assert(chunk(bytes, i)[k] == bytes[1 + 8 * i + k]);
                assert(bytes[1 + 8 * i + k] == packed(ids)[8 * i + k]);
                assert((8 * i + k) / 8 == i);
                assert((8 * i + k) % 8 == k);
            }
        }
    }
}

/// Bytes that frame a list are the encoding of that list.
pub proof fn lemma_frames_is_encoding(bytes: Seq<u8>, ids: Seq<u64>)
    requires
        frames(bytes, ids),
    ensures
        bytes == encoding_of_list(ids),
{
    let enc = encoding_of_list(ids);
    assert(bytes =~= enc) by {
        assert forall|k: int| 0 <= k < bytes.len() implies bytes[k] == enc[k] by {
            if k > 0 {
                let i = (k - 1) / 8;
                let r = (k - 1) % 8;
                lemma_key_len(ids[i]);
                assert(0 <= i < ids.len());
                assert(chunk(bytes, i) == key_of(ids[i]));
                assert(chunk(bytes, i)[r] == bytes[1 + 8 * i + r]);
                assert(1 + 8 * i + r == k);
                assert(enc[k] == packed(ids)[k - 1]);
            }
        }
    }
}

/// Bytes frame at most one list.
pub proof fn lemma_frames_unique(bytes: Seq<u8>, a: Seq<u64>, b: Seq<u64>)
    requires
        frames(bytes, a),
        frames(bytes, b),
    ensures
        a == b,
{
    assert(a =~= b) by {
        assert forall|i: int| 0 <= i < a.len() implies a[i] == b[i] by {
            assert(chunk(bytes, i) == key_of(a[i]));
            assert(chunk(bytes, i) == key_of(b[i]));
            lemma_key_of_injective(a[i], b[i]);
        }
    }
}

/// The encoding of a set frames the ascending listing of its members.
pub proof fn lemma_encoding_shape(s: Set<u64>)
    ensures
        frames(encoding(s), ascending(s)),
        strictly_ascending(ascending(s)),
        ascending(s).to_set() == s,
{
    lemma_ascending_lists(s);
    lemma_encoding_frames(ascending(s));
}

/// Bytes that frame a strictly ascending list are the encoding of its set of members.
pub proof fn lemma_frames_ascending(bytes: Seq<u8>, ids: Seq<u64>)
    requires
        frames(bytes, ids),
        strictly_ascending(ids),
    ensures
        bytes == encoding(ids.to_set()),
{
    lemma_ascending_of_listing(ids);
    lemma_frames_is_encoding(bytes, ids);
}

/// Law of the encoding: two sets with the same encoding are the same set.
pub proof fn lemma_encoding_injective(a: Set<u64>, b: Set<u64>)
    requires
        encoding(a) == encoding(b),
    ensures
        a == b,
{
    lemma_encoding_shape(a);
    lemma_encoding_shape(b);
    lemma_frames_unique(encoding(a), ascending(a), ascending(b));
}

/// An encoding is one byte longer than a multiple of eight, so it is never
/// taken for a color, which is eight bytes long.
pub proof fn lemma_encoding_len(s: Set<u64>)
    ensures
        encoding(s).len() == 1 + 8 * ascending(s).len(),
        encoding(s).len() != 8,
{
}

/// Law of the encoding (round trip): the encoding of a set decodes to that set.
pub proof fn lemma_decoding_of_encoding(s: Set<u64>)
    ensures
        decoding(encoding(s)) == Some(s),
{
    let bytes = encoding(s);
    assert(is_encoding(bytes));
    let t = choose|t: Set<u64>| #[trigger] encoding(t) == bytes;
    lemma_encoding_injective(t, s);
}

/// Law of the encoding (one form only): bytes that decode to a set are, byte
/// for byte, the encoding of that set.
pub proof fn lemma_encoding_of_decoding(bytes: Seq<u8>)
    ensures
        decoding(bytes) matches Some(s) ==> encoding(s) == bytes,
{
}

/// The integers that `bytes` holds, eight little-endian bytes each; bytes
/// left over at the end are passed over.
pub open spec fn unpacked(bytes: Seq<u8>) -> Seq<u64> {
    Seq::new(
        (bytes.len() / 8) as nat,
        |i: int| spec_u64_from_le_bytes(bytes.subrange(8 * i, 8 * i + 8)),
    )
}

/// Packing and unpacking give the integers back.
pub proof fn lemma_unpacked_packed(ids: Seq<u64>)
    ensures
        unpacked(packed(ids)) == ids,
{
    let bytes = packed(ids);
    assert(unpacked(bytes) =~= ids) by {
        assert forall|i: int| 0 <= i < ids.len() implies unpacked(bytes)[i] == ids[i] by {
            lemma_key_len(ids[i]);
            vstd::bytes::lemma_auto_spec_u64_to_from_le_bytes();
            assert(bytes.subrange(8 * i, 8 * i + 8) =~= key_of(ids[i])) by {
                assert forall|k: int| 0 <= k < 8 implies bytes.subrange(8 * i, 8 * i + 8)[k]
                    == key_of(ids[i])[k] by {
                    assert((8 * i + k) / 8 == i);
                    assert((8 * i + k) % 8 == k);
                }
            }
        }
    }
}

/// The integers of `ids` one after the other, eight little-endian bytes each.
pub fn pack(ids: &[u64]) -> (bytes: Vec<u8>)
    ensures
        bytes@ == packed(ids@),
{
    let mut out: Vec<u8> = Vec::new();
    let mut i: usize = 0;
    while i < ids.len()
        invariant
            i <= ids.len(),
            out@ == packed(ids@.take(i as int)),
        decreases ids.len() - i,
    {
        let key = encode_key(ids[i]);
        let ghost before = out@;
        append_bytes(&mut out, key.as_slice());
        proof {
            let shorter = ids@.take(i as int);
            let longer = ids@.take(i + 1);
            assert(out@ =~= packed(longer)) by {
                assert forall|k: int| 0 <= k < out@.len() implies out@[k] == packed(longer)[k] by {
                    if k < 8 * i {
                        assert(out@[k] == before[k]);
                        assert(longer[k / 8] == shorter[k / 8]);
                    } else {
                        assert(out@[k] == key@[k - 8 * i]);
                        assert(k / 8 == i);
                        assert(k % 8 == k - 8 * i);
                    }
                }
            }
        }
        i += 1;
    }
    assert(ids@.take(i as int) == ids@);
    out
}

/// The integers held from `from` on, if what is left is a whole number of them.
pub fn unpack(bytes: &[u8], from: usize) -> (ids: Option<Vec<u64>>)
    requires
        from <= bytes@.len(),
    ensures
        ids is Some <==> (bytes@.len() - from) % 8 == 0,
        ids matches Some(v) ==> v@ == unpacked(bytes@.skip(from as int)),
{
    if (bytes.len() - from) % 8 != 0 {
        return None;
    }
    let count = (bytes.len() - from) / 8;
    let ghost rest = bytes@.skip(from as int);
    let mut out: Vec<u64> = Vec::new();
    let mut i: usize = 0;
    while i < count
        invariant
            i <= count,
            from <= bytes@.len(),
            bytes@.len() - from == 8 * count,
            bytes@.len() <= usize::MAX,
            rest == bytes@.skip(from as int),
            out@ == unpacked(rest).take(i as int),
        decreases count - i,
    {
        let value = read_u64_at(bytes, from + 8 * i);
        proof {
            assert(bytes@.subrange(from + 8 * i, from + 8 * i + 8) =~= rest.subrange(
                8 * i,
                8 * i + 8,
            ));
            assert(unpacked(rest).take(i + 1) == unpacked(rest).take(i as int).push(value));
        }
        out.push(value);
        i += 1;
    }
    assert(unpacked(rest).take(count as int) == unpacked(rest));
    Some(out)
}

} // verus!
