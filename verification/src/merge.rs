//! The merge operator of the posting column families.
//!
//! The store keeps, under a key, a value and a list of pending operands, and
//! asks the operator to fold them into one value. It may do so for any
//! grouping of the operands, so the operator must not depend on the grouping
//! or on the order: it unites the sets that the value and the operands encode.

use vstd::prelude::*;
use crate::datasets::Datasets;
use crate::encoding::{decoding, encoding, is_encoding, lemma_decoding_of_encoding};

verus! {

/// The members that `bytes` encodes; none if `bytes` encodes no set.
pub open spec fn members_in(bytes: Seq<u8>) -> Set<u64> {
    match decoding(bytes) {
        Some(s) => s,
        None => Set::empty(),
    }
}

/// The union of the sets that the operands encode.
pub open spec fn union_of(operands: Seq<Seq<u8>>) -> Set<u64>
    decreases operands.len(),
{
    if operands.len() == 0 {
        Set::empty()
    } else {
        union_of(operands.drop_last()).union(members_in(operands.last()))
    }
}

/// Every operand is the encoding of a set.
pub open spec fn all_decode(operands: Seq<Seq<u8>>) -> bool {
    forall|i: int| 0 <= i < operands.len() ==> is_encoding(#[trigger] operands[i])
}

/// The stored value, if there is one, as the first of the operands.
pub open spec fn with_existing(existing: Option<Seq<u8>>, operands: Seq<Seq<u8>>) -> Seq<Seq<u8>> {
    match existing {
        Some(value) => seq![value] + operands,
        None => operands,
    }
}

/// What the operator returns: the encoding of the union of the stored value
/// and the operands, or `None` if one of them encodes no set.
pub open spec fn merged(existing: Option<Seq<u8>>, operands: Seq<Seq<u8>>) -> Option<Seq<u8>> {
    let all = with_existing(existing, operands);
    if all_decode(all) {
        Some(encoding(union_of(all)))
    } else {
        None
    }
}

/// The byte strings that a list of buffers holds.
pub open spec fn contents(buffers: Seq<Vec<u8>>) -> Seq<Seq<u8>> {
    Seq::new(buffers.len(), |i: int| buffers[i]@)
}

/// The stored bytes behind an optional slice.
pub open spec fn stored(value: Option<&[u8]>) -> Option<Seq<u8>> {
    match value {
        Some(bytes) => Some(bytes@),
        None => None,
    }
}

/// The union of a concatenation is the union of the unions.
pub proof fn lemma_union_of_concat(a: Seq<Seq<u8>>, b: Seq<Seq<u8>>)
    ensures
        union_of(a + b) == union_of(a).union(union_of(b)),
    decreases b.len(),
{
    if b.len() == 0 {
        assert(a + b == a);
        assert(union_of(a).union(Set::empty()) == union_of(a));
    } else {
        assert((a + b).drop_last() == a + b.drop_last());
        assert((a + b).last() == b.last());
        lemma_union_of_concat(a, b.drop_last());
        assert(union_of(a).union(union_of(b.drop_last())).union(members_in(b.last()))
            == union_of(a).union(union_of(b.drop_last()).union(members_in(b.last()))));
    }
}

/// The union of a single operand is the set it encodes.
pub proof fn lemma_union_of_one(operand: Seq<u8>)
    ensures
        union_of(seq![operand]) == members_in(operand),
{
    assert(seq![operand].drop_last() == Seq::<Seq<u8>>::empty());
    assert(seq![operand].last() == operand);
    assert(union_of(Seq::<Seq<u8>>::empty()) == Set::<u64>::empty());
    assert(Set::<u64>::empty().union(members_in(operand)) == members_in(operand));
}

/// Law of the operator (commutative): the order of the operands does not matter.
pub proof fn lemma_merge_commutes(existing: Option<Seq<u8>>, a: Seq<Seq<u8>>, b: Seq<Seq<u8>>)
    ensures
        merged(existing, a + b) == merged(existing, b + a),
{
    let start = with_existing(existing, Seq::empty());
    assert(with_existing(existing, a + b) == start + (a + b));
    assert(with_existing(existing, b + a) == start + (b + a));
    lemma_union_of_concat(start, a + b);
    lemma_union_of_concat(start, b + a);
    lemma_union_of_concat(a, b);
    lemma_union_of_concat(b, a);
    assert(union_of(a).union(union_of(b)) == union_of(b).union(union_of(a)));
    assert(all_decode(start + (a + b)) <==> all_decode(start + (b + a))) by {
        if all_decode(start + (a + b)) {
            assert forall|i: int| 0 <= i < (start + (b + a)).len() implies is_encoding(
                #[trigger] (start + (b + a))[i],
            ) by {
                let k = i - start.len();
                if k < 0 {
                    assert((start + (a + b))[i] == start[i]);
                } else if k < b.len() {
                    assert((start + (a + b))[start.len() + a.len() + k] == b[k]);
                } else {
                    assert((start + (a + b))[start.len() + (k - b.len())] == a[k - b.len()]);
                }
            }
        }
        if all_decode(start + (b + a)) {
            assert forall|i: int| 0 <= i < (start + (a + b)).len() implies is_encoding(
                #[trigger] (start + (a + b))[i],
            ) by {
                let k = i - start.len();
                if k < 0 {
                    assert((start + (b + a))[i] == start[i]);
                } else if k < a.len() {
                    assert((start + (b + a))[start.len() + b.len() + k] == a[k]);
                } else {
                    assert((start + (b + a))[start.len() + (k - a.len())] == b[k - a.len()]);
                }
            }
        }
    }
}

/// Law of the operator (associative): folding some operands first, and the
/// others onto the result, gives what folding all of them at once gives.
pub proof fn lemma_merge_associates(existing: Option<Seq<u8>>, a: Seq<Seq<u8>>, b: Seq<Seq<u8>>)
    requires
        merged(existing, a) is Some,
    ensures
        merged(merged(existing, a), b) == merged(existing, a + b),
{
    let first = with_existing(existing, a);
    let mid = merged(existing, a)->0;
    lemma_decoding_of_encoding(union_of(first));
    assert(with_existing(existing, a + b) == first + b);
    assert(with_existing(Some(mid), b) == seq![mid] + b);
    lemma_union_of_concat(first, b);
    lemma_union_of_concat(seq![mid], b);
    lemma_union_of_one(mid);
    assert(all_decode(seq![mid] + b) <==> all_decode(first + b)) by {
        if all_decode(seq![mid] + b) {
            assert forall|i: int| 0 <= i < (first + b).len() implies is_encoding(
                #[trigger] (first + b)[i],
            ) by {
                if i < first.len() {
                    assert((first + b)[i] == first[i]);
                } else {
                    assert((seq![mid] + b)[1 + (i - first.len())] == b[i - first.len()]);
                }
            }
        }
        if all_decode(first + b) {
            assert forall|i: int| 0 <= i < (seq![mid] + b).len() implies is_encoding(
                #[trigger] (seq![mid] + b)[i],
            ) by {
                if i >= 1 {
                    assert((first + b)[first.len() + (i - 1)] == b[i - 1]);
                }
            }
        }
    }
}

/// Folds the stored value and the pending operands into one value: the
/// encoding of the union of the sets they encode.
///
/// `None`, which the store takes for a failed merge, exactly when the stored
/// value or an operand is the encoding of no set.
pub fn merge_datasets(_key: &[u8], existing_val: Option<&[u8]>, operands: &Vec<Vec<u8>>) -> (value:
    Option<Vec<u8>>)
    ensures
        value is Some <==> merged(stored(existing_val), contents(operands@)) is Some,
        value matches Some(bytes) ==> merged(stored(existing_val), contents(operands@)) == Some(
            bytes@,
        ),
{
    let ghost all = with_existing(stored(existing_val), contents(operands@));
    let ghost start = with_existing(stored(existing_val), Seq::empty());
    assert(all == start + contents(operands@));
    let mut datasets = Datasets::Empty;
    match existing_val {
        Some(bytes) => {
            match Datasets::from_slice(bytes) {
                Some(d) => {
                    datasets = d;
                    proof {
                        lemma_union_of_one(bytes@);
                    }
                },
                None => {
                    assert(!is_encoding(all[0]));
                    return None;
                },
            }
        },
        None => {},
    }
    let mut i: usize = 0;
    while i < operands.len()
        invariant
            i <= operands.len(),
            all == with_existing(stored(existing_val), contents(operands@)),
            all == start + contents(operands@),
            start.len() <= 1,
            all_decode(start + contents(operands@).take(i as int)),
            datasets@ == union_of(start + contents(operands@).take(i as int)),
            datasets.wf(),
        decreases operands.len() - i,
    {
        let ghost done = start + contents(operands@).take(i as int);
        let ghost next = start + contents(operands@).take(i + 1);
        proof {
            assert(contents(operands@).take(i + 1) == contents(operands@).take(i as int).push(
                operands@[i as int]@,
            ));
            assert(next == done.push(operands@[i as int]@));
            assert(next.drop_last() == done);
        }
        match Datasets::from_slice(operands[i].as_slice()) {
            Some(d) => {
                datasets.union(d);
            },
            None => {
                proof {
                    assert(all[start.len() + i] == contents(operands@)[i as int]);
                    assert(!is_encoding(all[start.len() + i]));
                }
                return None;
            },
        }
        proof {
            assert forall|k: int| 0 <= k < next.len() implies is_encoding(#[trigger] next[k]) by {
                if k < done.len() {
                    assert(next[k] == done[k]);
                }
            }
        }
        i += 1;
    }
    assert(contents(operands@).take(i as int) == contents(operands@));
    datasets.as_bytes()
}

} // verus!
