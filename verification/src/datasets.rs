//! Sets of dataset identifiers, as they are posted under a hash.

use vstd::prelude::*;
use std::collections::BTreeSet;
use crate::encoding::{
    chunk, decoding, encoding, frames, is_encoding, lemma_decoding_of_encoding,
    lemma_encoding_shape, lemma_frames_ascending, tag_for, TAG_EMPTY, TAG_MANY, TAG_UNIQUE,
};
use crate::keys::{append_bytes, encode_key, key_of, lemma_key_of_injective, read_u64_at};
use crate::ordered::{ascending, lists, sorted_members, strictly_ascending};

verus! {

/// Identifier of an indexed dataset: its position in the list it was indexed from.
pub type DatasetID = u64;

/// A set of dataset identifiers.
///
/// Most hashes occur in a single dataset, so the one-member set is held inline.
#[derive(Debug, PartialEq, Clone, Hash)]
pub enum Datasets {
    Empty,
    Unique(DatasetID),
    Many(BTreeSet<DatasetID>),
}

impl View for Datasets {
    type V = Set<DatasetID>;

    /// The members.
    open spec fn view(&self) -> Set<DatasetID> {
        match self {
            Datasets::Empty => Set::empty(),
            Datasets::Unique(id) => set![*id],
            Datasets::Many(ids) => ids@,
        }
    }
}

impl Default for Datasets {
    fn default() -> (d: Self)
        ensures
            d == Datasets::Empty,
    {
        Datasets::Empty
    }
}

impl Datasets {
    /// The value is in minimal form: `Many` is used for two members or more only.
    ///
    /// A well-formed value is determined by its members: it is `Empty`, `Unique`
    /// or `Many` as it has none, one or more of them.
    pub open spec fn wf(&self) -> bool {
        match self {
            Datasets::Empty => true,
            Datasets::Unique(_) => true,
            Datasets::Many(ids) => ids@.finite() && ids@.len() >= 2,
        }
    }

    /// The set of the given identifiers, in minimal form.
    pub fn new(vals: &[DatasetID]) -> (d: Self)
        ensures
            d@ == vals@.to_set(),
            d.wf(),
    {
        let mut d = Datasets::Empty;
        d.extend(vals);
        assert(d@ == vals@.to_set());
        d
    }

    /// Adds every identifier of `vals`; the variant grows as needed and never shrinks.
    pub fn extend(&mut self, vals: &[DatasetID])
        ensures
            final(self)@ == old(self)@.union(vals@.to_set()),
            old(self).wf() ==> final(self).wf(),
            *old(self) is Many ==> *final(self) is Many,
            *old(self) is Unique ==> !(*final(self) is Empty),
    {
        let mut i: usize = 0;
        while i < vals.len()
            invariant
                i <= vals.len(),
                self@ == old(self)@.union(vals@.take(i as int).to_set()),
                old(self).wf() ==> self.wf(),
                *old(self) is Many ==> *self is Many,
                *old(self) is Unique ==> !(*self is Empty),
            decreases vals.len() - i,
        {
            let value = vals[i];
            proof {
                assert(vals@.take(i + 1) == vals@.take(i as int).push(value));
                vals@.take(i as int).lemma_push_to_set_commute(value);
            }
            self.insert(value);
            i += 1;
        }
        assert(vals@.take(i as int) == vals@);
    }

    /// Adds one identifier.
    pub fn insert(&mut self, value: DatasetID)
        ensures
            final(self)@ == old(self)@.insert(value),
            old(self).wf() ==> final(self).wf(),
            *old(self) is Many ==> *final(self) is Many,
            !(*final(self) is Empty),
    {
        broadcast use vstd::laws_cmp::group_laws_cmp;
        match self {
            Datasets::Empty => {
                *self = Datasets::Unique(value);
            },
            Datasets::Unique(v) => {
                let first = *v;
                if first != value {
                    let mut ids: BTreeSet<DatasetID> = BTreeSet::new();
                    ids.insert(first);
                    ids.insert(value);
                    assert(ids@ == set![first].insert(value));
                    *self = Datasets::Many(ids);
                } else {
                    assert(set![first].insert(value) == set![first]);
                }
            },
            Datasets::Many(ids) => {
                ids.insert(value);
            },
        }
    }

    /// Adds every member of `other`; the variant grows as needed and never shrinks.
    pub fn union(&mut self, other: Datasets)
        ensures
            final(self)@ == old(self)@.union(other@),
            old(self).wf() && other.wf() ==> final(self).wf(),
            *old(self) is Many ==> *final(self) is Many,
            *old(self) is Unique ==> !(*final(self) is Empty),
    {
        broadcast use vstd::laws_cmp::group_laws_cmp;
        match self {
            Datasets::Empty => match other {
                Datasets::Empty => (),
                Datasets::Unique(_) | Datasets::Many(_) => {
                    assert(Set::<DatasetID>::empty().union(other@) == other@);
                    *self = other;
                },
            },
            Datasets::Unique(v) => match other {
                Datasets::Empty => {
                    assert(set![*v].union(Set::<DatasetID>::empty()) == set![*v]);
                },
                Datasets::Unique(o) => {
                    assert(set![*v].union(set![o]) == set![*v].insert(o));
                    self.insert(o);
                },
                Datasets::Many(o) => {
                    let first = *v;
                    let mut ids = o;
                    ids.insert(first);
                    assert(ids@ == set![first].union(o@));
                    *self = Datasets::Many(ids);
                },
            },
            Datasets::Many(_) => {
                let ids = other.to_vec();
                self.extend(ids.as_slice());
            },
        }
    }

    /// Whether `value` is a member.
    pub fn contains(&self, value: &DatasetID) -> (found: bool)
        ensures
            found == self@.contains(*value),
    {
        broadcast use vstd::laws_cmp::group_laws_cmp;
        match self {
            Datasets::Empty => false,
            Datasets::Unique(v) => *v == *value,
            Datasets::Many(ids) => ids.contains(value),
        }
    }

    /// The number of members.
    pub fn len(&self) -> (n: usize)
        ensures
            n == self@.len(),
    {
        broadcast use vstd::laws_cmp::group_laws_cmp;
        match self {
            Datasets::Empty => 0,
            Datasets::Unique(_) => 1,
            Datasets::Many(ids) => ids.len(),
        }
    }

    /// Whether there is no member.
    pub fn is_empty(&self) -> (none: bool)
        ensures
            none == (self@.len() == 0),
    {
        self.len() == 0
    }

    /// The encoding of the set.
    ///
    /// It depends on the members alone and is always produced.
    pub fn as_bytes(&self) -> (bytes: Option<Vec<u8>>)
        ensures
            bytes matches Some(b) && b@ == encoding(self@),
    {
        let ids = self.to_vec();
        let tag: u8 = if ids.len() == 0 {
            TAG_EMPTY
        } else if ids.len() == 1 {
            TAG_UNIQUE
        } else {
            TAG_MANY
        };
        let mut out: Vec<u8> = Vec::new();
        out.push(tag);
        let mut i: usize = 0;
        while i < ids.len()
            invariant
                i <= ids.len(),
                out@.len() == 1 + 8 * i,
                out@[0] == tag_for(ids@.len()),
                forall|k: int| 0 <= k < i ==> #[trigger] chunk(out@, k) == key_of(ids@[k]),
            decreases ids.len() - i,
        {
            let key = encode_key(ids[i]);
            let ghost before = out@;
            append_bytes(&mut out, key.as_slice());
            proof {
                assert forall|k: int| 0 <= k < i + 1 implies #[trigger] chunk(out@, k) == key_of(
                    ids@[k],
                ) by {
                    if k < i {
                        assert(chunk(out@, k) == chunk(before, k));
                    } else {
                        assert(chunk(out@, k) == key@);
                    }
                }
            }
            i += 1;
        }
        proof {
            assert(frames(out@, ids@));
            lemma_frames_ascending(out@, ids@);
        }
        Some(out)
    }

    /// Decodes the encoding of a set, into minimal form.
    ///
    /// `None` exactly when the bytes are the encoding of no set: on a wrong
    /// tag, a wrong length, or identifiers that do not ascend.
    pub fn from_slice(slice: &[u8]) -> (decoded: Option<Self>)
        ensures
            decoded is Some <==> is_encoding(slice@),
            decoded matches Some(d) ==> d.wf() && decoding(slice@) == Some(d@),
    {
        let decoded = Self::parse(slice);
        proof {
            if decoded is Some {
                lemma_decoding_of_encoding(decoded->0@);
            }
        }
        decoded
    }

    /// The set that `slice` encodes, or `None` if it encodes no set.
    fn parse(slice: &[u8]) -> (decoded: Option<Self>)
        ensures
            decoded matches Some(d) ==> d.wf() && encoding(d@) == slice@,
            decoded is None ==> forall|s: Set<DatasetID>| #[trigger] encoding(s) != slice@,
    {
        if slice.len() == 0 || (slice.len() - 1) % 8 != 0 {
            proof {
                assert forall|s: Set<DatasetID>| #[trigger] encoding(s) != slice@ by {
                    lemma_encoding_shape(s);
                }
            }
            return None;
        }
        let count: usize = (slice.len() - 1) / 8;
        let tag = slice[0];
        let expected: u8 = if count == 0 {
            TAG_EMPTY
        } else if count == 1 {
            TAG_UNIQUE
        } else {
            TAG_MANY
        };
        if tag != expected {
            proof {
                assert forall|s: Set<DatasetID>| #[trigger] encoding(s) != slice@ by {
                    lemma_encoding_shape(s);
                }
            }
            return None;
        }
        let mut d = Datasets::Empty;
        let mut ids: Vec<DatasetID> = Vec::new();
        let mut i: usize = 0;
        while i < count
            invariant
                i <= count,
                slice@.len() == 1 + 8 * count,
                slice@.len() <= usize::MAX,
                ids@.len() == i,
                forall|k: int| 0 <= k < i ==> #[trigger] chunk(slice@, k) == key_of(ids@[k]),
                strictly_ascending(ids@),
                d@ == ids@.to_set(),
                d.wf(),
            decreases count - i,
        {
            let id = read_u64_at(slice, 1 + 8 * i);
            if i > 0 && id <= ids[i - 1] {
                proof {
                    let prev = ids@[i - 1];
                    assert forall|s: Set<DatasetID>| #[trigger] encoding(s) != slice@ by {
                        lemma_encoding_shape(s);
                        if encoding(s) == slice@ {
                            let q = ascending(s);
                            assert(chunk(slice@, i - 1) == key_of(q[i - 1]));
                            assert(chunk(slice@, i as int) == key_of(q[i as int]));
                            lemma_key_of_injective(q[i - 1], prev);
                            lemma_key_of_injective(q[i as int], id);
                            assert(q[i - 1] < q[i as int]);
                        }
                    }
                }
                return None;
            }
            proof {
                ids@.lemma_push_to_set_commute(id);
                assert forall|a: int, b: int| 0 <= a < b < ids@.push(id).len() implies ids@.push(
                    id,
                )[a] < ids@.push(id)[b] by {
                    if b == i {
                        if a < i - 1 {
                            assert(ids@[a] < ids@[i - 1]);
                        }
                    }
                }
            }
            ids.push(id);
            d.insert(id);
            i += 1;
        }
        proof {
            assert(frames(slice@, ids@));
            lemma_frames_ascending(slice@, ids@);
        }
        Some(d)
    }

    /// A copy of the set, in minimal form.
    pub fn duplicate(&self) -> (copy: Datasets)
        ensures
            copy@ == self@,
            copy.wf(),
    {
        let ids = self.to_vec();
        Datasets::new(ids.as_slice())
    }

    /// The members in ascending order.
    pub fn to_vec(&self) -> (ids: Vec<DatasetID>)
        ensures
            ids@ == ascending(self@),
            lists(ids@, self@),
    {
        match self {
            Datasets::Empty => {
                let ids: Vec<DatasetID> = Vec::new();
                proof {
                    assert(ids@.to_set() == Set::<DatasetID>::empty());
                    crate::ordered::lemma_ascending_of_listing(ids@);
                }
                ids
            },
            Datasets::Unique(v) => {
                let mut ids: Vec<DatasetID> = Vec::new();
                ids.push(*v);
                proof {
                    Seq::<DatasetID>::empty().lemma_push_to_set_commute(*v);
                    assert(Seq::<DatasetID>::empty().to_set() == Set::<DatasetID>::empty());
                    crate::ordered::lemma_ascending_of_listing(ids@);
                }
                ids
            },
            Datasets::Many(set) => sorted_members(set),
        }
    }
}

/// Two well-formed values with the same members are the same value: the members
/// decide the variant, and the identifier that `Unique` holds.
pub proof fn lemma_members_determine(a: Datasets, b: Datasets)
    requires
        a.wf(),
        b.wf(),
        a@ == b@,
    ensures
        a is Empty <==> b is Empty,
        a is Unique <==> b is Unique,
        a is Many <==> b is Many,
        a is Unique ==> a == b,
        a is Empty ==> a == b,
{
    match a {
        Datasets::Empty => {
            assert(b@.len() == 0);
        },
        Datasets::Unique(x) => {
            assert(b@.len() == 1);
            assert(b@.contains(x));
        },
        Datasets::Many(_) => {},
    }
}

/// Law of `union` and `contains`: an identifier is a member of the union of
/// two sets exactly when it is a member of one of them.
pub proof fn lemma_union_contains(a: Datasets, b: Datasets, x: DatasetID)
    ensures
        a@.union(b@).contains(x) <==> (a@.contains(x) || b@.contains(x)),
{
}

/// Law of `union`: uniting a set with itself changes nothing.
pub proof fn lemma_union_idempotent(a: Datasets)
    ensures
        a@.union(a@) == a@,
{
    assert(a@.union(a@) =~= a@);
}

/// Law of `union`: the order of the operands does not matter.
pub proof fn lemma_union_commutes(a: Datasets, b: Datasets)
    ensures
        a@.union(b@) == b@.union(a@),
{
    assert(a@.union(b@) =~= b@.union(a@));
}

/// Law of `union`: the grouping of the operands does not matter.
pub proof fn lemma_union_associates(a: Datasets, b: Datasets, c: Datasets)
    ensures
        a@.union(b@).union(c@) == a@.union(b@.union(c@)),
{
    assert(a@.union(b@).union(c@) =~= a@.union(b@.union(c@)));
}

} // verus!
