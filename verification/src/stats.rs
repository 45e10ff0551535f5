//! What `check` reports of a column family.

use vstd::prelude::*;
use vstd::string::StringExecFns;
use crate::datasets::Datasets;
use crate::encoding::is_encoding;
use crate::error::Error;
use crate::keys::KEY_LEN;
use crate::merge::members_in;
use crate::store::COLORS;

verus! {

/// The totals of a column family.
#[derive(Debug, Clone, PartialEq)]
pub struct CfStats {
    /// Bytes of all keys.
    pub kcount: u128,
    /// Bytes of all values.
    pub vcount: u128,
    /// The size of each set of datasets, in the order of the entries; empty
    /// unless the values were looked into.
    pub sizes: Vec<u64>,
    /// The datasets that occur in a set; empty unless the values were looked into.
    pub datasets: Datasets,
}

/// What `numsep::separate` returns for `n` with the English locale: the
/// decimal digits of `n`, in groups of three.
pub uninterp spec fn separated(n: u128) -> Seq<char>;

/// What `size::Size::from_bytes(bytes).to_string()` returns: the size in
/// words, in binary units.
pub uninterp spec fn size_text(bytes: u64) -> Seq<char>;

/// `numsep::separate` with `numsep::Locale::English`.
///
/// Claimed of it: the result depends on the number alone.
#[verifier::external_body]
fn separate_thousands(n: u128) -> (text: String)
    ensures
        text@ == separated(n),
{
    numsep::separate(n, numsep::Locale::English)
}

/// `size::Size::from_bytes`, and `to_string` on what it returns.
///
/// Claimed of it: the result depends on the number alone.
#[verifier::external_body]
fn human_size(bytes: u64) -> (text: String)
    ensures
        text@ == size_text(bytes),
{
    size::Size::from_bytes(bytes).to_string()
}

/// The lengths of the keys of the first entries, added up.
pub open spec fn key_bytes(entries: Seq<(Vec<u8>, Vec<u8>)>) -> nat
    decreases entries.len(),
{
    if entries.len() == 0 {
        0
    } else {
        key_bytes(entries.drop_last()) + entries.last().0@.len()
    }
}

/// The lengths of the values of the entries, added up.
pub open spec fn value_bytes(entries: Seq<(Vec<u8>, Vec<u8>)>) -> nat
    decreases entries.len(),
{
    if entries.len() == 0 {
        0
    } else {
        value_bytes(entries.drop_last()) + entries.last().1@.len()
    }
}

/// The datasets that occur in the sets that the values encode.
pub open spec fn all_datasets(entries: Seq<(Vec<u8>, Vec<u8>)>) -> Set<u64>
    decreases entries.len(),
{
    if entries.len() == 0 {
        Set::empty()
    } else {
        all_datasets(entries.drop_last()).union(members_in(entries.last().1@))
    }
}

/// Every key holds an integer key at its start, and, where the values are
/// looked into, every value is the encoding of a set.
pub open spec fn sound(entries: Seq<(Vec<u8>, Vec<u8>)>, deep: bool) -> bool {
    forall|i: int|
        0 <= i < entries.len() ==> (#[trigger] entries[i]).0@.len() >= KEY_LEN && (deep
            ==> is_encoding(entries[i].1@))
}

/// The totals are those of the entries.
pub open spec fn totals(stats: CfStats, entries: Seq<(Vec<u8>, Vec<u8>)>, deep: bool) -> bool {
    &&& stats.kcount == key_bytes(entries)
    &&& stats.vcount == value_bytes(entries)
    &&& stats.datasets.wf()
    &&& if deep {
        &&& stats.sizes@.len() == entries.len()
        &&& forall|i: int|
            0 <= i < entries.len() ==> (#[trigger] stats.sizes@[i]) == members_in(entries[i].1@).len()
        &&& stats.datasets@ == all_datasets(entries)
    } else {
        &&& stats.sizes@.len() == 0
        &&& stats.datasets@ == Set::<u64>::empty()
    }
}

/// The totals of the entries of a column family: the bytes of its keys and
/// of its values and, unless `quick` is set or `deep_check` is not, the size
/// of each set of datasets and the datasets that occur.
///
/// `DeserializationFailure` exactly when a key is shorter than an integer
/// key or, where the values are looked into, a value is the encoding of no set.
pub fn stats_for_cf(entries: &Vec<(Vec<u8>, Vec<u8>)>, deep_check: bool, quick: bool) -> (stats:
    Result<CfStats, Error>)
    ensures
        stats is Ok <==> sound(entries@, !quick && deep_check),
        stats matches Ok(s) ==> totals(s, entries@, !quick && deep_check),
        stats matches Err(e) ==> e == Error::DeserializationFailure,
{
    let deep = !quick && deep_check;
    let mut kcount: u128 = 0;
    let mut vcount: u128 = 0;
    let mut sizes: Vec<u64> = Vec::new();
    let mut datasets = Datasets::Empty;
    let mut i: usize = 0;
    assert(entries@.take(0) == Seq::<(Vec<u8>, Vec<u8>)>::empty());
    while i < entries.len()
        invariant
            i <= entries.len(),
            deep == (!quick && deep_check),
            sound(entries@.take(i as int), deep),
            totals(CfStats { kcount, vcount, sizes, datasets }, entries@.take(i as int), deep),
            kcount <= i * usize::MAX,
            vcount <= i * usize::MAX,
        decreases entries.len() - i,
    {
        let ghost shorter = entries@.take(i as int);
        let ghost longer = entries@.take(i + 1);
        proof {
            assert(longer.drop_last() == shorter);
            assert(longer.last() == entries@[i as int]);
            assert((i + 1) * usize::MAX == i * usize::MAX + usize::MAX) by (nonlinear_arith);
            assert(i * usize::MAX + usize::MAX <= u128::MAX) by (nonlinear_arith)
                requires
                    i < usize::MAX,
                    usize::MAX <= 0xffff_ffff_ffff_ffff,
            ;
        }
        let key = &entries[i].0;
        let value = &entries[i].1;
        if key.len() < KEY_LEN {
            proof {
                assert(!sound(entries@, deep)) by {
                    assert(entries@[i as int].0@.len() < KEY_LEN);
                }
            }
            return Err(Error::DeserializationFailure);
        }
        kcount = kcount + key.len() as u128;
        vcount = vcount + value.len() as u128;
        if deep {
            match Datasets::from_slice(value.as_slice()) {
                Some(v) => {
                    let ghost before = sizes@;
                    sizes.push(v.len() as u64);
                    datasets.union(v);
                    proof {
                        assert forall|k: int| 0 <= k < longer.len() implies (#[trigger] sizes@[k])
                            == members_in(longer[k].1@).len() by {
                            if k < i {
                                assert(sizes@[k] == before[k]);
                                assert(longer[k] == shorter[k]);
                            }
                        }
                    }
                },
                None => {
                    proof {
                        assert(!sound(entries@, deep)) by {
                            assert(!is_encoding(entries@[i as int].1@));
                        }
                    }
                    return Err(Error::DeserializationFailure);
                },
            }
        }
        proof {
            assert forall|k: int| 0 <= k < longer.len() implies (#[trigger] longer[k]).0@.len()
                >= KEY_LEN && (deep ==> is_encoding(longer[k].1@)) by {
                if k < i {
                    assert(longer[k] == shorter[k]);
                }
            }
        }
        i += 1;
    }
    assert(entries@.take(i as int) == entries@);
    Ok(CfStats { kcount, vcount, sizes, datasets })
}

/// A label followed by a text.
fn labelled(label: &str, text: &str) -> (line: String)
    ensures
        line@ == label@ + text@,
{
    let mut line = String::from_str(label);
    line.append(text);
    line
}

/// The lines of the report of a column family called `cf_name`: its name
/// between asterisks; unless `quick` is set, for the colors column the
/// number of datasets; the number of keys, taking eight bytes for a key; the
/// bytes of the keys and of the values in words.
pub open spec fn report_lines(stats: CfStats, cf_name: Seq<char>, quick: bool) -> Seq<Seq<char>> {
    let head = seq!["*** "@ + cf_name + " ***"@];
    let total = if !quick && cf_name == COLORS@ {
        seq!["total datasets: "@ + separated(stats.datasets@.len() as u128)]
    } else {
        Seq::empty()
    };
    head + total + seq![
        "total keys: "@ + separated(stats.kcount / 8),
        "k: "@ + size_text(capped(stats.kcount)),
        "v: "@ + size_text(capped(stats.vcount)),
    ]
}

/// A number of bytes, held to what 64 bits can count.
pub open spec fn capped(bytes: u128) -> u64 {
    if bytes > u64::MAX {
        u64::MAX
    } else {
        bytes as u64
    }
}

/// A number of bytes, held to what 64 bits can count.
fn cap(bytes: u128) -> (held: u64)
    ensures
        held == capped(bytes),
{
    if bytes > u64::MAX as u128 {
        u64::MAX
    } else {
        bytes as u64
    }
}

impl CfStats {
    /// The lines that report the totals: see `report_lines`.
    pub fn report(&self, cf_name: &str, quick: bool) -> (lines: Vec<String>)
        ensures
            crate::revindex::texts(lines@) == report_lines(*self, cf_name@, quick),
    {
        let mut lines: Vec<String> = Vec::new();
        let head = labelled("*** ", cf_name);
        let head = labelled(head.as_str(), " ***");
        lines.push(head);
        if !quick && same_text(cf_name, COLORS) {
            let count = separate_thousands(self.datasets.len() as u128);
            lines.push(labelled("total datasets: ", count.as_str()));
        }
        let keys = separate_thousands(self.kcount / 8);
        lines.push(labelled("total keys: ", keys.as_str()));
        let ksize = human_size(cap(self.kcount));
        lines.push(labelled("k: ", ksize.as_str()));
        let vsize = human_size(cap(self.vcount));
        lines.push(labelled("v: ", vsize.as_str()));
        assert(crate::revindex::texts(lines@) =~= report_lines(*self, cf_name@, quick));
        lines
    }
}

/// Whether two texts are the same.
fn same_text(a: &str, b: &str) -> (same: bool)
    ensures
        same == (a@ == b@),
{
    let left = String::from_str(a);
    let right = String::from_str(b);
    left == right
}

} // verus!
