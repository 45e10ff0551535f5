//! The color index: every hash maps to a color, and every color to the set
//! of datasets it stands for.
//!
//! A color is a digest of a set of datasets. While the index is built the
//! hashes column gathers plain sets, as in the plain index; a compaction pass
//! then stores each set once under its color and leaves the color in its place.

use vstd::prelude::*;
use std::hash::Hasher;
use crate::datasets::{DatasetID, Datasets};
use crate::encoding::{encoding, is_encoding, pack, packed};
use crate::error::Error;
use crate::keys::{append_bytes, encode_key, key_of, KEY_LEN};
use crate::merge::members_in;
use crate::ordered::ascending;
use crate::postings::posting;
use crate::revindex::{sig_save_to_db, signature_put, stored_blob};
use crate::sketch::{prepare_query, prepared_error, prepared_view, KmerMinHash, Signature};
use crate::store::{requests, Family, Request, StoreOp};

verus! {

/// The digest that stands for a set of datasets.
pub type Color = u64;

/// An index that was opened at `path`, with colors.
#[derive(Debug, Clone, PartialEq)]
pub struct ColorRevIndex {
    pub path: String,
    pub read_only: bool,
}

/// The colors of the index.
#[derive(Default, Debug, PartialEq, Clone)]
pub struct Colors;

/// The low 64 bits of the 128-bit XXH3 digest of `bytes`, with the default seed.
pub uninterp spec fn xxh3_digest(bytes: Seq<u8>) -> u64;

/// `twox_hash::Xxh3Hash128`, made by default, fed `bytes` by `Hasher::write`
/// and read by `Hasher::finish`.
///
/// Claimed of it: the result is the low half of the digest, and depends on
/// the bytes alone.
#[verifier::external_body]
fn xxh3_low64(bytes: &[u8]) -> (digest: u64)
    ensures
        digest == xxh3_digest(bytes@),
{
    let mut hasher = twox_hash::Xxh3Hash128::default();
    hasher.write(bytes);
    hasher.finish()
}

/// What is digested for a list of identifiers: their number, then each of
/// them, as integers of eight little-endian bytes.
pub open spec fn color_input(ids: Seq<u64>) -> Seq<u8> {
    key_of(ids.len() as u64) + packed(ids)
}

/// The color of a set: the digest of its members in ascending order.
pub open spec fn color_of(datasets: Set<u64>) -> Color {
    xxh3_digest(color_input(ascending(datasets)))
}

/// What updating a color comes to.
#[derive(Debug, Clone, PartialEq)]
pub struct ColorUpdate {
    /// The color that stands for the widened set.
    pub color: Color,
    /// The request that stores the widened set under its color, where the
    /// set has changed.
    pub mint: Option<StoreOp>,
}

/// The request that stores a set under its color unless the color is known.
pub open spec fn minting(datasets: Set<u64>) -> Request {
    Request::Emplace {
        family: Family::Colors,
        key: key_of(color_of(datasets)),
        value: encoding(datasets),
    }
}

/// The request of an optional operation.
pub open spec fn request_of(op: Option<StoreOp>) -> Option<Request> {
    match op {
        Some(op) => Some(op@),
        None => None,
    }
}

/// The bytes of an optional stored value.
pub open spec fn stored_bytes(stored: Option<&[u8]>) -> Option<Seq<u8>> {
    match stored {
        Some(bytes) => Some(bytes@),
        None => None,
    }
}

/// What updating a color comes to: the color and the request to store its
/// set, or an error.
///
/// Without a current color, the new identifiers make the set. With one, the
/// set stored under it is widened by them: if that adds nothing the color
/// stays and nothing is stored. It is `StoreFailure` where a color is given
/// and nothing is stored under it, and `DeserializationFailure` where what is
/// stored is the encoding of no set.
pub open spec fn update_outcome(
    current_color: Option<Color>,
    stored: Option<Seq<u8>>,
    new_idxs: Seq<u64>,
) -> Result<(Color, Option<Request>), Error> {
    match current_color {
        None => Ok((color_of(new_idxs.to_set()), Some(minting(new_idxs.to_set())))),
        Some(color) => match stored {
            None => Err(Error::StoreFailure),
            Some(bytes) => if !is_encoding(bytes) {
                Err(Error::DeserializationFailure)
            } else if new_idxs.to_set().subset_of(members_in(bytes)) {
                Ok((color, None))
            } else {
                let widened = members_in(bytes).union(new_idxs.to_set());
                Ok((color_of(widened), Some(minting(widened))))
            },
        },
    }
}

impl Colors {
    /// The colors of an index.
    pub fn new() -> (colors: Colors)
        ensures
            colors == Colors,
    {
        Colors
    }

    /// The color of a set of datasets.
    pub fn compute_color(idxs: &Datasets) -> (color: Color)
        ensures
            color == color_of(idxs@),
    {
        let sorted = idxs.to_vec();
        let mut input = encode_key(sorted.len() as u64);
        let ids = pack(sorted.as_slice());
        append_bytes(&mut input, ids.as_slice());
        xxh3_low64(input.as_slice())
    }

    /// The color for the set of `current_color` widened by `new_idxs`.
    ///
    /// `stored` is the value held under `current_color`: see `update_outcome`.
    pub fn update(current_color: Option<Color>, stored: Option<&[u8]>, new_idxs: &[DatasetID]) -> (updated:
        Result<ColorUpdate, Error>)
        ensures
            match updated {
                Ok(u) => update_outcome(current_color, stored_bytes(stored), new_idxs@) == Ok::<
                    (Color, Option<Request>),
                    Error,
                >((u.color, request_of(u.mint))),
                Err(e) => update_outcome(current_color, stored_bytes(stored), new_idxs@) == Err::<
                    (Color, Option<Request>),
                    Error,
                >(e),
            },
    {
        match current_color {
            Some(color) => {
                let bytes = match stored {
                    Some(bytes) => bytes,
                    None => {
                        return Err(Error::StoreFailure);
                    },
                };
                let mut idxs = match Datasets::from_slice(bytes) {
                    Some(idxs) => idxs,
                    None => {
                        return Err(Error::DeserializationFailure);
                    },
                };
                let ghost old_members = idxs@;
                let mut all_known = true;
                let mut i: usize = 0;
                while i < new_idxs.len()
                    invariant
                        i <= new_idxs.len(),
                        idxs@ == old_members,
                        all_known <==> new_idxs@.take(i as int).to_set().subset_of(old_members),
                    decreases new_idxs.len() - i,
                {
                    proof {
                        new_idxs@.take(i as int).lemma_push_to_set_commute(new_idxs@[i as int]);
                        assert(new_idxs@.take(i + 1) == new_idxs@.take(i as int).push(
                            new_idxs@[i as int],
                        ));
                    }
                    if !idxs.contains(&new_idxs[i]) {
                        all_known = false;
                    }
                    i += 1;
                }
                assert(new_idxs@.take(i as int) == new_idxs@);
                if all_known {
                    Ok(ColorUpdate { color, mint: None })
                } else {
                    idxs.extend(new_idxs);
                    Ok(Self::minted(&idxs))
                }
            },
            None => {
                let idxs = Datasets::new(new_idxs);
                Ok(Self::minted(&idxs))
            },
        }
    }

    /// The color of a set, with the request that stores the set under it.
    fn minted(idxs: &Datasets) -> (update: ColorUpdate)
        ensures
            update.color == color_of(idxs@),
            update.mint matches Some(op) && op@ == minting(idxs@),
    {
        let color = Self::compute_color(idxs);
        let value = match idxs.as_bytes() {
            Some(bytes) => bytes,
            None => Vec::new(),
        };
        ColorUpdate {
            color,
            mint: Some(StoreOp::Emplace { family: Family::Colors, key: encode_key(color), value }),
        }
    }
}

/// The request that makes the color of the one dataset `id` known.
pub open spec fn coloring(id: u64) -> Request {
    Request::Merge {
        family: Family::Colors,
        key: key_of(color_of(set![id])),
        operand: encoding(set![id]),
    }
}

/// The requests that post dataset `id` under each hash of `mins`: for each
/// hash the request that makes the color of the dataset known, then the posting.
pub open spec fn color_posting_requests(id: u64, mins: Seq<u64>) -> Seq<Request> {
    Seq::new(
        2 * mins.len(),
        |k: int|
            if k % 2 == 0 {
                coloring(id)
            } else {
                posting(id, mins[k / 2])
            },
    )
}

/// The requests that index one dataset with colors, or the error that keeps
/// its signature from being used.
pub open spec fn color_dataset_outcome(
    id: u64,
    filename: Seq<char>,
    sig: Signature,
    template: KmerMinHash,
    threshold: u64,
    save_paths: bool,
) -> Result<Seq<Request>, Error> {
    match prepared_view(sig.sketches@, template) {
        Some(mh) => Ok(
            color_posting_requests(id, mh.mins).push(
                signature_put(
                    id,
                    stored_blob(sig, mh, mh.mins.len() as u64, threshold, save_paths, filename),
                ),
            ),
        ),
        None => Err(prepared_error(sig.sketches@, template)->0),
    }
}

/// The requests that index a list of signatures with colors, each under its
/// position as its identifier; or the error of the first that cannot be used.
pub open spec fn color_index_outcome(
    sigs: Seq<(String, Signature)>,
    template: KmerMinHash,
    threshold: u64,
    save_paths: bool,
) -> Result<Seq<Request>, Error>
    decreases sigs.len(),
{
    if sigs.len() == 0 {
        Ok(Seq::empty())
    } else {
        match color_index_outcome(sigs.drop_last(), template, threshold, save_paths) {
            Err(e) => Err(e),
            Ok(before) => match color_dataset_outcome(
                (sigs.len() - 1) as u64,
                sigs.last().0@,
                sigs.last().1,
                template,
                threshold,
                save_paths,
            ) {
                Err(e) => Err(e),
                Ok(these) => Ok(before + these),
            },
        }
    }
}

/// What compaction asks for one entry of the hashes column: nothing for a
/// value that is a color already; for a set, that the set be stored under its
/// color unless the color is known, and that the color take the set's place.
/// `None` for a value that is neither.
pub open spec fn recoloring(key: Seq<u8>, value: Seq<u8>) -> Option<Seq<Request>> {
    if value.len() == KEY_LEN {
        Some(Seq::empty())
    } else if is_encoding(value) {
        Some(
            seq![
                minting(members_in(value)),
                Request::Put {
                    family: Family::Hashes,
                    key,
                    value: key_of(color_of(members_in(value))),
                },
            ],
        )
    } else {
        None
    }
}

/// The keys and values of a list of entries.
pub open spec fn entry_views(entries: Seq<(Vec<u8>, Vec<u8>)>) -> Seq<(Seq<u8>, Seq<u8>)> {
    Seq::new(entries.len(), |i: int| (entries[i].0@, entries[i].1@))
}

/// What compaction asks for a list of entries of the hashes column, in their
/// order; `None` if one of them holds neither a color nor a set.
pub open spec fn recoloring_all(entries: Seq<(Seq<u8>, Seq<u8>)>) -> Option<Seq<Request>>
    decreases entries.len(),
{
    if entries.len() == 0 {
        Some(Seq::empty())
    } else {
        match recoloring_all(entries.drop_last()) {
            None => None,
            Some(before) => match recoloring(entries.last().0, entries.last().1) {
                None => None,
                Some(these) => Some(before + these),
            },
        }
    }
}

/// The keys under which the colors column is to be read for a query: the
/// values that were fetched from the hashes column, each a color. A hash
/// without a value asks for nothing. `None` where a value is not a color.
pub open spec fn color_keys_of(fetched: Seq<Option<Vec<u8>>>) -> Option<Seq<Seq<u8>>>
    decreases fetched.len(),
{
    if fetched.len() == 0 {
        Some(Seq::empty())
    } else {
        match color_keys_of(fetched.drop_last()) {
            None => None,
            Some(before) => match fetched.last() {
                None => Some(before),
                Some(value) => if value@.len() == KEY_LEN {
                    Some(before.push(value@))
                } else {
                    None
                },
            },
        }
    }
}

/// Moves the operations of `more` to the end of `ops`.
fn append_ops(ops: &mut Vec<StoreOp>, more: Vec<StoreOp>)
    ensures
        final(ops)@ == old(ops)@ + more@,
{
    let mut more = more;
    ops.append(&mut more);
}

/// A failure among the first signatures of a list is the failure of the list.
proof fn lemma_first_failure(
    sigs: Seq<(String, Signature)>,
    upto: int,
    template: KmerMinHash,
    threshold: u64,
    save_paths: bool,
)
    requires
        0 <= upto <= sigs.len(),
        color_index_outcome(sigs.take(upto), template, threshold, save_paths) is Err,
    ensures
        color_index_outcome(sigs, template, threshold, save_paths) == color_index_outcome(
            sigs.take(upto),
            template,
            threshold,
            save_paths,
        ),
    decreases sigs.len() - upto,
{
    if upto < sigs.len() {
        assert(sigs.take(upto + 1).drop_last() == sigs.take(upto));
        lemma_first_failure(sigs, upto + 1, template, threshold, save_paths);
    } else {
        assert(sigs.take(upto) == sigs);
    }
}

/// An entry that is neither a color nor a set makes the list fail.
proof fn lemma_recoloring_fail(entries: Seq<(Seq<u8>, Seq<u8>)>, upto: int)
    requires
        0 <= upto <= entries.len(),
        recoloring_all(entries.take(upto)) is None,
    ensures
        recoloring_all(entries) is None,
    decreases entries.len() - upto,
{
    if upto < entries.len() {
        assert(entries.take(upto + 1).drop_last() == entries.take(upto));
        lemma_recoloring_fail(entries, upto + 1);
    } else {
        assert(entries.take(upto) == entries);
    }
}

/// A value that is not a color makes the list of keys fail.
proof fn lemma_color_keys_fail(fetched: Seq<Option<Vec<u8>>>, upto: int)
    requires
        0 <= upto <= fetched.len(),
        color_keys_of(fetched.take(upto)) is None,
    ensures
        color_keys_of(fetched) is None,
    decreases fetched.len() - upto,
{
    if upto < fetched.len() {
        assert(fetched.take(upto + 1).drop_last() == fetched.take(upto));
        lemma_color_keys_fail(fetched, upto + 1);
    } else {
        assert(fetched.take(upto) == fetched);
    }
}

/// The requests that post a dataset under each hash of its sketch, with colors.
pub fn map_hashes_colors(dataset_id: DatasetID, search_mh: &KmerMinHash) -> (ops: Vec<StoreOp>)
    ensures
        requests(ops@) == color_posting_requests(dataset_id, search_mh.mins@),
{
    let mut single = Datasets::Empty;
    single.insert(dataset_id);
    assert(single@ == set![dataset_id]);
    let color = Colors::compute_color(&single);
    let mut ops: Vec<StoreOp> = Vec::new();
    let mut i: usize = 0;
    while i < search_mh.mins.len()
        invariant
            i <= search_mh.mins.len(),
            single@ == set![dataset_id],
            color == color_of(set![dataset_id]),
            requests(ops@) == color_posting_requests(dataset_id, search_mh.mins@.take(i as int)),
        decreases search_mh.mins.len() - i,
    {
        let operand = match single.as_bytes() {
            Some(bytes) => bytes,
            None => Vec::new(),
        };
        let again = match single.as_bytes() {
            Some(bytes) => bytes,
            None => Vec::new(),
        };
        let paint = StoreOp::Merge { family: Family::Colors, key: encode_key(color), operand };
        let post = StoreOp::Merge {
            family: Family::Hashes,
            key: encode_key(search_mh.mins[i]),
            operand: again,
        };
        proof {
            let hash = search_mh.mins@[i as int];
            let shorter = search_mh.mins@.take(i as int);
            let longer = search_mh.mins@.take(i + 1);
            assert(paint@ == coloring(dataset_id));
            assert(post@ == posting(dataset_id, hash));
            assert(requests(ops@.push(paint).push(post)) == requests(ops@).push(paint@).push(post@));
            assert(color_posting_requests(dataset_id, longer) =~= color_posting_requests(
                dataset_id,
                shorter,
            ).push(coloring(dataset_id)).push(posting(dataset_id, hash))) by {
                assert forall|k: int| 0 <= k < 2 * longer.len() implies color_posting_requests(
                    dataset_id,
                    longer,
                )[k] == color_posting_requests(dataset_id, shorter).push(
                    coloring(dataset_id),
                ).push(posting(dataset_id, hash))[k] by {
                    if k < 2 * i {
                        assert(longer[k / 2] == shorter[k / 2]);
                    } else if k == 2 * i {
                    } else {
                        assert(k / 2 == i);
                    }
                }
            }
        }
        ops.push(paint);
        ops.push(post);
        i += 1;
    }
    assert(search_mh.mins@.take(i as int) == search_mh.mins@);
    ops
}

/// The requests that index one dataset with colors under the identifier `dataset_id`.
pub fn index_dataset(
    dataset_id: DatasetID,
    filename: &str,
    search_sig: &Signature,
    template: &KmerMinHash,
    threshold: u64,
    save_paths: bool,
) -> (ops: Result<Vec<StoreOp>, Error>)
    ensures
        match color_dataset_outcome(
            dataset_id,
            filename@,
            *search_sig,
            *template,
            threshold,
            save_paths,
        ) {
            Ok(expected) => ops matches Ok(v) && requests(v@) == expected,
            Err(e) => ops == Err::<Vec<StoreOp>, Error>(e),
        },
{
    let search_mh = match prepare_query(search_sig, template) {
        Ok(mh) => mh,
        Err(e) => {
            return Err(e);
        },
    };
    let mut ops = map_hashes_colors(dataset_id, &search_mh);
    let size = search_mh.size() as u64;
    let ghost before = ops@;
    let put = sig_save_to_db(
        search_sig,
        search_mh,
        size,
        threshold,
        save_paths,
        filename,
        dataset_id,
    );
    ops.push(put);
    assert(requests(ops@) == requests(before).push(put@));
    Ok(ops)
}

/// What compaction asks for one entry of the hashes column: see `recoloring`.
///
/// `DeserializationFailure` where the value is neither a color nor a set.
pub fn recolor(key: &[u8], value: &[u8]) -> (ops: Result<Vec<StoreOp>, Error>)
    ensures
        match recoloring(key@, value@) {
            Some(expected) => ops matches Ok(v) && requests(v@) == expected,
            None => ops == Err::<Vec<StoreOp>, Error>(Error::DeserializationFailure),
        },
{
    let mut ops: Vec<StoreOp> = Vec::new();
    if value.len() == KEY_LEN {
        assert(requests(ops@) == Seq::<Request>::empty());
        return Ok(ops);
    }
    let datasets = match Datasets::from_slice(value) {
        Some(datasets) => datasets,
        None => {
            return Err(Error::DeserializationFailure);
        },
    };
    let update = Colors::minted(&datasets);
    let color = update.color;
    let mut stored: Vec<u8> = Vec::new();
    append_bytes(&mut stored, key);
    let put = StoreOp::Put { family: Family::Hashes, key: stored, value: encode_key(color) };
    match update.mint {
        Some(mint) => {
            assert(requests(ops@.push(mint).push(put)) == seq![mint@, put@]);
            ops.push(mint);
            ops.push(put);
        },
        None => {},
    }
    Ok(ops)
}

/// The keys under which the colors column is to be read for a query: see
/// `color_keys_of`.
///
/// `DeserializationFailure` where a fetched value is not a color, as in an
/// index that was not compacted.
pub fn color_keys(fetched: &Vec<Option<Vec<u8>>>) -> (keys: Result<Vec<Vec<u8>>, Error>)
    ensures
        match color_keys_of(fetched@) {
            Some(expected) => keys matches Ok(v) && crate::merge::contents(v@) == expected,
            None => keys == Err::<Vec<Vec<u8>>, Error>(Error::DeserializationFailure),
        },
{
    let mut keys: Vec<Vec<u8>> = Vec::new();
    let mut i: usize = 0;
    assert(fetched@.take(0) == Seq::<Option<Vec<u8>>>::empty());
    assert(crate::merge::contents(keys@) == Seq::<Seq<u8>>::empty());
    while i < fetched.len()
        invariant
            i <= fetched.len(),
            color_keys_of(fetched@.take(i as int)) == Some(crate::merge::contents(keys@)),
        decreases fetched.len() - i,
    {
        proof {
            assert(fetched@.take(i + 1).drop_last() == fetched@.take(i as int));
            assert(fetched@.take(i + 1).last() == fetched@[i as int]);
        }
        match &fetched[i] {
            None => {},
            Some(value) => {
                if value.len() != KEY_LEN {
                    proof {
                        lemma_color_keys_fail(fetched@, i + 1);
                    }
                    return Err(Error::DeserializationFailure);
                }
                let mut key: Vec<u8> = Vec::new();
                append_bytes(&mut key, value.as_slice());
                assert(key@ == value@);
                assert(crate::merge::contents(keys@.push(key)) == crate::merge::contents(
                    keys@,
                ).push(key@));
                keys.push(key);
            },
        }
        i += 1;
    }
    assert(fetched@.take(i as int) == fetched@);
    Ok(keys)
}

impl ColorRevIndex {
    /// The requests that build the index from a list of signatures. The
    /// datasets get their positions in the list as identifiers.
    ///
    /// An index that was opened for reading only refuses; so does a
    /// signature that cannot be used with the template, with its error.
    pub fn index(
        &self,
        index_sigs: &Vec<(String, Signature)>,
        template: &KmerMinHash,
        threshold: u64,
        save_paths: bool,
    ) -> (ops: Result<Vec<StoreOp>, Error>)
        ensures
            self.read_only ==> ops == Err::<Vec<StoreOp>, Error>(Error::ReadOnly),
            !self.read_only ==> match color_index_outcome(
                index_sigs@,
                *template,
                threshold,
                save_paths,
            ) {
                Ok(expected) => ops matches Ok(v) && requests(v@) == expected,
                Err(e) => ops == Err::<Vec<StoreOp>, Error>(e),
            },
    {
        if self.read_only {
            return Err(Error::ReadOnly);
        }
        let mut ops: Vec<StoreOp> = Vec::new();
        let mut i: usize = 0;
        assert(index_sigs@.take(0) == Seq::<(String, Signature)>::empty());
        assert(requests(ops@) == Seq::<Request>::empty());
        while i < index_sigs.len()
            invariant
                i <= index_sigs.len(),
                !self.read_only,
                color_index_outcome(index_sigs@.take(i as int), *template, threshold, save_paths)
                    == Ok::<Seq<Request>, Error>(requests(ops@)),
            decreases index_sigs.len() - i,
        {
            proof {
                assert(index_sigs@.take(i + 1).drop_last() == index_sigs@.take(i as int));
                assert(index_sigs@.take(i + 1).last() == index_sigs@[i as int]);
            }
            let entry = &index_sigs[i];
            match index_dataset(
                i as u64,
                entry.0.as_str(),
                &entry.1,
                template,
                threshold,
                save_paths,
            ) {
                Ok(these) => {
                    let ghost before = ops@;
                    append_ops(&mut ops, these);
                    assert(requests(ops@) == requests(before) + requests(these@));
                },
                Err(e) => {
                    proof {
                        lemma_first_failure(index_sigs@, i + 1, *template, threshold, save_paths);
                    }
                    return Err(e);
                },
            }
            i += 1;
        }
        assert(index_sigs@.take(i as int) == index_sigs@);
        Ok(ops)
    }

    /// The requests of the compaction pass over the entries of the hashes
    /// column, in their order.
    ///
    /// An index that was opened for reading only refuses; an entry that holds
    /// neither a color nor a set is a `DeserializationFailure`.
    pub fn recolor_all(&self, entries: &Vec<(Vec<u8>, Vec<u8>)>) -> (ops: Result<
        Vec<StoreOp>,
        Error,
    >)
        ensures
            self.read_only ==> ops == Err::<Vec<StoreOp>, Error>(Error::ReadOnly),
            !self.read_only ==> match recoloring_all(entry_views(entries@)) {
                Some(expected) => ops matches Ok(v) && requests(v@) == expected,
                None => ops == Err::<Vec<StoreOp>, Error>(Error::DeserializationFailure),
            },
    {
        if self.read_only {
            return Err(Error::ReadOnly);
        }
        let ghost views = entry_views(entries@);
        let mut ops: Vec<StoreOp> = Vec::new();
        let mut i: usize = 0;
        assert(views.take(0) == Seq::<(Seq<u8>, Seq<u8>)>::empty());
        assert(requests(ops@) == Seq::<Request>::empty());
        while i < entries.len()
            invariant
                i <= entries.len(),
                !self.read_only,
                views == entry_views(entries@),
                recoloring_all(views.take(i as int)) == Some(requests(ops@)),
            decreases entries.len() - i,
        {
            proof {
                assert(views.take(i + 1).drop_last() == views.take(i as int));
                assert(views.take(i + 1).last() == views[i as int]);
            }
            let entry = &entries[i];
            match recolor(entry.0.as_slice(), entry.1.as_slice()) {
                Ok(these) => {
                    let ghost before = ops@;
                    append_ops(&mut ops, these);
                    assert(requests(ops@) == requests(before) + requests(these@));
                },
                Err(e) => {
                    proof {
                        lemma_recoloring_fail(views, i + 1);
                    }
                    return Err(e);
                },
            }
            i += 1;
        }
        assert(views.take(i as int) == views);
        Ok(ops)
    }
}

} // verus!
