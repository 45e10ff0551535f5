//! An inverted index over MinHash sketches: the data structures, encodings and
//! decision procedures of a sketch search engine that keeps its postings in a
//! persistent key-value store.
//!
//! The store itself, the files and the command line are the caller's. The
//! index hands out the keys it wants read and the writes it wants done, and
//! takes the values that were read.

pub mod color_revindex;
pub mod coloring;
pub mod counter;
pub mod datasets;
pub mod encoding;
pub mod error;
pub mod gather;
pub mod keys;
pub mod merge;
pub mod ordered;
pub mod postings;
pub mod revindex;
pub mod signature;
pub mod sketch;
pub mod stats;
pub mod store;

use vstd::prelude::*;
use std::collections::HashMap;
use crate::color_revindex::{entry_views, recoloring_all, Color, ColorRevIndex};
use crate::counter::{
    all_fetched_decode, at_least, counts, fetched_sets, ranks, tally, tally_postings, SigCounter,
};
use crate::datasets::{DatasetID, Datasets};
use crate::error::Error;
use crate::gather::{gathered, result_views, GatherResult};
use crate::sketch::{KmerMinHash, Signature};
use crate::store::{requests, Family, Request, StoreOp};

verus! {

/// For each color of a query, the datasets it stands for.
pub type QueryColors = HashMap<Color, Datasets>;

/// For each hash of a query, its color.
pub type HashToColor = HashMap<u64, Color>;

/// An opened index, with colors or without.
///
/// Whether an index has colors is settled when it is opened and does not
/// change afterwards.
pub enum RevIndex {
    Color(ColorRevIndex),
    Plain(revindex::RevIndex),
}

/// One column family to look over in a check.
#[derive(Debug, Clone, Copy, PartialEq, Eq, Structural)]
pub struct Scan {
    pub family: Family,
    /// Whether the values hold sets of datasets that are to be looked into.
    pub deep_check: bool,
}

/// The requests that write the pending writes of the given column families
/// to disk: first the log, then each family.
pub open spec fn flushing(families: Seq<Family>) -> Seq<Request> {
    seq![Request::FlushLog] + Seq::new(families.len(), |i: int| Request::Flush { family: families[i] })
}

/// The requests that compact the whole key range of each of the given
/// column families.
pub open spec fn compacting(families: Seq<Family>) -> Seq<Request> {
    Seq::new(families.len(), |i: int| Request::CompactRange { family: families[i] })
}

impl RevIndex {
    /// Whether the index has colors.
    pub open spec fn colors(&self) -> bool {
        self is Color
    }

    /// Whether the index was opened for reading only.
    pub open spec fn read_only(&self) -> bool {
        match self {
            RevIndex::Color(db) => db.read_only,
            RevIndex::Plain(db) => db.read_only,
        }
    }

    /// The path that the index was opened at.
    pub open spec fn path(&self) -> Seq<char> {
        match self {
            RevIndex::Color(db) => db.path@,
            RevIndex::Plain(db) => db.path@,
        }
    }

    /// The column families of the index: the colors column only with colors.
    pub open spec fn families(&self) -> Seq<Family> {
        if self.colors() {
            seq![Family::Hashes, Family::Colors, Family::Signatures]
        } else {
            seq![Family::Hashes, Family::Signatures]
        }
    }

    /// The index at the path `index`, with colors if `colors` is set, and for
    /// reading only if `read_only` is.
    pub fn open(index: &str, read_only: bool, colors: bool) -> (opened: Self)
        ensures
            opened.colors() == colors,
            opened.read_only() == read_only,
            opened.path() == index@,
    {
        if colors {
            RevIndex::Color(ColorRevIndex { path: index.to_owned(), read_only })
        } else {
            RevIndex::Plain(revindex::RevIndex { path: index.to_owned(), read_only })
        }
    }

    /// The column families of the index.
    pub fn column_families(&self) -> (families: Vec<Family>)
        ensures
            families@ == self.families(),
    {
        let mut families: Vec<Family> = Vec::new();
        families.push(Family::Hashes);
        match self {
            RevIndex::Color(_) => {
                families.push(Family::Colors);
            },
            RevIndex::Plain(_) => {},
        }
        families.push(Family::Signatures);
        assert(families@ =~= self.families());
        families
    }

    /// Counts, for each dataset, how many hashes of the query it holds.
    ///
    /// `fetched` holds the sets of datasets that were read for the query:
    /// from the hashes column without colors; with colors, from the colors
    /// column under the keys that `color_keys` gives.
    /// `DeserializationFailure` exactly when a value is the encoding of no set.
    pub fn counter_for_query(&self, fetched: &Vec<Option<Vec<u8>>>) -> (tallied: Result<
        SigCounter,
        Error,
    >)
        ensures
            tallied is Ok <==> all_fetched_decode(fetched@),
            tallied matches Ok(c) ==> counts(c) == tally(fetched_sets(fetched@)),
            tallied matches Err(e) ==> e == Error::DeserializationFailure,
    {
        match self {
            RevIndex::Color(_) => tally_postings(fetched),
            RevIndex::Plain(db) => db.counter_for_query(fetched),
        }
    }

    /// The datasets that share `threshold` hashes or more with the query,
    /// each with its count: the larger count first, and of two equal counts
    /// the smaller identifier first.
    pub fn matches_from_counter(self, tallied: SigCounter, threshold: usize) -> (matches: Vec<
        (DatasetID, usize),
    >)
        ensures
            ranks(matches@, at_least(counts(tallied), threshold)),
    {
        crate::counter::matches_from_counter(&tallied, threshold)
    }

    /// The counts that a gather starts from, with the colors of the query,
    /// of which an index without colors has none. Gather is not offered
    /// with colors.
    pub fn prepare_gather_counters(&self, fetched: &Vec<Option<Vec<u8>>>) -> (prepared: Result<
        (SigCounter, QueryColors, HashToColor),
        Error,
    >)
        requires
            !self.colors(),
        ensures
            prepared is Ok <==> all_fetched_decode(fetched@),
            prepared matches Ok(p) ==> counts(p.0) == tally(fetched_sets(fetched@)) && p.1@.len()
                == 0 && p.2@.len() == 0,
            prepared matches Err(e) ==> e == Error::DeserializationFailure,
    {
        match tally_postings(fetched) {
            Ok(tallied) => {
                let query_colors: QueryColors = HashMap::new();
                let hash_to_color: HashToColor = HashMap::new();
                Ok((tallied, query_colors, hash_to_color))
            },
            Err(e) => Err(e),
        }
    }

    /// The requests that build the index from a list of signatures with the
    /// names of their files. The datasets get their positions in the list as
    /// identifiers.
    ///
    /// An index that was opened for reading only refuses; so does a
    /// signature that cannot be used with the template, with its error.
    pub fn index(
        &self,
        index_sigs: &Vec<(String, Signature)>,
        template: &KmerMinHash,
        threshold: u64,
        save_paths: bool,
    ) -> (ops: Result<Vec<StoreOp>, Error>)
        ensures
            self.read_only() ==> ops == Err::<Vec<StoreOp>, Error>(Error::ReadOnly),
            !self.read_only() ==> match self.index_outcome(
                index_sigs@,
                *template,
                threshold,
                save_paths,
            ) {
                Ok(expected) => ops matches Ok(v) && requests(v@) == expected,
                Err(e) => ops == Err::<Vec<StoreOp>, Error>(e),
            },
    {
        match self {
            RevIndex::Color(db) => db.index(index_sigs, template, threshold, save_paths),
            RevIndex::Plain(db) => db.index(index_sigs, template, threshold, save_paths),
        }
    }

    /// What indexing a list of signatures asks of the store.
    pub open spec fn index_outcome(
        &self,
        sigs: Seq<(String, Signature)>,
        template: KmerMinHash,
        threshold: u64,
        save_paths: bool,
    ) -> Result<Seq<Request>, Error> {
        if self.colors() {
            color_revindex::color_index_outcome(sigs, template, threshold, save_paths)
        } else {
            revindex::index_outcome(sigs, template, threshold, save_paths)
        }
    }

    /// The requests of a compaction. With colors, the entries of the hashes
    /// column are first gone through: see `recoloring_all`. Then the whole
    /// key range of each column family is compacted.
    ///
    /// An index that was opened for reading only refuses; with colors, an
    /// entry that holds neither a color nor a set is a `DeserializationFailure`.
    pub fn compact(&self, entries: &Vec<(Vec<u8>, Vec<u8>)>) -> (ops: Result<Vec<StoreOp>, Error>)
        ensures
            self.read_only() ==> ops == Err::<Vec<StoreOp>, Error>(Error::ReadOnly),
            !self.read_only() ==> match self.recoloring(entry_views(entries@)) {
                Some(expected) => ops matches Ok(v) && requests(v@) == expected + compacting(
                    self.families(),
                ),
                None => ops == Err::<Vec<StoreOp>, Error>(Error::DeserializationFailure),
            },
    {
        let mut ops = match self {
            RevIndex::Color(db) => match db.recolor_all(entries) {
                Ok(ops) => ops,
                Err(e) => {
                    return Err(e);
                },
            },
            RevIndex::Plain(db) => {
                if db.read_only {
                    return Err(Error::ReadOnly);
                }
                Vec::new()
            },
        };
        let ghost first = requests(ops@);
        assert(first == self.recoloring(entry_views(entries@))->0);
        let families = self.column_families();
        let mut i: usize = 0;
        assert(first + compacting(families@.take(0)) == first);
        while i < families.len()
            invariant
                i <= families.len(),
                requests(ops@) == first + compacting(families@.take(i as int)),
            decreases families.len() - i,
        {
            let op = StoreOp::CompactRange { family: families[i] };
            proof {
                assert(requests(ops@.push(op)) == requests(ops@).push(op@));
                assert(compacting(families@.take(i + 1)) == compacting(
                    families@.take(i as int),
                ).push(op@));
            }
            ops.push(op);
            i += 1;
        }
        assert(families@.take(i as int) == families@);
        Ok(ops)
    }

    /// What the compaction pass asks for the entries of the hashes column:
    /// nothing without colors.
    pub open spec fn recoloring(&self, entries: Seq<(Seq<u8>, Seq<u8>)>) -> Option<Seq<Request>> {
        if self.colors() {
            recoloring_all(entries)
        } else {
            Some(Seq::empty())
        }
    }

    /// The requests that force the pending writes to disk: the log first,
    /// then each column family of the index.
    ///
    /// An index that was opened for reading only refuses.
    pub fn flush(&self) -> (ops: Result<Vec<StoreOp>, Error>)
        ensures
            self.read_only() ==> ops == Err::<Vec<StoreOp>, Error>(Error::ReadOnly),
            !self.read_only() ==> (ops matches Ok(v) && requests(v@) == flushing(self.families())),
    {
        let refused = match self {
            RevIndex::Color(db) => db.read_only,
            RevIndex::Plain(db) => db.read_only,
        };
        if refused {
            return Err(Error::ReadOnly);
        }
        let families = self.column_families();
        let mut ops: Vec<StoreOp> = Vec::new();
        ops.push(StoreOp::FlushLog);
        let mut i: usize = 0;
        assert(requests(ops@) == flushing(families@.take(0)));
        while i < families.len()
            invariant
                i <= families.len(),
                requests(ops@) == flushing(families@.take(i as int)),
            decreases families.len() - i,
        {
            let op = StoreOp::Flush { family: families[i] };
            proof {
                assert(requests(ops@.push(op)) == requests(ops@).push(op@));
                assert(flushing(families@.take(i + 1)) == flushing(families@.take(i as int)).push(
                    op@,
                ));
            }
            ops.push(op);
            i += 1;
        }
        assert(families@.take(i as int) == families@);
        Ok(ops)
    }

    /// The column families that a check looks over, in order. The values
    /// that hold sets of datasets are looked into: those of the hashes column
    /// without colors, those of the colors column with colors.
    pub fn check(&self, quick: bool) -> (scans: Vec<Scan>)
        ensures
            scans@.len() == self.families().len(),
            forall|i: int|
                0 <= i < scans@.len() ==> (#[trigger] scans@[i]).family == self.families()[i]
                    && scans@[i].deep_check == (!quick && self.families()[i] == if self.colors() {
                    Family::Colors
                } else {
                    Family::Hashes
                }),
    {
        let families = self.column_families();
        let looked_into = match self {
            RevIndex::Color(_) => Family::Colors,
            RevIndex::Plain(_) => Family::Hashes,
        };
        let mut scans: Vec<Scan> = Vec::new();
        let mut i: usize = 0;
        while i < families.len()
            invariant
                i <= families.len(),
                families@ == self.families(),
                looked_into == if self.colors() {
                    Family::Colors
                } else {
                    Family::Hashes
                },
                scans@.len() == i,
                forall|k: int|
                    0 <= k < i ==> (#[trigger] scans@[k]).family == families@[k]
                        && scans@[k].deep_check == (!quick && families@[k] == looked_into),
            decreases families.len() - i,
        {
            let family = families[i];
            scans.push(Scan { family, deep_check: !quick && family == looked_into });
            i += 1;
        }
        scans
    }

    /// The whole gather of a query: see `gather::gather`. Gather is not
    /// offered with colors.
    pub fn gather(
        &self,
        query: &KmerMinHash,
        fetched: &Vec<Option<Vec<u8>>>,
        signatures: &Vec<(DatasetID, Signature)>,
        threshold: usize,
        template: &KmerMinHash,
    ) -> (matches: Result<Vec<GatherResult>, Error>)
        requires
            !self.colors(),
        ensures
            match gathered(*query, fetched@, signatures@, threshold, *template) {
                Ok(expected) => matches matches Ok(v) && result_views(v@) == expected,
                Err(error) => matches matches Err(e) && e == error,
            },
    {
        crate::gather::gather(query, fetched, signatures, threshold, template)
    }
}

} // verus!
