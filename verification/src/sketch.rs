//! MinHash sketches as the index sees them: their parameters and their hashes.

use vstd::prelude::*;
use crate::error::Error;
use crate::ordered::strictly_ascending;

verus! {

/// The hash function that a sketch was made with.
#[derive(Debug, Clone, Copy, PartialEq, Eq, Structural)]
pub enum HashFunctions {
    Murmur64Dna,
    Murmur64Protein,
    Murmur64Dayhoff,
    Murmur64Hp,
}

/// The seed that sketches are made with unless another is asked for.
pub const DEFAULT_SEED: u64 = 42;

/// A scaled MinHash sketch: the hashes of a dataset's k-mers that do not exceed `max_hash`.
#[derive(Debug, Clone, PartialEq)]
pub struct KmerMinHash {
    pub ksize: u32,
    pub hash_function: HashFunctions,
    pub seed: u64,
    /// The largest hash that the sketch keeps; zero stands for no limit.
    pub max_hash: u64,
    /// The hashes, in ascending order, each once.
    pub mins: Vec<u64>,
}

/// A named signature and the sketches that it holds.
#[derive(Debug, Clone, PartialEq)]
pub struct Signature {
    pub name: String,
    pub filename: String,
    pub md5sum: String,
    pub sketches: Vec<KmerMinHash>,
}

/// A sketch as a value: its parameters and its hashes in order.
pub struct SketchView {
    pub ksize: u32,
    pub hash_function: HashFunctions,
    pub seed: u64,
    pub max_hash: u64,
    pub mins: Seq<u64>,
}

/// A signature as a value.
pub struct SignatureView {
    pub name: Seq<char>,
    pub filename: Seq<char>,
    pub md5sum: Seq<char>,
    pub sketches: Seq<SketchView>,
}

impl View for KmerMinHash {
    type V = SketchView;

    open spec fn view(&self) -> SketchView {
        SketchView {
            ksize: self.ksize,
            hash_function: self.hash_function,
            seed: self.seed,
            max_hash: self.max_hash,
            mins: self.mins@,
        }
    }
}

/// The sketches of a list as values.
pub open spec fn sketch_views(sketches: Seq<KmerMinHash>) -> Seq<SketchView> {
    Seq::new(sketches.len(), |i: int| sketches[i]@)
}

impl View for Signature {
    type V = SignatureView;

    open spec fn view(&self) -> SignatureView {
        SignatureView {
            name: self.name@,
            filename: self.filename@,
            md5sum: self.md5sum@,
            sketches: sketch_views(self.sketches@),
        }
    }
}

/// What `sourmash::sketch::minhash::max_hash_for_scaled` returns for `scaled`.
pub uninterp spec fn scaled_max_hash(scaled: u64) -> u64;

/// What `sourmash::sketch::minhash::scaled_for_max_hash` returns for `max_hash`.
pub uninterp spec fn max_hash_scaled(max_hash: u64) -> u64;

/// `sourmash::sketch::minhash::max_hash_for_scaled`.
///
/// Claimed of it: the result depends on `scaled` alone; it is zero for zero
/// and the largest hash for one. For a larger `scaled` it is the largest hash
/// divided by `scaled` in floating point, which is not stated here.
#[verifier::external_body]
fn sourmash_max_hash_for_scaled(scaled: u64) -> (max_hash: u64)
    ensures
        max_hash == scaled_max_hash(scaled),
        scaled == 0 ==> max_hash == 0,
        scaled == 1 ==> max_hash == u64::MAX,
{
    sourmash::sketch::minhash::max_hash_for_scaled(scaled)
}

/// `sourmash::sketch::minhash::scaled_for_max_hash`.
///
/// Claimed of it: the result depends on `max_hash` alone, and is zero for
/// zero. Otherwise it is the largest hash divided by `max_hash` in floating
/// point, which is not stated here.
#[verifier::external_body]
fn sourmash_scaled_for_max_hash(max_hash: u64) -> (scaled: u64)
    ensures
        scaled == max_hash_scaled(max_hash),
        max_hash == 0 ==> scaled == 0,
{
    sourmash::sketch::minhash::scaled_for_max_hash(max_hash)
}

/// Whether a sketch with the limit `max_hash` keeps the hash `hash`.
pub open spec fn keeps(max_hash: u64, hash: u64) -> bool {
    max_hash == 0 || hash <= max_hash
}

/// The outcome of comparing a sketch with parameters `me` against `other`,
/// where `exact` asks for equal limits and otherwise `me` may be the finer.
pub open spec fn mismatch(me: KmerMinHash, other: KmerMinHash, exact: bool) -> Option<Error> {
    if me.ksize != other.ksize {
        Some(Error::MismatchKSizes)
    } else if me.hash_function != other.hash_function {
        Some(Error::MismatchDNAProt)
    } else if (exact && me.max_hash != other.max_hash) || (!exact && me.max_hash < other.max_hash) {
        Some(Error::MismatchScaled)
    } else if me.seed != other.seed {
        Some(Error::MismatchSeed)
    } else {
        None
    }
}

/// The largest hash that a sketch of one hash in `scaled` keeps.
pub fn max_hash_for_scaled(scaled: u64) -> (max_hash: u64)
    ensures
        max_hash == scaled_max_hash(scaled),
        scaled == 0 ==> max_hash == 0,
        scaled == 1 ==> max_hash == u64::MAX,
{
    sourmash_max_hash_for_scaled(scaled)
}

/// Whether `me` and `other` were made with the same parameters.
///
/// The first difference found decides the error: k-mer size, hash function,
/// limit, seed, in that order.
pub fn check_compatible(me: &KmerMinHash, other: &KmerMinHash) -> (checked: Result<(), Error>)
    ensures
        checked is Ok <==> mismatch(*me, *other, true) is None,
        checked matches Err(e) ==> mismatch(*me, *other, true) == Some(e),
{
    if me.ksize != other.ksize {
        return Err(Error::MismatchKSizes);
    }
    if me.hash_function != other.hash_function {
        return Err(Error::MismatchDNAProt);
    }
    if me.max_hash != other.max_hash {
        return Err(Error::MismatchScaled);
    }
    if me.seed != other.seed {
        return Err(Error::MismatchSeed);
    }
    Ok(())
}

/// Whether `me` can be downsampled to the parameters of `other`: the same
/// k-mer size, hash function and seed, and a limit that is not smaller.
///
/// The first difference found decides the error, in the order of `check_compatible`.
pub fn check_compatible_downsample(me: &KmerMinHash, other: &KmerMinHash) -> (checked: Result<
    (),
    Error,
>)
    ensures
        checked is Ok <==> mismatch(*me, *other, false) is None,
        checked matches Err(e) ==> mismatch(*me, *other, false) == Some(e),
{
    if me.ksize != other.ksize {
        return Err(Error::MismatchKSizes);
    }
    if me.hash_function != other.hash_function {
        return Err(Error::MismatchDNAProt);
    }
    if me.max_hash < other.max_hash {
        return Err(Error::MismatchScaled);
    }
    if me.seed != other.seed {
        return Err(Error::MismatchSeed);
    }
    Ok(())
}

impl KmerMinHash {
    /// The hashes ascend, and none exceeds the limit.
    pub open spec fn wf(&self) -> bool {
        &&& strictly_ascending(self.mins@)
        &&& forall|i: int| 0 <= i < self.mins@.len() ==> keeps(self.max_hash, #[trigger] self.mins@[i])
    }

    /// The set of the hashes.
    pub open spec fn hashes(&self) -> Set<u64> {
        self.mins@.to_set()
    }

    /// The same parameters and the same hashes.
    pub open spec fn same(&self, other: &KmerMinHash) -> bool {
        self@ == other@
    }

    /// What downsampling to `max_hash` leaves: the parameters, the new limit,
    /// and in their order the hashes that the new limit keeps.
    pub open spec fn downsampled(&self, max_hash: u64, out: &KmerMinHash) -> bool {
        &&& out.ksize == self.ksize
        &&& out.hash_function == self.hash_function
        &&& out.seed == self.seed
        &&& out.max_hash == max_hash
        &&& out.mins@ == self.mins@.filter(|h: u64| keeps(max_hash, h))
    }

    /// A copy of the sketch.
    pub fn duplicate(&self) -> (copy: KmerMinHash)
        ensures
            copy.same(self),
    {
        let mut mins: Vec<u64> = Vec::new();
        let mut i: usize = 0;
        while i < self.mins.len()
            invariant
                i <= self.mins.len(),
                mins@ == self.mins@.take(i as int),
            decreases self.mins.len() - i,
        {
            mins.push(self.mins[i]);
            i += 1;
            assert(self.mins@.take(i as int) == self.mins@.take(i - 1).push(self.mins@[i - 1]));
        }
        assert(self.mins@.take(i as int) == self.mins@);
        KmerMinHash {
            ksize: self.ksize,
            hash_function: self.hash_function,
            seed: self.seed,
            max_hash: self.max_hash,
            mins,
        }
    }

    /// The sketch with the limit `max_hash`, holding the hashes that this limit keeps.
    pub fn downsample_max_hash(&self, max_hash: u64) -> (out: KmerMinHash)
        ensures
            self.downsampled(max_hash, &out),
            self.wf() ==> out.wf(),
    {
        let ghost pred = |h: u64| keeps(max_hash, h);
        let mut mins: Vec<u64> = Vec::new();
        let mut i: usize = 0;
        while i < self.mins.len()
            invariant
                i <= self.mins.len(),
                pred == |h: u64| keeps(max_hash, h),
                mins@ == self.mins@.take(i as int).filter(pred),
                forall|k: int| 0 <= k < mins@.len() ==> keeps(max_hash, #[trigger] mins@[k]),
                self.wf() ==> strictly_ascending(mins@),
                self.wf() && i > 0 && mins@.len() > 0 ==> mins@[mins@.len() - 1] <= self.mins@[i - 1],
            decreases self.mins.len() - i,
        {
            let hash = self.mins[i];
            proof {
                assert(self.mins@.take(i + 1).drop_last() == self.mins@.take(i as int));
                assert(self.mins@.take(i + 1).last() == hash);
                reveal_with_fuel(Seq::filter, 2);
            }
            if max_hash == 0 || hash <= max_hash {
                proof {
                    if self.wf() {
                        assert forall|a: int, b: int|
                            0 <= a < b < mins@.push(hash).len() implies mins@.push(hash)[a]
                            < mins@.push(hash)[b] by {
                            if b == mins@.len() {
                                if a < mins@.len() - 1 {
                                    assert(mins@[a] < mins@[mins@.len() - 1]);
                                }
                                assert(self.mins@[i - 1] < self.mins@[i as int]);
                            }
                        }
                    }
                }
                mins.push(hash);
            } else {
                proof {
                    if self.wf() && i > 0 {
                        assert(self.mins@[i - 1] < self.mins@[i as int]);
                    }
                }
            }
            i += 1;
        }
        assert(self.mins@.take(i as int) == self.mins@);
        KmerMinHash {
            ksize: self.ksize,
            hash_function: self.hash_function,
            seed: self.seed,
            max_hash,
            mins,
        }
    }

    /// The number of hashes.
    pub fn size(&self) -> (n: usize)
        ensures
            n == self.mins@.len(),
    {
        self.mins.len()
    }

    /// Whether the sketch holds no hash.
    pub fn is_empty(&self) -> (none: bool)
        ensures
            none == (self.mins@.len() == 0),
    {
        self.mins.len() == 0
    }

    /// How many hashes of the hash space stand for one kept hash.
    pub fn scaled(&self) -> (scaled: u64)
        ensures
            scaled == max_hash_scaled(self.max_hash),
            self.max_hash == 0 ==> scaled == 0,
    {
        sourmash_scaled_for_max_hash(self.max_hash)
    }
}

/// The template that sketches are selected by: DNA k-mers of length
/// `ksize`, the default seed, one hash in `scaled` kept, and no hash held.
pub fn build_template(ksize: u8, scaled: usize) -> (template: KmerMinHash)
    ensures
        template.ksize == ksize,
        template.hash_function == HashFunctions::Murmur64Dna,
        template.seed == DEFAULT_SEED,
        template.max_hash == scaled_max_hash(scaled as u64),
        template.mins@.len() == 0,
        template.wf(),
{
    KmerMinHash {
        ksize: ksize as u32,
        hash_function: HashFunctions::Murmur64Dna,
        seed: DEFAULT_SEED,
        max_hash: max_hash_for_scaled(scaled as u64),
        mins: Vec::new(),
    }
}

/// Which sketch of a signature answers for a template.
pub enum Choice {
    /// The sketch at this position has the template's parameters.
    Exact(int),
    /// The sketch at this position can be downsampled to the template.
    Downsampled(int),
    /// No sketch can be used.
    Failed(Error),
}

/// The first position at or after `from` of a sketch with the template's parameters.
pub open spec fn first_exact(sketches: Seq<KmerMinHash>, template: KmerMinHash, from: int) -> Option<
    int,
>
    decreases sketches.len() - from,
{
    if from < 0 || from >= sketches.len() {
        None
    } else if mismatch(sketches[from], template, true) is None {
        Some(from)
    } else {
        first_exact(sketches, template, from + 1)
    }
}

/// The last position before `upto` of a sketch that can be downsampled to the template.
pub open spec fn last_compatible(
    sketches: Seq<KmerMinHash>,
    template: KmerMinHash,
    upto: int,
) -> Option<int>
    decreases upto,
{
    if upto <= 0 || upto > sketches.len() {
        None
    } else if mismatch(sketches[upto - 1], template, false) is None {
        Some(upto - 1)
    } else {
        last_compatible(sketches, template, upto - 1)
    }
}

/// The sketch that answers for the template: the first with the template's
/// parameters; failing that, the last that can be downsampled to it. Where
/// there is none, the error is what keeps the last sketch from being
/// downsampled, or `NoCompatibleSketch` for a signature without sketches.
pub open spec fn choice(sketches: Seq<KmerMinHash>, template: KmerMinHash) -> Choice {
    match first_exact(sketches, template, 0) {
        Some(i) => Choice::Exact(i),
        None => match last_compatible(sketches, template, sketches.len() as int) {
            Some(i) => Choice::Downsampled(i),
            None => if sketches.len() == 0 {
                Choice::Failed(Error::NoCompatibleSketch)
            } else {
                Choice::Failed(mismatch(sketches.last(), template, false)->0)
            },
        },
    }
}

/// The sketch that a signature is indexed and searched by, for a template.
pub open spec fn prepared_view(sketches: Seq<KmerMinHash>, template: KmerMinHash) -> Option<
    SketchView,
> {
    match choice(sketches, template) {
        Choice::Exact(i) => Some(sketches[i]@),
        Choice::Downsampled(i) => Some(
            SketchView {
                ksize: sketches[i].ksize,
                hash_function: sketches[i].hash_function,
                seed: sketches[i].seed,
                max_hash: template.max_hash,
                mins: sketches[i].mins@.filter(|h: u64| keeps(template.max_hash, h)),
            },
        ),
        Choice::Failed(_) => None,
    }
}

/// The error that keeps a signature from being used with a template.
pub open spec fn prepared_error(sketches: Seq<KmerMinHash>, template: KmerMinHash) -> Option<Error> {
    match choice(sketches, template) {
        Choice::Failed(e) => Some(e),
        _ => None,
    }
}

/// The hashes that a signature is indexed and searched by, for a template.
pub open spec fn prepared_mins(sketches: Seq<KmerMinHash>, template: KmerMinHash) -> Option<
    Seq<u64>,
> {
    match prepared_view(sketches, template) {
        Some(sketch) => Some(sketch.mins),
        None => None,
    }
}

/// Every sketch of the list is well formed.
pub open spec fn all_wf(sketches: Seq<KmerMinHash>) -> bool {
    forall|i: int| 0 <= i < sketches.len() ==> (#[trigger] sketches[i]).wf()
}

/// Selects from a signature the sketch to use against `template`, downsampled
/// to the template's limit where its own is larger.
pub fn prepare_query(search_sig: &Signature, template: &KmerMinHash) -> (prepared: Result<
    KmerMinHash,
    Error,
>)
    ensures
        match choice(search_sig.sketches@, *template) {
            Choice::Exact(i) => prepared matches Ok(mh) && mh.same(&search_sig.sketches@[i]),
            Choice::Downsampled(i) => prepared matches Ok(mh) && search_sig.sketches@[i].downsampled(
                template.max_hash,
                &mh,
            ),
            Choice::Failed(e) => prepared == Err::<KmerMinHash, Error>(e),
        },
        prepared matches Ok(mh) ==> Some(mh@) == prepared_view(search_sig.sketches@, *template),
        prepared matches Err(e) ==> Some(e) == prepared_error(search_sig.sketches@, *template),
        all_wf(search_sig.sketches@) ==> (prepared matches Ok(mh) ==> mh.wf()),
{
    let sketches = &search_sig.sketches;
    let n = sketches.len();
    let mut i: usize = 0;
    while i < n
        invariant
            i <= n,
            n == sketches@.len(),
            sketches@ == search_sig.sketches@,
            first_exact(sketches@, *template, 0) == first_exact(sketches@, *template, i as int),
        decreases n - i,
    {
        if check_compatible(&sketches[i], template).is_ok() {
            return Ok(sketches[i].duplicate());
        }
        i += 1;
    }
    let mut j: usize = n;
    while j > 0
        invariant
            j <= n,
            n == sketches@.len(),
            sketches@ == search_sig.sketches@,
            first_exact(sketches@, *template, 0) is None,
            last_compatible(sketches@, *template, n as int) == last_compatible(
                sketches@,
                *template,
                j as int,
            ),
        decreases j,
    {
        if check_compatible_downsample(&sketches[j - 1], template).is_ok() {
            return Ok(sketches[j - 1].downsample_max_hash(template.max_hash));
        }
        j -= 1;
    }
    if n == 0 {
        Err(Error::NoCompatibleSketch)
    } else {
        match check_compatible_downsample(&sketches[n - 1], template) {
            Err(e) => Err(e),
            Ok(()) => Err(Error::NoCompatibleSketch),
        }
    }
}

} // verus!
