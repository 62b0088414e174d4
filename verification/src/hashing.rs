//! Fingerprint generation: configuration, per-image hashing, and the
//! parallel batch hasher.

use crate::fingerprint::Fingerprint;
use rayon::iter::IntoParallelRefIterator;
use rayon::iter::ParallelIterator;
use vstd::prelude::*;

verus! {

/// The fingerprint widths (bits per side of the square hash) that the
/// generator supports.
pub open spec fn valid_hash_size(size: u32) -> bool {
    size == 4 || size == 8 || size == 16 || size == 32 || size == 64 || size == 128 || size == 256
        || size == 512
}

/// Why a hash configuration was rejected.
#[derive(Debug, Clone, Copy, PartialEq, Eq)]
pub enum HashSizeError {
    /// The requested hash size is not one of the supported sizes.
    Unsupported,
}

/// A validated fingerprint configuration: every value of this type carries a
/// supported hash size.
#[derive(Debug, Clone, Copy, PartialEq, Eq)]
pub struct HashConfig {
    size: u32,
}

impl HashConfig {
    /// The configured width of the square fingerprint, in bits per side.
    pub closed spec fn size_spec(&self) -> u32 {
        self.size
    }

    /// A well-formed configuration holds a supported hash size.
    pub open spec fn wf(&self) -> bool {
        valid_hash_size(self.size_spec())
    }

    /// The configured width of the square fingerprint, in bits per side.
    pub fn hash_size(&self) -> (s: u32)
        ensures
            s == self.size_spec(),
    {
        self.size
    }
}

/// Validate a hash size and build the fingerprint configuration from it:
/// succeeds exactly on the supported sizes.
pub fn make_hasher(size: u32) -> (r: Result<HashConfig, HashSizeError>)
    ensures
        r is Ok <==> valid_hash_size(size),
        r matches Ok(c) ==> c.size_spec() == size && c.wf(),
{
    if size == 4 || size == 8 || size == 16 || size == 32 || size == 64 || size == 128 || size
        == 256 || size == 512 {
        Ok(HashConfig { size })
    } else {
        Err(HashSizeError::Unsupported)
    }
}

/// One image to fingerprint, as the hasher receives it. Reading the source
/// happens outside the library; a source whose bytes could not be read at
/// all is handed in as `Unavailable` so that its slot in the batch is kept.
#[derive(Debug, Clone)]
pub enum ImageSource {
    /// The raw bytes of one image file.
    Bytes(Vec<u8>),
    /// A source that could not be read.
    Unavailable,
}

/// The abstract value of a `HashOutcome`: either the fingerprint's bit
/// pattern, or the reason the image could not be fingerprinted.
pub enum OutcomeView {
    Hash(Seq<u8>),
    DecodeFailure,
    SourceUnavailable,
}

impl OutcomeView {
    /// The fingerprint's bit pattern; meaningful only for `Hash` outcomes.
    pub open spec fn bits(self) -> Seq<u8> {
        match self {
            OutcomeView::Hash(b) => b,
            _ => Seq::empty(),
        }
    }
}

/// The result of fingerprinting one image source: a fingerprint, or a
/// per-image failure that never aborts the surrounding batch.
#[derive(Debug, Clone, PartialEq, Eq)]
pub enum HashOutcome {
    /// The image was decoded and fingerprinted.
    Hash(Fingerprint),
    /// The bytes could not be interpreted as an image.
    DecodeFailure,
    /// The source could not be read.
    SourceUnavailable,
}

impl View for HashOutcome {
    type V = OutcomeView;

    open spec fn view(&self) -> OutcomeView {
        match self {
            HashOutcome::Hash(f) => OutcomeView::Hash(f@),
            HashOutcome::DecodeFailure => OutcomeView::DecodeFailure,
            HashOutcome::SourceUnavailable => OutcomeView::SourceUnavailable,
        }
    }
}

/// The mean hash of the DCT-preprocessed decoding of `bytes` at the given
/// hash size: `None` when the bytes do not decode as an image, otherwise the
/// packed bits of the fingerprint. The value is determined by `bytes` and
/// `size` alone.
pub uninterp spec fn mean_hash_of(bytes: Seq<u8>, size: u32) -> Option<Seq<u8>>;

/// What fingerprinting returns for given image bytes and hash size, stated
/// over the named hash `mean_hash_of`.
pub open spec fn spec_fingerprint(bytes: Seq<u8>, size: u32) -> OutcomeView {
    match mean_hash_of(bytes, size) {
        Some(h) => OutcomeView::Hash(h),
        None => OutcomeView::DecodeFailure,
    }
}

/// Relies on `image::load_from_memory` and on `image_hasher`'s mean hash of
/// the DCT-preprocessed image (`HasherConfig::hash_size(size, size)`,
/// `hash_alg(HashAlg::Mean)`, `preproc_dct()`): decoding fails or succeeds
/// on the bytes alone, the hash is a deterministic function of the decoded
/// image and `size`, and its `size * size` bits are packed into
/// `(size * size + 7) / 8` bytes.
#[verifier::external_body]
fn compute_mean_hash(img_bytes: &Vec<u8>, size: u32) -> (r: Option<Vec<u8>>)
    requires
        valid_hash_size(size),
    ensures
        r is Some <==> mean_hash_of(img_bytes@, size) is Some,
        r matches Some(h) ==> mean_hash_of(img_bytes@, size) == Some(h@) && h@.len() == (size
            * size + 7) / 8,
{
    let img = match image::load_from_memory(img_bytes) {
        Ok(img) => img,
        Err(_) => return None,
    };
    let hasher = image_hasher::HasherConfig::new()
        .hash_size(size, size)
        .hash_alg(image_hasher::HashAlg::Mean)
        .preproc_dct()
        .to_hasher();
    Some(hasher.hash_image(&img).as_bytes().to_vec())
}

/// Compute the perceptual fingerprint of one image given as its raw bytes:
/// decode the bytes and reduce the image to a `hash_size * hash_size` bit
/// pattern. Bytes that do not decode yield `DecodeFailure`.
pub fn hash_img(img_bytes: &Vec<u8>, config: &HashConfig) -> (r: HashOutcome)
    requires
        config.wf(),
    ensures
        r@ == spec_fingerprint(img_bytes@, config.size_spec()),
        r@ is Hash ==> r@.bits().len() == (config.size_spec() * config.size_spec() + 7) / 8,
{
    match compute_mean_hash(img_bytes, config.hash_size()) {
        Some(h) => HashOutcome::Hash(Fingerprint::from_bytes(h)),
        None => HashOutcome::DecodeFailure,
    }
}

/// What the batch hasher records for one source: unreadable sources are
/// `SourceUnavailable`, readable bytes get `spec_fingerprint`.
pub open spec fn spec_source_outcome(src: ImageSource, size: u32) -> OutcomeView {
    match src {
        ImageSource::Bytes(b) => spec_fingerprint(b@, size),
        ImageSource::Unavailable => OutcomeView::SourceUnavailable,
    }
}

/// Fingerprint one image source: an unreadable source is recorded as
/// `SourceUnavailable`, readable bytes are fingerprinted.
pub fn hash_source(src: &ImageSource, config: &HashConfig) -> (r: HashOutcome)
    requires
        config.wf(),
    ensures
        r@ == spec_source_outcome(*src, config.size_spec()),
        r@ is Hash ==> r@.bits().len() == (config.size_spec() * config.size_spec() + 7) / 8,
{
    match src {
        ImageSource::Bytes(b) => hash_img(b, config),
        ImageSource::Unavailable => HashOutcome::SourceUnavailable,
    }
}

/// Relies on rayon's `par_iter().map(..).collect::<Vec<_>>()`: collecting an
/// indexed parallel iterator yields one result per input element, in input
/// order, however the work was scheduled across workers. Each element is
/// mapped by the verified `hash_source`.
#[verifier::external_body]
fn par_hash_sources(img_list: &Vec<ImageSource>, config: &HashConfig) -> (r: Vec<HashOutcome>)
    requires
        config.wf(),
    ensures
        r@.len() == img_list@.len(),
        forall|k: int|
            0 <= k < img_list@.len() ==> #[trigger] r@[k]@ == spec_source_outcome(
                img_list@[k],
                config.size_spec(),
            ),
        forall|k: int|
            0 <= k < img_list@.len() && (#[trigger] r@[k]@) is Hash ==> r@[k]@.bits().len() == (
            config.size_spec() * config.size_spec() + 7) / 8,
{
    img_list.par_iter().map(|src| hash_source(src, config)).collect()
}

/// Fingerprint an ordered list of image sources, in parallel. The output is
/// index-aligned with the input: element `k` is exactly the fingerprint
/// outcome of source `k`, whatever the scheduling, and a per-element failure
/// never aborts the batch. An empty input yields an empty output.
pub fn hash_img_list(img_list: &Vec<ImageSource>, config: &HashConfig) -> (r: Vec<HashOutcome>)
    requires
        config.wf(),
    ensures
        r@.len() == img_list@.len(),
        forall|k: int|
            0 <= k < img_list@.len() ==> #[trigger] r@[k]@ == spec_source_outcome(
                img_list@[k],
                config.size_spec(),
            ),
        forall|k: int|
            0 <= k < img_list@.len() && (#[trigger] r@[k]@) is Hash ==> r@[k]@.bits().len() == (
            config.size_spec() * config.size_spec() + 7) / 8,
{
    par_hash_sources(img_list, config)
}

/// Determinism: two fingerprint computations over the same image bytes and
/// the same hash size yield bit-identical outcomes, because `hash_img`
/// always returns `spec_fingerprint` of its inputs.
pub proof fn lemma_fingerprint_deterministic(
    r1: HashOutcome,
    r2: HashOutcome,
    bytes: Seq<u8>,
    size: u32,
)
    requires
        r1@ == spec_fingerprint(bytes, size),
        r2@ == spec_fingerprint(bytes, size),
    ensures
        r1@ == r2@,
{
}

/// Parallel/sequential equivalence: a batch result and the sequence of
/// per-element results agree index by index, since `hash_img_list` and
/// `hash_source` are both pinned to `spec_source_outcome`; how the batch was
/// scheduled cannot change the output sequence.
pub proof fn lemma_parallel_sequential_equiv(
    par: Seq<HashOutcome>,
    sequential: Seq<HashOutcome>,
    srcs: Seq<ImageSource>,
    size: u32,
)
    requires
        par.len() == srcs.len(),
        sequential.len() == srcs.len(),
        forall|k: int|
            0 <= k < srcs.len() ==> #[trigger] par[k]@ == spec_source_outcome(srcs[k], size),
        forall|k: int|
            0 <= k < srcs.len() ==> #[trigger] sequential[k]@ == spec_source_outcome(
                srcs[k],
                size,
            ),
    ensures
        par.map_values(|o: HashOutcome| o@) =~= sequential.map_values(|o: HashOutcome| o@),
{
    let pv = par.map_values(|o: HashOutcome| o@);
    let sv = sequential.map_values(|o: HashOutcome| o@);
    assert forall|k: int| 0 <= k < pv.len() implies pv[k] == sv[k] by {
        assert(par[k]@ == spec_source_outcome(srcs[k], size));
        assert(sequential[k]@ == spec_source_outcome(srcs[k], size));
    }
}

} // verus!

