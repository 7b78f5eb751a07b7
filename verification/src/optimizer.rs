//! The optimizer service: a cache root plus a shared concurrency limiter, the
//! path resolution it serves, and the cache-hit decision of `create_image`.
//! The awaiting side (existence check, permit, background transform) lives
//! with the embedding application; the decisions it takes are here.

use vstd::prelude::*;
use vstd::string::StringSliceAdditionalSpecFns;
use vstd::utf8::{encode_utf8, encode_utf8_valid_utf8};
use std::sync::Arc;
use crate::descriptor::CachedImage;
use crate::paths::{
    bytes_to_string, full_path_of, join1, join_push, join_segs, lemma_join1_valid,
    lemma_join_snoc, lemma_trim_lead_valid, lemma_trim_trail_valid, rel_path_of, trim_lead,
    trim_seg,
};

verus! {

/// Declares tokio's counting semaphore so that the service can hold its
/// shared limiter; the value stays opaque here, only the embedding runtime
/// acquires permits on it.
#[verifier::external_type_specification]
#[verifier::external_body]
pub struct ExSemaphore(tokio::sync::Semaphore);

/// Relies on tokio::sync::Semaphore::new: builds a counting limiter with
/// `permits` slots. Tokio asserts that the permit count stays within its
/// internal representation (`usize::MAX >> 3`), so larger counts are ruled
/// out here rather than admitted into a panic.
#[verifier::external_body]
fn new_semaphore(permits: usize) -> tokio::sync::Semaphore
    requires
        permits <= usize::MAX >> 3,
{
    tokio::sync::Semaphore::new(permits)
}

/// Why a derivative could not be produced: the source raster or its encoding
/// failed, the background worker failed, or the filesystem did.
#[derive(Clone, Debug)]
pub enum CreateImageError {
    ImageError(String),
    JoinError(String),
    IOError(String),
}

/// The service: a root directory for sources and cache output, and a shared,
/// reference-counted limiter bounding simultaneous transform executions.
#[derive(Clone, Debug)]
pub struct ImageOptimizer {
    root_file_path: String,
    semaphore: Arc<tokio::sync::Semaphore>,
}

impl ImageOptimizer {
    pub closed spec fn root_view(&self) -> Seq<char> {
        self.root_file_path@
    }

    pub fn new(root_file_path: String, parallelism: usize) -> (r: Self)
        requires
            parallelism <= usize::MAX >> 3,
        ensures
            r.root_view() == root_file_path@,
    {
        let semaphore = new_semaphore(parallelism);
        let semaphore = Arc::new(semaphore);
        ImageOptimizer { root_file_path, semaphore }
    }

    pub fn root(&self) -> (r: &String)
        ensures
            r@ == self.root_view(),
    {
        &self.root_file_path
    }

    /// The shared concurrency limiter, for the embedding runtime to acquire
    /// permits on.
    pub fn limiter(&self) -> &Arc<tokio::sync::Semaphore> {
        &self.semaphore
    }

    /// The cache-relative output path of a descriptor's derivative.
    pub fn get_file_path(&self, cache_image: &CachedImage) -> (r: String)
        ensures
            encode_utf8(r@) == rel_path_of(cache_image.src@, cache_image.option),
    {
        cache_image.get_file_path()
    }

    /// The output path under this service's root.
    pub fn get_file_path_from_root(&self, cache_image: &CachedImage) -> (r: String)
        ensures
            encode_utf8(r@) == full_path_of(
                self.root_view(),
                cache_image.src@,
                cache_image.option,
            ),
    {
        let rel = self.get_file_path(cache_image);
        self.join_under_root(rel.as_str())
    }

    /// The absolute path of the source image under this service's root.
    pub fn absolute_source_path(&self, cache_image: &CachedImage) -> (r: String)
        ensures
            encode_utf8(r@) == join_segs(
                seq![
                    encode_utf8(self.root_view()),
                    encode_utf8(cache_image.src@),
                ],
            ),
    {
        self.join_under_root(cache_image.src.as_str())
    }

    fn join_under_root(&self, tail: &str) -> (r: String)
        ensures
            encode_utf8(r@) == join_segs(
                seq![encode_utf8(self.root_view()), tail.spec_bytes()],
            ),
    {
        let rb = self.root_file_path.as_str().as_bytes();
        let tb = tail.as_bytes();
        let mut joined: Vec<u8> = Vec::new();
        proof {
            encode_utf8_valid_utf8(self.root_file_path@);
            encode_utf8_valid_utf8(tail@);
            lemma_join_snoc(Seq::<Seq<u8>>::empty(), rb@);
            lemma_join_snoc(Seq::<Seq<u8>>::empty().push(rb@), tb@);
            assert(seq![encode_utf8(self.root_view()), tail.spec_bytes()]
                =~= Seq::<Seq<u8>>::empty().push(rb@).push(tb@));
            lemma_trim_lead_valid(rb@);
            lemma_trim_trail_valid(trim_lead(rb@));
            lemma_trim_lead_valid(tb@);
            lemma_trim_trail_valid(trim_lead(tb@));
            lemma_join1_valid(Seq::<u8>::empty(), trim_seg(rb@));
            lemma_join1_valid(join1(Seq::<u8>::empty(), trim_seg(rb@)), trim_seg(tb@));
        }
        join_push(&mut joined, rb);
        join_push(&mut joined, tb);
        bytes_to_string(joined)
    }

    /// The cache-hit decision of `create_image`: a derivative that already
    /// exists is reported as such and nothing runs; otherwise the background
    /// transform's verdict decides between `Ok(true)` and its error.
    pub fn create_image_outcome(existed: bool, task: Result<(), CreateImageError>) -> (r: Result<
        bool,
        CreateImageError,
    >)
        ensures
            existed ==> r == Ok::<bool, CreateImageError>(false),
            !existed ==> (match task {
                Ok(_) => r == Ok::<bool, CreateImageError>(true),
                Err(e) => r == Err::<bool, CreateImageError>(e),
            }),
    {
        if existed {
            Ok(false)
        } else {
            match task {
                Ok(_) => Ok(true),
                Err(e) => Err(e),
            }
        }
    }
}

} // verus!
