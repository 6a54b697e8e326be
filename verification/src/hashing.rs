//! The strong content hash and the prefix fingerprint.

use crate::file_meta::FileMeta;
use sha2::Digest;
use vstd::prelude::*;
use vstd::slice::slice_subrange;

verus! {

/// Number of leading bytes that the prefix fingerprint covers.
pub const PREFIX_LEN: usize = 4096;

/// Files of at least this many bytes are hashed from a memory map.
pub const MMAP_THRESHOLD: u64 = 33554432;

/// Size of the buffer through which smaller files are read.
pub const READ_BUF_SIZE: usize = 1048576;

/// What `sha2::Sha256` computes of a byte string: its SHA-256 digest.
pub uninterp spec fn sha256(data: Seq<u8>) -> Seq<u8>;

/// What `sha1::Sha1` computes of a byte string: its SHA-1 digest.
pub uninterp spec fn sha1(data: Seq<u8>) -> Seq<u8>;

/// Calls `sha1::Sha1::digest`: the SHA-1 digest of the bytes.
#[verifier::external_body]
pub(crate) fn sha1_digest(data: &[u8]) -> (r: [u8; 20])
    ensures
        r@ == sha1(data@),
{
    sha1::Sha1::digest(data).into()
}

/// A SHA-256 computation that takes its input piece by piece: a
/// `sha2::Sha256` value, of which nothing is known here but what the
/// functions below say.
#[verifier::external_body]
pub struct Sha256Stream {
    inner: sha2::Sha256,
}

/// The bytes that a SHA-256 computation has taken in so far, in order.
pub uninterp spec fn absorbed(h: Sha256Stream) -> Seq<u8>;

/// Calls `sha2::Sha256::new`: a computation that has taken in nothing.
#[verifier::external_body]
pub(crate) fn stream_new() -> (r: Sha256Stream)
    ensures
        absorbed(r) == Seq::<u8>::empty(),
{
    Sha256Stream { inner: sha2::Sha256::new() }
}

/// Calls `update` of `sha2::Sha256`: the computation takes in the bytes
/// after those it has.
#[verifier::external_body]
pub(crate) fn stream_update(h: &mut Sha256Stream, chunk: &[u8])
    ensures
        absorbed(*final(h)) == absorbed(*old(h)) + chunk@,
{
    h.inner.update(chunk);
}

/// Calls `finalize` of `sha2::Sha256`: the digest of all that was taken in.
#[verifier::external_body]
pub(crate) fn stream_finish(h: Sha256Stream) -> (r: [u8; 32])
    ensures
        r@ == sha256(absorbed(h)),
{
    h.inner.finalize().into()
}

/// The bytes that the prefix fingerprint covers: the first 4096, or all where there are fewer.
pub open spec fn head_of(data: Seq<u8>) -> Seq<u8> {
    if data.len() > PREFIX_LEN {
        data.take(PREFIX_LEN as int)
    } else {
        data
    }
}

/// Whether `m` is the observation of a file with this content, stated
/// modification time and stated size: the strong hash is that of the whole
/// content, and a prefix fingerprint is there exactly for a stated size
/// above 4096 bytes.
pub open spec fn describes(m: FileMeta, data: Seq<u8>, mtime_secs: u64, size: u64) -> bool {
    &&& m.size == size
    &&& m.mtime_secs == mtime_secs
    &&& m.hash256@ == sha256(data)
    &&& match m.prefix_fp {
        Some(p) => size > PREFIX_LEN && p@ == sha1(head_of(data)),
        None => size <= PREFIX_LEN,
    }
}

/// How hard the kernel is asked to keep a file that is hashed out of its cache.
#[derive(Debug, Copy, Clone, Eq, PartialEq)]
pub enum CacheAdvice {
    /// Only say that the file is read from start to end.
    SequentialOnly,
    /// Say also that its pages will not be used again.
    SequentialNoReuse,
    /// And drop its pages once the file is hashed.
    SequentialNoReuseAndDrop,
}

impl CacheAdvice {
    /// Whether the kernel is told that pages will not be used again.
    pub fn asks_no_reuse(self) -> (r: bool)
        ensures
            r == !(self is SequentialOnly),
    {
        match self {
            CacheAdvice::SequentialOnly => false,
            _ => true,
        }
    }

    /// Whether the pages are dropped once the file is hashed.
    pub fn drops_after(self) -> (r: bool)
        ensures
            r == (self is SequentialNoReuseAndDrop),
    {
        match self {
            CacheAdvice::SequentialNoReuseAndDrop => true,
            _ => false,
        }
    }
}

/// Whether a file of this length is hashed from a memory map rather than read through a buffer.
pub fn maps_file(len: u64) -> (r: bool)
    ensures
        r == (len >= MMAP_THRESHOLD),
{
    len >= MMAP_THRESHOLD
}

/// The strong hash of a content.
pub fn hash_full_sha256(data: &[u8]) -> (r: [u8; 32])
    ensures
        r@ == sha256(data@),
{
    let mut stream = stream_new();
    stream_update(&mut stream, data);
    assert(absorbed(stream) =~= data@);
    stream_finish(stream)
}

/// The prefix fingerprint of a content.
pub fn hash_prefix_sha1_4k(data: &[u8]) -> (r: [u8; 20])
    ensures
        r@ == sha1(head_of(data@)),
{
    if data.len() > PREFIX_LEN {
        sha1_digest(slice_subrange(data, 0, PREFIX_LEN))
    } else {
        sha1_digest(data)
    }
}

/// The observation of a file with this content, for the modification time
/// and the size that were read when the file was found.
pub fn hash_file(data: &[u8], mtime_secs: u64, size: u64) -> (r: FileMeta)
    ensures
        describes(r, data@, mtime_secs, size),
{
    let prefix_fp: Option<[u8; 20]> = if size > PREFIX_LEN as u64 {
        Some(hash_prefix_sha1_4k(data))
    } else {
        None
    };
    let hash256 = hash_full_sha256(data);
    FileMeta::new(size, mtime_secs, hash256, prefix_fp)
}

/// Hashes a file that is read piece by piece.
pub struct FileHasher {
    stream: Sha256Stream,
    head: Vec<u8>,
    mtime_secs: u64,
    size: u64,
}

impl FileHasher {
    /// The bytes taken in so far.
    pub closed spec fn fed(&self) -> Seq<u8> {
        absorbed(self.stream)
    }

    /// The modification time that the observation will carry.
    pub closed spec fn mtime_secs(&self) -> u64 {
        self.mtime_secs
    }

    /// The size that the observation will carry.
    pub closed spec fn size(&self) -> u64 {
        self.size
    }

    /// Whether the bytes kept for the prefix fingerprint are the head of what was taken in.
    pub closed spec fn wf(&self) -> bool {
        self.head@ == head_of(self.fed())
    }

    /// A hasher for a file of the stated modification time and size, with nothing read yet.
    pub fn new(mtime_secs: u64, size: u64) -> (r: FileHasher)
        ensures
            r.wf(),
            r.fed() == Seq::<u8>::empty(),
            r.mtime_secs() == mtime_secs,
            r.size() == size,
    {
        FileHasher { stream: stream_new(), head: Vec::new(), mtime_secs, size }
    }

    /// Takes in the next piece of the file.
    pub fn feed(&mut self, chunk: &[u8])
        requires
            old(self).wf(),
        ensures
            final(self).wf(),
            final(self).fed() == old(self).fed() + chunk@,
            final(self).mtime_secs() == old(self).mtime_secs(),
            final(self).size() == old(self).size(),
    {
        let ghost before = self.fed();
        stream_update(&mut self.stream, chunk);
        let n: usize = chunk.len();
        let mut i: usize = 0;
        while i < n && self.head.len() < PREFIX_LEN
            invariant
                n == chunk@.len(),
                i <= n,
                self.fed() == before + chunk@,
                self.mtime_secs == old(self).mtime_secs,
                self.size == old(self).size,
                self.head@ == head_of(before + chunk@.take(i as int)),
            decreases n - i,
        {
            assert(chunk@.take(i + 1) =~= chunk@.take(i as int).push(chunk@[i as int]));
            assert(before + chunk@.take(i + 1) =~= (before + chunk@.take(i as int)).push(
                chunk@[i as int],
            ));
            self.head.push(chunk[i]);
            assert(self.head@ =~= head_of(before + chunk@.take(i + 1)));
            i = i + 1;
        }
        assert(self.head@ =~= head_of(before + chunk@)) by {
            if i == n {
                assert(chunk@.take(n as int) =~= chunk@);
            } else {
                assert(head_of(before + chunk@) =~= head_of(before + chunk@.take(i as int)));
            }
        }
    }

    /// The observation of the file, all of which was taken in.
    pub fn finish(self) -> (r: FileMeta)
        requires
            self.wf(),
        ensures
            describes(r, self.fed(), self.mtime_secs(), self.size()),
    {
        let prefix_fp: Option<[u8; 20]> = if self.size > PREFIX_LEN as u64 {
            Some(sha1_digest(self.head.as_slice()))
        } else {
            None
        };
        let hash256 = stream_finish(self.stream);
        FileMeta::new(self.size, self.mtime_secs, hash256, prefix_fp)
    }
}

/// Taking a file in piece by piece gives the observation that hashing it whole gives.
pub proof fn lemma_pieces_as_whole(m: FileMeta, w: FileMeta, data: Seq<u8>, mtime_secs: u64, size: u64)
    requires
        describes(m, data, mtime_secs, size),
        describes(w, data, mtime_secs, size),
    ensures
        m == w,
{
    assert(m.hash256 =~= w.hash256);
    if m.prefix_fp is Some {
        assert(m.prefix_fp->Some_0 =~= w.prefix_fp->Some_0);
    }
}

} // verus!
