//! Observations of file content and their stable encoding.

use vstd::bytes::{
    lemma_auto_spec_u64_to_from_le_bytes, spec_u64_from_le_bytes, spec_u64_to_le_bytes,
    u64_from_le_bytes, u64_to_le_bytes,
};
use vstd::prelude::*;
use vstd::slice::slice_subrange;

verus! {

/// Length of an encoded observation without a prefix fingerprint.
pub const BASE_LEN: usize = 50;

/// Length of an encoded observation with a prefix fingerprint.
pub const FULL_LEN: usize = 70;

/// The only encoding version in use.
pub const VERSION: u8 = 1;

/// Lifecycle state of one observation.
#[derive(Debug, Clone, Copy, PartialEq, Eq, Structural)]
pub enum FileState {
    Live,
    Replaced,
    Missing,
}

impl FileState {
    /// The stored code of a state.
    pub open spec fn code(self) -> u8 {
        match self {
            FileState::Live => 0,
            FileState::Replaced => 1,
            FileState::Missing => 2,
        }
    }

    /// The state with the given stored code, if the code is in use.
    pub open spec fn of_code(v: u8) -> Option<FileState> {
        if v == 0 {
            Some(FileState::Live)
        } else if v == 1 {
            Some(FileState::Replaced)
        } else if v == 2 {
            Some(FileState::Missing)
        } else {
            None
        }
    }

    pub fn from_u8(v: u8) -> (r: Option<FileState>)
        ensures
            r == FileState::of_code(v),
    {
        match v {
            0 => Some(FileState::Live),
            1 => Some(FileState::Replaced),
            2 => Some(FileState::Missing),
            _ => None,
        }
    }

    pub fn as_u8(self) -> (r: u8)
        ensures
            r == self.code(),
    {
        match self {
            FileState::Live => 0,
            FileState::Replaced => 1,
            FileState::Missing => 2,
        }
    }

    /// A state survives the trip through its stored code.
    pub proof fn lemma_code_round_trip(self)
        ensures
            FileState::of_code(self.code()) == Some(self),
    {
    }
}

/// One observation of a file's content.
#[derive(Debug, Clone, Copy, PartialEq, Eq)]
pub struct FileMeta {
    pub size: u64,
    pub mtime_secs: u64,
    pub hash256: [u8; 32],
    pub prefix_fp: Option<[u8; 20]>,
}

/// Why a byte string is not an encoded observation.
#[derive(Debug, Clone, Copy, PartialEq, Eq)]
pub enum DecodeError {
    /// Fewer than the 50 bytes every encoding has.
    TooShort { len: usize },
    /// The version byte is not one this library writes.
    UnknownVersion { version: u8 },
    /// The flags announce a prefix fingerprint that the buffer cannot hold.
    PrefixTruncated { len: usize },
}

/// Whether the flags byte announces a prefix fingerprint.
pub open spec fn flags_have_prefix(flags: u8) -> bool {
    flags & 1 != 0
}

/// The encoding of an observation.
pub open spec fn encoded(m: FileMeta) -> Seq<u8> {
    seq![VERSION, if m.prefix_fp is Some { 1u8 } else { 0u8 }] + spec_u64_to_le_bytes(m.size)
        + spec_u64_to_le_bytes(m.mtime_secs) + m.hash256@ + match m.prefix_fp {
        Some(p) => p@,
        None => Seq::<u8>::empty(),
    }
}

/// The error, if any, that reading `bytes` as the body of a version 1
/// encoding gives; the version byte is not looked at.
pub open spec fn body_failure(bytes: Seq<u8>) -> Option<DecodeError> {
    if bytes.len() < BASE_LEN {
        Some(DecodeError::TooShort { len: bytes.len() as usize })
    } else if flags_have_prefix(bytes[1]) && bytes.len() < FULL_LEN {
        Some(DecodeError::PrefixTruncated { len: bytes.len() as usize })
    } else {
        None
    }
}

/// The error, if any, that reading the fields of `bytes` that every
/// encoding has gives; whether a prefix fingerprint follows is not looked at.
pub open spec fn fixed_failure(bytes: Seq<u8>) -> Option<DecodeError> {
    if bytes.len() < BASE_LEN {
        Some(DecodeError::TooShort { len: bytes.len() as usize })
    } else if bytes[0] != VERSION {
        Some(DecodeError::UnknownVersion { version: bytes[0] })
    } else {
        None
    }
}

/// The error, if any, that decoding `bytes` gives.
pub open spec fn decode_failure(bytes: Seq<u8>) -> Option<DecodeError> {
    if bytes.len() < BASE_LEN {
        Some(DecodeError::TooShort { len: bytes.len() as usize })
    } else if bytes[0] != VERSION {
        Some(DecodeError::UnknownVersion { version: bytes[0] })
    } else {
        body_failure(bytes)
    }
}

/// The size field of an encoding.
pub open spec fn stored_size(bytes: Seq<u8>) -> u64 {
    spec_u64_from_le_bytes(bytes.subrange(2, 10))
}

/// The modification time field of an encoding.
pub open spec fn stored_mtime(bytes: Seq<u8>) -> u64 {
    spec_u64_from_le_bytes(bytes.subrange(10, 18))
}

/// The content hash field of an encoding.
pub open spec fn stored_hash(bytes: Seq<u8>) -> Seq<u8> {
    bytes.subrange(18, 50)
}

/// The prefix fingerprint field of an encoding, where the flags announce one.
pub open spec fn stored_prefix(bytes: Seq<u8>) -> Option<Seq<u8>> {
    if flags_have_prefix(bytes[1]) {
        Some(bytes.subrange(50, 70))
    } else {
        None
    }
}

/// Whether `m` is the observation that `bytes` encodes, for `bytes` that decode.
pub open spec fn decodes_to(bytes: Seq<u8>, m: FileMeta) -> bool {
    &&& m.size == stored_size(bytes)
    &&& m.mtime_secs == stored_mtime(bytes)
    &&& m.hash256@ == stored_hash(bytes)
    &&& match m.prefix_fp {
        Some(p) => stored_prefix(bytes) == Some(p@),
        None => stored_prefix(bytes) is None,
    }
}

/// Copies 32 bytes out of a slice.
fn take_32(bytes: &[u8], start: usize) -> (a: [u8; 32])
    requires
        start + 32 <= bytes@.len(),
    ensures
        a@ == bytes@.subrange(start as int, start + 32),
{
    let mut a: [u8; 32] = [0u8; 32];
    let n: usize = bytes.len();
    let mut i: usize = 0;
    while i < 32
        invariant
            i <= 32,
            n == bytes@.len(),
            start + 32 <= n,
            forall|k: int| 0 <= k < i ==> a@[k] == bytes@[start + k],
        decreases 32 - i,
    {
        a[i] = bytes[start + i];
        i = i + 1;
    }
    assert(a@ =~= bytes@.subrange(start as int, start + 32));
    a
}

/// Copies 20 bytes out of a slice.
fn take_20(bytes: &[u8], start: usize) -> (a: [u8; 20])
    requires
        start + 20 <= bytes@.len(),
    ensures
        a@ == bytes@.subrange(start as int, start + 20),
{
    let mut a: [u8; 20] = [0u8; 20];
    let n: usize = bytes.len();
    let mut i: usize = 0;
    while i < 20
        invariant
            i <= 20,
            n == bytes@.len(),
            start + 20 <= n,
            forall|k: int| 0 <= k < i ==> a@[k] == bytes@[start + k],
        decreases 20 - i,
    {
        a[i] = bytes[start + i];
        i = i + 1;
    }
    assert(a@ =~= bytes@.subrange(start as int, start + 20));
    a
}

/// Appends the bytes of a slice to a vector.
pub fn push_all(out: &mut Vec<u8>, bytes: &[u8])
    ensures
        final(out)@ == old(out)@ + bytes@,
{
    let n: usize = bytes.len();
    let mut i: usize = 0;
    while i < n
        invariant
            n == bytes@.len(),
            i <= n,
            out@ == old(out)@ + bytes@.take(i as int),
        decreases n - i,
    {
        out.push(bytes[i]);
        assert(bytes@.take(i + 1) =~= bytes@.take(i as int).push(bytes@[i as int]));
        i = i + 1;
    }
    assert(bytes@.take(n as int) =~= bytes@);
}

impl FileMeta {
    pub fn new(size: u64, mtime_secs: u64, hash256: [u8; 32], prefix_fp: Option<[u8; 20]>) -> (m:
        FileMeta)
        ensures
            m == (FileMeta { size, mtime_secs, hash256, prefix_fp }),
    {
        FileMeta { size, mtime_secs, hash256, prefix_fp }
    }

    /// Encodes the observation in its stable on-disk form.
    pub fn encode(&self) -> (out: Vec<u8>)
        ensures
            out@ == encoded(*self),
            out@.len() == if self.prefix_fp is Some { FULL_LEN } else { BASE_LEN },
    {
        proof {
            lemma_auto_spec_u64_to_from_le_bytes();
        }
        let mut out: Vec<u8> = Vec::with_capacity(70);
        out.push(VERSION);
        let flags: u8 = if self.prefix_fp.is_some() { 1 } else { 0 };
        out.push(flags);
        let mut size_le: Vec<u8> = u64_to_le_bytes(self.size);
        out.append(&mut size_le);
        let mut mtime_le: Vec<u8> = u64_to_le_bytes(self.mtime_secs);
        out.append(&mut mtime_le);
        push_all(&mut out, self.hash256.as_slice());
        match &self.prefix_fp {
            Some(p) => {
                push_all(&mut out, p.as_slice());
            },
            None => {},
        }
        assert(out@ =~= encoded(*self));
        out
    }

    /// Decodes an observation, rejecting buffers that are too short, carry an
    /// unknown version, or announce a prefix fingerprint they cannot hold.
    pub fn decode(bytes: &[u8]) -> (r: Result<FileMeta, DecodeError>)
        ensures
            match r {
                Ok(m) => decode_failure(bytes@) is None && decodes_to(bytes@, m),
                Err(e) => decode_failure(bytes@) == Some(e),
            },
    {
        if bytes.len() < BASE_LEN {
            return Err(DecodeError::TooShort { len: bytes.len() });
        }
        let version: u8 = bytes[0];
        if version != VERSION {
            return Err(DecodeError::UnknownVersion { version });
        }
        FileMeta::decode_v1(bytes)
    }

    /// Reads size and modification time from an encoding. Only the fields
    /// that every encoding has are looked at: the buffer must have the 50
    /// bytes of those and carry a known version.
    pub fn peek_size_mtime(bytes: &[u8]) -> (r: Result<(u64, u64), DecodeError>)
        ensures
            match r {
                Ok(found) => {
                    &&& fixed_failure(bytes@) is None
                    &&& found.0 == stored_size(bytes@)
                    &&& found.1 == stored_mtime(bytes@)
                },
                Err(e) => fixed_failure(bytes@) == Some(e),
            },
    {
        if bytes.len() < BASE_LEN {
            return Err(DecodeError::TooShort { len: bytes.len() });
        }
        let version: u8 = bytes[0];
        if version != VERSION {
            return Err(DecodeError::UnknownVersion { version });
        }
        let size: u64 = u64_from_le_bytes(slice_subrange(bytes, 2, 10));
        let mtime_secs: u64 = u64_from_le_bytes(slice_subrange(bytes, 10, 18));
        Ok((size, mtime_secs))
    }

    /// Decodes the body of a version 1 encoding, whatever its version byte says.
    pub fn decode_v1(bytes: &[u8]) -> (r: Result<FileMeta, DecodeError>)
        ensures
            match r {
                Ok(m) => body_failure(bytes@) is None && decodes_to(bytes@, m),
                Err(e) => body_failure(bytes@) == Some(e),
            },
    {
        if bytes.len() < BASE_LEN {
            return Err(DecodeError::TooShort { len: bytes.len() });
        }
        let flags: u8 = bytes[1];
        let has_prefix: bool = (flags & 1) != 0;
        let size: u64 = u64_from_le_bytes(slice_subrange(bytes, 2, 10));
        let mtime_secs: u64 = u64_from_le_bytes(slice_subrange(bytes, 10, 18));
        let hash256: [u8; 32] = take_32(bytes, 18);
        let prefix_fp: Option<[u8; 20]> = if has_prefix {
            if bytes.len() < FULL_LEN {
                return Err(DecodeError::PrefixTruncated { len: bytes.len() });
            }
            Some(take_20(bytes, 50))
        } else {
            None
        };
        Ok(FileMeta { size, mtime_secs, hash256, prefix_fp })
    }

    /// A buffer of fewer than 50 bytes does not decode, nor one whose
    /// version is not 1, nor one that announces a prefix fingerprint and
    /// has fewer than 70 bytes.
    pub proof fn lemma_decode_rejects(bytes: Seq<u8>)
        ensures
            bytes.len() < BASE_LEN ==> decode_failure(bytes) is Some,
            bytes.len() > 0 && bytes[0] != VERSION ==> decode_failure(bytes) is Some,
            bytes.len() >= 2 && flags_have_prefix(bytes[1]) && bytes.len() < FULL_LEN
                ==> decode_failure(bytes) is Some,
            decode_failure(bytes) is None ==> bytes.len() >= BASE_LEN && bytes[0] == VERSION,
    {
    }

    /// What decodes can be peeked at, and peeking gives the size and the
    /// modification time that decoding gives.
    pub proof fn lemma_peek_agrees(bytes: Seq<u8>, m: FileMeta)
        requires
            decode_failure(bytes) is None,
            decodes_to(bytes, m),
        ensures
            fixed_failure(bytes) is None,
            stored_size(bytes) == m.size,
            stored_mtime(bytes) == m.mtime_secs,
    {
    }

    /// Every observation decodes from its own encoding, and to itself.
    pub proof fn lemma_round_trip(self, m: FileMeta)
        requires
            decodes_to(encoded(self), m),
        ensures
            decode_failure(encoded(self)) is None,
            m == self,
    {
        lemma_auto_spec_u64_to_from_le_bytes();
        let bytes = encoded(self);
        assert(bytes[0] == VERSION);
        assert(flags_have_prefix(1u8) && !flags_have_prefix(0u8)) by (bit_vector);
        assert(bytes.subrange(2, 10) =~= spec_u64_to_le_bytes(self.size));
        assert(bytes.subrange(10, 18) =~= spec_u64_to_le_bytes(self.mtime_secs));
        assert(bytes.subrange(18, 50) =~= self.hash256@);
        assert(m.hash256 =~= self.hash256);
        match self.prefix_fp {
            Some(p) => {
                assert(bytes[1] == 1u8);
                assert(bytes.subrange(50, 70) =~= p@);
                assert(m.prefix_fp->Some_0 =~= p);
            },
            None => {
                assert(bytes[1] == 0u8);
            },
        }
    }
}

} // verus!
