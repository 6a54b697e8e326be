//! Packed lists of identifiers, and seconds since the epoch.

use vstd::bytes::{
    lemma_auto_spec_u64_to_from_le_bytes, spec_u64_from_le_bytes, spec_u64_to_le_bytes,
    u64_from_le_bytes, u64_to_le_bytes,
};
use vstd::prelude::*;
use vstd::slice::slice_subrange;

verus! {

/// The packed form of an identifier list: each identifier takes eight bytes,
/// least significant byte first, in list order.
pub open spec fn packed(ids: Seq<u64>) -> Seq<u8> {
    Seq::new((8 * ids.len()) as nat, |j: int| spec_u64_to_le_bytes(ids[j / 8])[j % 8])
}

/// The identifier list held by a packed byte string: one identifier for each
/// complete group of eight bytes; a trailing partial group is ignored.
pub open spec fn unpacked(bytes: Seq<u8>) -> Seq<u64> {
    Seq::new(
        (bytes.len() / 8) as nat,
        |i: int| spec_u64_from_le_bytes(bytes.subrange(8 * i, 8 * i + 8)),
    )
}

/// Packing a list extended by one identifier appends that identifier's eight bytes.
pub proof fn lemma_packed_push(ids: Seq<u64>, id: u64)
    ensures
        packed(ids.push(id)) == packed(ids) + spec_u64_to_le_bytes(id),
{
    lemma_auto_spec_u64_to_from_le_bytes();
    let lhs = packed(ids.push(id));
    let rhs = packed(ids) + spec_u64_to_le_bytes(id);
    assert(lhs.len() == rhs.len());
    assert forall|j: int| 0 <= j < lhs.len() implies lhs[j] == rhs[j] by {
        if j < 8 * ids.len() {
            assert(j / 8 < ids.len());
        } else {
            assert(j / 8 == ids.len());
            assert(j % 8 == j - 8 * ids.len());
        }
    }
    assert(lhs =~= rhs);
}

/// Unpacking is the inverse of packing.
pub proof fn lemma_unpack_pack(ids: Seq<u64>)
    ensures
        unpacked(packed(ids)) == ids,
{
    lemma_auto_spec_u64_to_from_le_bytes();
    let bytes = packed(ids);
    assert(bytes.len() / 8 == ids.len());
    assert forall|i: int| 0 <= i < ids.len() implies unpacked(bytes)[i] == ids[i] by {
        let chunk = bytes.subrange(8 * i, 8 * i + 8);
        let want = spec_u64_to_le_bytes(ids[i]);
        assert forall|k: int| 0 <= k < 8 implies chunk[k] == want[k] by {
            assert((8 * i + k) / 8 == i);
            assert((8 * i + k) % 8 == k);
        }
        assert(chunk =~= want);
    }
    assert(unpacked(bytes) =~= ids);
}

/// Bytes after the last complete group of eight do not change what is unpacked.
pub proof fn lemma_unpack_ignores_partial_tail(bytes: Seq<u8>)
    ensures
        unpacked(bytes) == unpacked(bytes.take(8 * (bytes.len() as int / 8))),
{
    let whole = bytes.take(8 * (bytes.len() as int / 8));
    assert(whole.len() / 8 == bytes.len() / 8);
    assert forall|i: int| 0 <= i < bytes.len() / 8 implies unpacked(bytes)[i] == unpacked(
        whole,
    )[i] by {
        assert(bytes.subrange(8 * i, 8 * i + 8) =~= whole.subrange(8 * i, 8 * i + 8));
    }
    assert(unpacked(bytes) =~= unpacked(whole));
}

/// Packs identifiers into their on-disk list form.
pub fn u64_list_pack(ids: &[u64]) -> (out: Vec<u8>)
    ensures
        out@ == packed(ids@),
        out@.len() == 8 * ids@.len(),
{
    let mut out: Vec<u8> = Vec::new();
    let n: usize = ids.len();
    let mut i: usize = 0;
    assert(packed(ids@.take(0)) =~= Seq::<u8>::empty());
    while i < n
        invariant
            n == ids@.len(),
            i <= n,
            out@ == packed(ids@.take(i as int)),
        decreases n - i,
    {
        let mut le: Vec<u8> = u64_to_le_bytes(ids[i]);
        proof {
            lemma_packed_push(ids@.take(i as int), ids@[i as int]);
            assert(ids@.take(i as int).push(ids@[i as int]) =~= ids@.take(i + 1));
        }
        out.append(&mut le);
        i = i + 1;
    }
    assert(ids@.take(n as int) =~= ids@);
    out
}

/// Unpacks an on-disk identifier list.
pub fn u64_list_unpack(bytes: &[u8]) -> (out: Vec<u64>)
    ensures
        out@ == unpacked(bytes@),
        out@.len() == bytes@.len() / 8,
{
    let mut out: Vec<u64> = Vec::new();
    let n: usize = bytes.len();
    let mut i: usize = 0;
    while n - i >= 8
        invariant
            n == bytes@.len(),
            i <= n,
            i % 8 == 0,
            out@.len() == i / 8,
            forall|k: int| 0 <= k < out@.len() ==> out@[k] == unpacked(bytes@)[k],
        decreases n - i,
    {
        let chunk = slice_subrange(bytes, i, i + 8);
        let id: u64 = u64_from_le_bytes(chunk);
        assert(8 * (i / 8) == i);
        out.push(id);
        i = i + 8;
    }
    assert(out@ =~= unpacked(bytes@));
    out
}

/// A point in time as signed seconds from the epoch, given which side of
/// the epoch it lies on and how many whole seconds away. The result wraps
/// around for distances that an `i64` cannot hold.
pub open spec fn unix_secs(after_epoch: bool, secs: u64) -> i64 {
    if after_epoch {
        if secs <= i64::MAX {
            secs as i64
        } else {
            (secs - 0x1_0000_0000_0000_0000) as i64
        }
    } else {
        if secs <= 0x8000_0000_0000_0000 {
            (-secs) as i64
        } else {
            (0x1_0000_0000_0000_0000 - secs) as i64
        }
    }
}

/// A point in time as signed seconds from the epoch: positive after it,
/// negative before it.
pub fn systemtime_to_unix_secs(after_epoch: bool, secs: u64) -> (r: i64)
    ensures
        r == unix_secs(after_epoch, secs),
{
    let half: u64 = 0x8000_0000_0000_0000;
    if after_epoch {
        if secs < half {
            secs as i64
        } else {
            ((secs - half) as i64) + i64::MIN
        }
    } else {
        if secs < half {
            -(secs as i64)
        } else if secs == half {
            i64::MIN
        } else {
            (u64::MAX - secs) as i64 + 1
        }
    }
}

/// The modification time that is stored for a point in time: its seconds
/// from the epoch, and zero, which stands for "not known", for any time
/// before the epoch.
pub fn mtime_from_unix_secs(secs: i64) -> (r: u64)
    ensures
        r == if secs < 0 { 0 } else { secs as u64 },
{
    if secs < 0 {
        0
    } else {
        secs as u64
    }
}

} // verus!
