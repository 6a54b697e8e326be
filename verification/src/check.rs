//! Checks whether a path or a content hash is on record.

use crate::db::{
    current_by_path_in, entry_shows, lookup_by_hash_in, CurrentByPath, DbHandle, ShaEntry,
    StoreError,
};
use crate::file_meta::{decode_failure, decodes_to, FileMeta, FileState};
use crate::kv::Snapshot;
use crate::lex::{
    lemma_lex_le_total, lemma_lex_le_transitive, lemma_lex_lt_trichotomy, lex_le, rank_strs,
    str_bytes, Rank,
};
use crate::model::{
    current_blob, first_corrupt, ids_under, sha_rows, state_of, ShaRow,
};
use crate::sort::{
    lemma_sorted_same_elements, reversed, sort, sorted, views_of, Order, Ordered,
};
use vstd::prelude::*;
use vstd::string::StrSliceExecFns;

verus! {

/// What the database knows of a file or a content.
#[derive(Debug, Copy, Clone, Eq, PartialEq)]
pub enum Status {
    /// A live observation has the content.
    Exists,
    /// The content, or the path, is on record, but no live observation has it.
    KnownRemoved,
    /// Nothing is on record.
    NotFound,
}

impl Status {
    /// The word that stands for the status in line-by-line output.
    pub fn token(self) -> (r: &'static str)
        ensures
            r@ == match self {
                Status::Exists => "EXISTS"@,
                Status::KnownRemoved => "KNOWN_REMOVED"@,
                Status::NotFound => "NOT_FOUND"@,
            },
    {
        match self {
            Status::Exists => "EXISTS",
            Status::KnownRemoved => "KNOWN_REMOVED",
            Status::NotFound => "NOT_FOUND",
        }
    }
}

/// What was found on disk at a path.
#[derive(Debug, Copy, Clone, Eq, PartialEq)]
pub enum DiskView {
    /// Nothing, or nothing that could be read.
    Absent,
    /// Something that is not a regular file.
    NotAFile,
    /// A regular file of this size and modification time.
    File { size: u64, mtime_secs: u64 },
}

/// What looking at the path and at the latest observation on record settles.
#[derive(Debug, Copy, Clone, Eq, PartialEq)]
pub enum PathVerdict {
    /// The status is settled.
    Settled(Status),
    /// The file has to be hashed, and its content looked up.
    NeedsHash,
}

/// The verdict for a path, from what is on disk and from the state, size
/// and modification time of the latest observation on record, if any.
pub open spec fn verdict_of(current: Option<(FileState, u64, u64)>, disk: DiskView) -> PathVerdict {
    match disk {
        DiskView::NotAFile => PathVerdict::Settled(Status::NotFound),
        DiskView::Absent => match current {
            Some(c) => if c.0 == FileState::Missing {
                PathVerdict::Settled(Status::KnownRemoved)
            } else {
                PathVerdict::Settled(Status::NotFound)
            },
            None => PathVerdict::Settled(Status::NotFound),
        },
        DiskView::File { size, mtime_secs } => match current {
            Some(c) => if c.0 == FileState::Live && c.1 == size && c.2 == mtime_secs {
                PathVerdict::Settled(Status::Exists)
            } else {
                PathVerdict::NeedsHash
            },
            None => PathVerdict::NeedsHash,
        },
    }
}

/// State, size and modification time of an observation.
pub open spec fn essentials(current: Option<CurrentByPath>) -> Option<(FileState, u64, u64)> {
    match current {
        Some(c) => Some((c.state, c.meta.size, c.meta.mtime_secs)),
        None => None,
    }
}

/// The verdict for a path, from what is on disk and the latest observation on record.
pub fn judge_path(current: &Option<CurrentByPath>, disk: DiskView) -> (r: PathVerdict)
    ensures
        r == verdict_of(essentials(*current), disk),
{
    match disk {
        DiskView::NotAFile => PathVerdict::Settled(Status::NotFound),
        DiskView::Absent => match current {
            Some(c) => match c.state {
                FileState::Missing => PathVerdict::Settled(Status::KnownRemoved),
                _ => PathVerdict::Settled(Status::NotFound),
            },
            None => PathVerdict::Settled(Status::NotFound),
        },
        DiskView::File { size, mtime_secs } => match current {
            Some(c) => {
                let live: bool = match c.state {
                    FileState::Live => true,
                    _ => false,
                };
                if live && c.meta.size == size && c.meta.mtime_secs == mtime_secs {
                    PathVerdict::Settled(Status::Exists)
                } else {
                    PathVerdict::NeedsHash
                }
            },
            None => PathVerdict::NeedsHash,
        },
    }
}

/// Checks a normalized path against a snapshot, given what is on disk
/// there. For something that is not a regular file the database is not
/// asked. Returns the verdict and the latest observation on record.
pub fn check_path_in(snap: &Snapshot, norm_path: &str, disk: DiskView) -> (r: Result<
    (PathVerdict, Option<CurrentByPath>),
    StoreError,
>)
    ensures
        disk is NotAFile ==> r is Ok,
        match r {
            Ok(found) => {
                &&& found.0 == verdict_of(essentials(found.1), disk)
                &&& disk is NotAFile ==> found.1 is None
                &&& !(disk is NotAFile) ==> match found.1 {
                    Some(c) => {
                        &&& current_blob(snap@, norm_path@) is Some
                        &&& c.file_id == current_blob(snap@, norm_path@)->Some_0.0
                        &&& c.state == state_of(snap@, c.file_id)
                        &&& decodes_to(current_blob(snap@, norm_path@)->Some_0.1, c.meta)
                    },
                    None => current_blob(snap@, norm_path@) is None,
                }
            },
            Err(StoreError::Corrupt { file_id, cause }) => {
                &&& !(disk is NotAFile)
                &&& current_blob(snap@, norm_path@) is Some
                &&& current_blob(snap@, norm_path@)->Some_0.0 == file_id
                &&& decode_failure(current_blob(snap@, norm_path@)->Some_0.1) == Some(cause)
            },
            Err(StoreError::Backend(_)) => true,
            Err(StoreError::IdsExhausted) => false,
        },
{
    let current: Option<CurrentByPath> = match disk {
        DiskView::NotAFile => None,
        _ => match current_by_path_in(snap, norm_path) {
            Ok(c) => c,
            Err(e) => {
                return Err(e);
            },
        },
    };
    Ok((judge_path(&current, disk), current))
}

/// The status of a content from the observations listed under its hash:
/// not found where there are none, existing where one is live, else known
/// to be removed.
pub open spec fn status_among(rows: Seq<ShaRow>) -> Status {
    if rows.len() == 0 {
        Status::NotFound
    } else if exists|i: int| 0 <= i < rows.len() && (#[trigger] rows[i]).state == FileState::Live {
        Status::Exists
    } else {
        Status::KnownRemoved
    }
}

/// The status of a content from the entries found under its hash: not
/// found where there are none, existing where one is live, else known to
/// be removed.
pub open spec fn status_of(entries: Seq<ShaEntry>) -> Status {
    if entries.len() == 0 {
        Status::NotFound
    } else if exists|i: int|
        0 <= i < entries.len() && (#[trigger] entries[i]).state == FileState::Live {
        Status::Exists
    } else {
        Status::KnownRemoved
    }
}

/// The status of a content from the entries found under its hash.
pub fn classify(entries: &Vec<ShaEntry>) -> (r: Status)
    ensures
        r == status_of(entries@),
{
    let n: usize = entries.len();
    if n == 0 {
        return Status::NotFound;
    }
    let mut i: usize = 0;
    while i < n
        invariant
            n == entries@.len(),
            i <= n,
            forall|k: int| 0 <= k < i ==> (#[trigger] entries@[k]).state != FileState::Live,
        decreases n - i,
    {
        match entries[i].state {
            FileState::Live => {
                return Status::Exists;
            },
            _ => {},
        }
        i = i + 1;
    }
    Status::KnownRemoved
}

/// Checks a content hash against a snapshot. Returns the status and every
/// observation listed under the hash.
pub fn check_by_sha_in(snap: &Snapshot, hash256: &[u8; 32]) -> (r: Result<
    (Status, Vec<ShaEntry>),
    StoreError,
>)
    ensures
        match r {
            Ok(found) => {
                &&& found.0 == status_among(sha_rows(snap@, hash256@))
                &&& found.0 == status_of(found.1@)
                &&& found.1@.len() == sha_rows(snap@, hash256@).len()
                &&& forall|k: int|
                    0 <= k < found.1@.len() ==> entry_shows(
                        #[trigger] found.1@[k],
                        sha_rows(snap@, hash256@)[k],
                    )
            },
            Err(StoreError::Corrupt { file_id, cause }) => {
                &&& first_corrupt(snap@, ids_under(snap@, hash256@), file_id)
                &&& decode_failure(snap@.file_meta[file_id]) == Some(cause)
            },
            Err(StoreError::Backend(_)) => true,
            Err(StoreError::IdsExhausted) => false,
        },
{
    let entries = match lookup_by_hash_in(snap, hash256) {
        Ok(v) => v,
        Err(e) => {
            return Err(e);
        },
    };
    let status = classify(&entries);
    proof {
        let rows = sha_rows(snap@, hash256@);
        if exists|i: int| 0 <= i < rows.len() && (#[trigger] rows[i]).state == FileState::Live {
            let i = choose|i: int|
                0 <= i < rows.len() && (#[trigger] rows[i]).state == FileState::Live;
            assert(entry_shows(entries@[i], rows[i]));
        }
        if exists|i: int|
            0 <= i < entries@.len() && (#[trigger] entries@[i]).state == FileState::Live {
            let i = choose|i: int|
                0 <= i < entries@.len() && (#[trigger] entries@[i]).state == FileState::Live;
            assert(entry_shows(entries@[i], rows[i]));
        }
    }
    Ok((status, entries))
}

/// Checks a content hash against the database as committed so far.
pub fn check_by_sha(db: &DbHandle, hash256: &[u8; 32]) -> (r: Result<
    (Status, Vec<ShaEntry>),
    StoreError,
>)
    ensures
        r matches Ok(found) ==> found.0 == status_of(found.1@),
        r matches Err(e) ==> !(e is IdsExhausted),
{
    let snap = match db.snapshot() {
        Ok(s) => s,
        Err(e) => {
            return Err(e);
        },
    };
    check_by_sha_in(&snap, hash256)
}

/// Checks a normalized path against the database as committed so far,
/// given what is on disk there. For something that is not a regular file
/// the database is not asked, and the check succeeds.
pub fn check_path(db: &DbHandle, norm_path: &str, disk: DiskView) -> (r: Result<
    (PathVerdict, Option<CurrentByPath>),
    StoreError,
>)
    ensures
        disk is NotAFile ==> (r matches Ok(found) && found.1 is None),
        r matches Ok(found) ==> found.0 == verdict_of(essentials(found.1), disk),
        r matches Err(e) ==> !(e is IdsExhausted),
{
    if let DiskView::NotAFile = disk {
        let none: Option<CurrentByPath> = None;
        return Ok((judge_path(&none, disk), none));
    }
    let snap = match db.snapshot() {
        Ok(s) => s,
        Err(e) => {
            return Err(e);
        },
    };
    check_path_in(&snap, norm_path, disk)
}

/// An entry found under a hash, as plain values.
pub struct PeerRow {
    pub file_id: u64,
    pub state: FileState,
    pub path: Seq<char>,
    pub meta: FileMeta,
}

impl View for ShaEntry {
    type V = PeerRow;

    open spec fn view(&self) -> PeerRow {
        PeerRow { file_id: self.file_id, state: self.state, path: self.path@, meta: self.meta }
    }
}

/// Peers are listed in path order.
impl Order for PeerRow {
    open spec fn le(&self, other: &Self) -> bool {
        lex_le(str_bytes(self.path), str_bytes(other.path))
    }

    proof fn lemma_le_total(a: &Self, b: &Self) {
        lemma_lex_le_total(str_bytes(a.path), str_bytes(b.path));
    }

    proof fn lemma_le_transitive(a: &Self, b: &Self, c: &Self) {
        lemma_lex_le_transitive(str_bytes(a.path), str_bytes(b.path), str_bytes(c.path));
    }
}

impl Ordered for ShaEntry {
    fn at_most(&self, other: &Self) -> (r: bool) {
        proof {
            lemma_lex_lt_trichotomy(str_bytes(self.path@), str_bytes(other.path@));
        }
        match rank_strs(self.path.as_str(), other.path.as_str()) {
            Rank::After => false,
            _ => true,
        }
    }
}

/// Whether an entry is another observation than the one left out. Where
/// none is left out, every entry is.
pub open spec fn is_other(exclude: Option<u64>, e: PeerRow) -> bool {
    match exclude {
        Some(id) => e.file_id != id,
        None => true,
    }
}

/// Whether an entry is a peer: a live observation other than the one left out.
pub open spec fn is_peer(exclude: Option<u64>) -> spec_fn(PeerRow) -> bool {
    |e: PeerRow| is_other(exclude, e) && e.state == FileState::Live
}

/// Whether an entry is a former copy: an observation other than the one
/// left out that is no longer live.
pub open spec fn is_former(exclude: Option<u64>) -> spec_fn(PeerRow) -> bool {
    |e: PeerRow| is_other(exclude, e) && e.state != FileState::Live
}

/// The test by which entries are picked: for peers, or for former copies.
pub open spec fn picks(exclude: Option<u64>, live: bool) -> spec_fn(PeerRow) -> bool {
    if live {
        is_peer(exclude)
    } else {
        is_former(exclude)
    }
}

/// The number of live entries.
pub open spec fn live_among(rows: Seq<PeerRow>) -> nat
    decreases rows.len(),
{
    if rows.len() == 0 {
        0
    } else {
        live_among(rows.drop_last()) + if rows.last().state == FileState::Live {
            1nat
        } else {
            0nat
        }
    }
}

/// The entries that are live, or those that are not, other than the
/// observation left out, in path order.
fn picked(entries: Vec<ShaEntry>, exclude: Option<u64>, live: bool) -> (r: Vec<ShaEntry>)
    ensures
        views_of(r@) == sorted(views_of(entries@).filter(picks(exclude, live))),
{
    let ghost all = views_of(entries@);
    let ghost keep = picks(exclude, live);
    let mut left = reversed(entries);
    let mut out: Vec<ShaEntry> = Vec::new();
    let ghost mut done: int = 0;
    proof {
        reveal(Seq::filter);
    }
    assert(views_of(out@) =~= all.take(0).filter(keep));
    while left.len() > 0
        invariant
            keep == picks(exclude, live),
            0 <= done <= all.len(),
            left@.len() == all.len() - done,
            forall|k: int|
                0 <= k < left@.len() ==> (#[trigger] left@[k])@ == all[all.len() - 1 - k],
            views_of(out@) == all.take(done).filter(keep),
        decreases left@.len(),
    {
        let e = left.pop().unwrap();
        proof {
            assert(e@ == all[done]);
            assert(all.take(done + 1) =~= all.take(done).push(all[done]));
            all.take(done).lemma_filter_push(all[done], keep);
        }
        let other: bool = match exclude {
            Some(id) => e.file_id != id,
            None => true,
        };
        let is_live: bool = match e.state {
            FileState::Live => true,
            _ => false,
        };
        if other && is_live == live {
            let ghost before = out@;
            out.push(e);
            assert(views_of(out@) =~= views_of(before).push(e@));
        }
        proof {
            done = done + 1;
        }
    }
    assert(all.take(done) =~= all);
    sort(out)
}

/// The sort of a selection holds exactly the entries that were selected.
pub proof fn lemma_sorted_selection(rows: Seq<PeerRow>, keep: spec_fn(PeerRow) -> bool, e: PeerRow)
    ensures
        sorted(rows.filter(keep)).contains(e) <==> rows.contains(e) && keep(e),
{
    lemma_sorted_same_elements(rows.filter(keep), e);
    if rows.filter(keep).contains(e) {
        let k = choose|k: int| 0 <= k < rows.filter(keep).len() && rows.filter(keep)[k] == e;
        rows.lemma_filter_contains_rev(keep, e);
    }
    if rows.contains(e) && keep(e) {
        let k = choose|k: int| 0 <= k < rows.len() && rows[k] == e;
        rows.lemma_filter_contains(keep, k);
    }
}

/// The peers of a file among the entries found under its hash: the live
/// observations but, where one is named, the file's own, in path order.
pub fn peers_of(entries: Vec<ShaEntry>, exclude: Option<u64>) -> (r: Vec<ShaEntry>)
    ensures
        views_of(r@) == sorted(views_of(entries@).filter(is_peer(exclude))),
        forall|e: PeerRow| #[trigger]
            views_of(r@).contains(e) <==> views_of(entries@).contains(e) && is_peer(exclude)(e),
        forall|k: int|
            0 <= k < r@.len() ==> (#[trigger] r@[k]).state == FileState::Live && is_other(
                exclude,
                r@[k]@,
            ),
{
    let ghost rows = views_of(entries@);
    let r = picked(entries, exclude, true);
    proof {
        assert forall|e: PeerRow| #[trigger]
            views_of(r@).contains(e) <==> rows.contains(e) && is_peer(exclude)(e) by {
            lemma_sorted_selection(rows, is_peer(exclude), e);
        }
        assert forall|k: int| 0 <= k < r@.len() implies (#[trigger] r@[k]).state
            == FileState::Live && is_other(exclude, r@[k]@) by {
            assert(views_of(r@)[k] == r@[k]@);
            assert(views_of(r@).contains(r@[k]@));
            lemma_sorted_selection(rows, is_peer(exclude), r@[k]@);
        }
    }
    r
}

/// The former copies among the entries found under a hash: the
/// observations that are no longer live but, where one is named, the
/// file's own, in path order.
pub fn former_of(entries: Vec<ShaEntry>, exclude: Option<u64>) -> (r: Vec<ShaEntry>)
    ensures
        views_of(r@) == sorted(views_of(entries@).filter(is_former(exclude))),
        forall|e: PeerRow| #[trigger]
            views_of(r@).contains(e) <==> views_of(entries@).contains(e) && is_former(exclude)(e),
{
    let ghost rows = views_of(entries@);
    let r = picked(entries, exclude, false);
    proof {
        assert forall|e: PeerRow| #[trigger]
            views_of(r@).contains(e) <==> rows.contains(e) && is_former(exclude)(e) by {
            lemma_sorted_selection(rows, is_former(exclude), e);
        }
    }
    r
}

/// The number of live entries.
pub fn count_live(entries: &Vec<ShaEntry>) -> (r: usize)
    ensures
        r == live_among(views_of(entries@)),
{
    let ghost rows = views_of(entries@);
    let n: usize = entries.len();
    let mut live: usize = 0;
    let mut i: usize = 0;
    assert(rows.take(0) =~= Seq::<PeerRow>::empty());
    while i < n
        invariant
            n == entries@.len(),
            i <= n,
            rows == views_of(entries@),
            live == live_among(rows.take(i as int)),
            live <= i,
        decreases n - i,
    {
        assert(rows.take(i + 1).drop_last() =~= rows.take(i as int));
        assert(rows.take(i + 1).last() == entries@[i as int]@);
        match entries[i].state {
            FileState::Live => {
                live = live + 1;
            },
            _ => {},
        }
        i = i + 1;
    }
    assert(rows.take(n as int) =~= rows);
    live
}

/// Why a line does not give a content hash.
#[derive(Debug, Copy, Clone, Eq, PartialEq)]
pub enum HashParseError {
    /// The line holds nothing but whitespace.
    Empty,
    /// The first word is not 64 bytes long.
    BadLength { len: usize },
    /// The first word holds something else than hexadecimal digits.
    InvalidHex,
}

/// Whether a character is whitespace.
pub open spec fn is_space(c: char) -> bool {
    let u = c as u32;
    (0x09 <= u <= 0x0d) || u == 0x20 || u == 0x85 || u == 0xa0 || u == 0x1680 || (0x2000 <= u
        <= 0x200a) || u == 0x2028 || u == 0x2029 || u == 0x202f || u == 0x205f || u == 0x3000
}

/// The number of whitespace characters that a text begins with.
pub open spec fn spaces_before(s: Seq<char>) -> int
    decreases s.len(),
{
    if s.len() == 0 || !is_space(s.first()) {
        0
    } else {
        1 + spaces_before(s.drop_first())
    }
}

/// The number of characters other than whitespace that a text begins with.
pub open spec fn word_len(s: Seq<char>) -> int
    decreases s.len(),
{
    if s.len() == 0 || is_space(s.first()) {
        0
    } else {
        1 + word_len(s.drop_first())
    }
}

/// The first word of a line: what stands between the whitespace that the
/// line may begin with and the next whitespace or the line's end.
pub open spec fn first_word(line: Seq<char>) -> Option<Seq<char>> {
    let rest = line.skip(spaces_before(line));
    if rest.len() == 0 {
        None
    } else {
        Some(rest.take(word_len(rest)))
    }
}

/// The value of a hexadecimal digit, in either case.
pub open spec fn hex_value(b: u8) -> Option<u8> {
    if 0x30 <= b <= 0x39 {
        Some((b - 0x30) as u8)
    } else if 0x61 <= b <= 0x66 {
        Some((b - 0x61 + 10) as u8)
    } else if 0x41 <= b <= 0x46 {
        Some((b - 0x41 + 10) as u8)
    } else {
        None
    }
}

/// Whether every byte is a hexadecimal digit.
pub open spec fn all_hex(bytes: Seq<u8>) -> bool {
    forall|i: int| 0 <= i < bytes.len() ==> hex_value(#[trigger] bytes[i]) is Some
}

/// The byte that the digits at positions `2 * i` and `2 * i + 1` stand for.
pub open spec fn hex_byte(bytes: Seq<u8>, i: int) -> u8 {
    (hex_value(bytes[2 * i])->Some_0 * 16 + hex_value(bytes[2 * i + 1])->Some_0) as u8
}

/// Whether `out` holds the 32 bytes that 64 hexadecimal digits stand for.
pub open spec fn hex_decoded(bytes: Seq<u8>, out: [u8; 32]) -> bool {
    forall|i: int| 0 <= i < 32 ==> #[trigger] out@[i] == hex_byte(bytes, i)
}

/// Why the word is not a content hash, if it is none.
pub open spec fn hex_failure(word: Seq<u8>) -> Option<HashParseError> {
    if word.len() != 64 {
        Some(HashParseError::BadLength { len: word.len() as usize })
    } else if !all_hex(word) {
        Some(HashParseError::InvalidHex)
    } else {
        None
    }
}

/// Why the line does not give a content hash, if it gives none.
pub open spec fn parse_failure(line: Seq<char>) -> Option<HashParseError> {
    match first_word(line) {
        None => Some(HashParseError::Empty),
        Some(word) => hex_failure(str_bytes(word)),
    }
}

/// Whether a character is whitespace.
pub fn is_whitespace(c: char) -> (r: bool)
    ensures
        r == is_space(c),
{
    let u: u32 = c as u32;
    (0x09 <= u && u <= 0x0d) || u == 0x20 || u == 0x85 || u == 0xa0 || u == 0x1680 || (0x2000 <= u
        && u <= 0x200a) || u == 0x2028 || u == 0x2029 || u == 0x202f || u == 0x205f || u == 0x3000
}

/// The value of a hexadecimal digit.
pub fn hex_digit_value(b: u8) -> (r: Option<u8>)
    ensures
        r == hex_value(b),
{
    if 0x30 <= b && b <= 0x39 {
        Some(b - 0x30)
    } else if 0x61 <= b && b <= 0x66 {
        Some(b - 0x61 + 10)
    } else if 0x41 <= b && b <= 0x46 {
        Some(b - 0x41 + 10)
    } else {
        None
    }
}

/// The 32 bytes that a word of 64 hexadecimal digits stands for.
pub fn decode_hex_32(hex: &str) -> (r: Result<[u8; 32], HashParseError>)
    ensures
        match r {
            Ok(out) => hex_failure(str_bytes(hex@)) is None && hex_decoded(str_bytes(hex@), out),
            Err(e) => hex_failure(str_bytes(hex@)) == Some(e),
        },
{
    let bytes = hex.as_bytes();
    if bytes.len() != 64 {
        return Err(HashParseError::BadLength { len: bytes.len() });
    }
    let mut out: [u8; 32] = [0u8; 32];
    let mut i: usize = 0;
    while i < 32
        invariant
            i <= 32,
            bytes@.len() == 64,
            bytes@ == str_bytes(hex@),
            forall|k: int| 0 <= k < 2 * i ==> hex_value(#[trigger] bytes@[k]) is Some,
            forall|k: int| 0 <= k < i ==> #[trigger] out@[k] == hex_byte(bytes@, k),
        decreases 32 - i,
    {
        let hi = match hex_digit_value(bytes[2 * i]) {
            Some(v) => v,
            None => {
                return Err(HashParseError::InvalidHex);
            },
        };
        let lo = match hex_digit_value(bytes[2 * i + 1]) {
            Some(v) => v,
            None => {
                return Err(HashParseError::InvalidHex);
            },
        };
        out[i] = hi * 16 + lo;
        i = i + 1;
    }
    Ok(out)
}

/// Reads a content hash from a line: the line's first word, 64 hexadecimal
/// digits in either case. What follows the first word, such as a file
/// name, is ignored. Returns the hash and the word as it was written.
pub fn parse_blake256sum_line(s: &str) -> (r: Result<([u8; 32], String), HashParseError>)
    ensures
        match r {
            Ok(found) => {
                &&& parse_failure(s@) is None
                &&& Some(found.1@) == first_word(s@)
                &&& hex_decoded(str_bytes(found.1@), found.0)
            },
            Err(e) => parse_failure(s@) == Some(e),
        },
{
    let n: usize = s.unicode_len();
    let mut a: usize = 0;
    assert(s@.skip(0) =~= s@);
    while a < n && is_whitespace(s.get_char(a))
        invariant
            n == s@.len(),
            a <= n,
            spaces_before(s@) == a + spaces_before(s@.skip(a as int)),
        decreases n - a,
    {
        assert(s@.skip(a as int).drop_first() =~= s@.skip(a + 1));
        a = a + 1;
    }
    assert(spaces_before(s@) == a) by {
        if a < n {
            assert(s@.skip(a as int).first() == s@[a as int]);
        }
    }
    if a == n {
        return Err(HashParseError::Empty);
    }
    let ghost rest = s@.skip(a as int);
    let mut b: usize = a;
    assert(rest.skip(0) =~= rest);
    while b < n && !is_whitespace(s.get_char(b))
        invariant
            n == s@.len(),
            a <= b <= n,
            rest == s@.skip(a as int),
            word_len(rest) == (b - a) + word_len(rest.skip(b - a)),
        decreases n - b,
    {
        assert(rest.skip(b - a).drop_first() =~= rest.skip(b - a + 1));
        assert(rest.skip(b - a).first() == s@[b as int]);
        b = b + 1;
    }
    assert(word_len(rest) == b - a) by {
        if b < n {
            assert(rest.skip(b - a).first() == s@[b as int]);
        }
    }
    let word = s.substring_char(a, b);
    assert(word@ =~= rest.take(word_len(rest)));
    match decode_hex_32(word) {
        Ok(out) => Ok((out, word.to_owned())),
        Err(e) => Err(e),
    }
}

} // verus!
