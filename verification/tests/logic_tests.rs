use deldupes::check::{
    classify, count_live, decode_hex_32, former_of, is_whitespace, judge_path,
    parse_blake256sum_line, peers_of, DiskView, HashParseError, PathVerdict, Status,
};
use deldupes::db::{fid_list_insert, CurrentByPath, SeenSet, ShaEntry};
use deldupes::delete::{choose_keeper, is_preferred, plan_group, PlanRejected, Preserve};
use deldupes::dupe_groups::{header_path_of, DupeEntry, DupeGroup};
use deldupes::dupes::hash_hex;
use deldupes::file_meta::{FileMeta, FileState};
use deldupes::hashing::{
    hash_file, hash_full_sha256, hash_prefix_sha1_4k, maps_file, CacheAdvice, FileHasher,
};
use deldupes::path_filter::PathFilter;
use deldupes::scan::{
    job_queue_capacity, result_queue_capacity, wants_hash, worker_threads, DirGuard,
};
use deldupes::sort::sort;

const HELLO_SHA256: &str = "2cf24dba5fb0a30e26e83b2ac5b9e29e1b161e5c1fa7425e73043362938b9824";
const HELLO_SHA1: &str = "aaf4c61ddcc5e8a2dabede0f3b482cd9aea9434d";

fn hex(bytes: &[u8]) -> String {
    bytes.iter().map(|b| format!("{b:02x}")).collect()
}

fn entry(file_id: u64, path: &str, mtime: u64) -> DupeEntry {
    DupeEntry { file_id, path: path.to_string(), size: 5, mtime }
}

fn group(entries: Vec<DupeEntry>) -> DupeGroup {
    let header_path = header_path_of(&entries);
    DupeGroup { hash256: [1u8; 32], entries, header_path }
}

fn kept(entries: &[DupeEntry], policy: Preserve) -> String {
    choose_keeper(entries, policy).path
}

#[test]
fn strong_hash_is_sha256() {
    assert_eq!(hex(&hash_full_sha256(b"hello")), HELLO_SHA256);
    assert_eq!(
        hex(&hash_full_sha256(b"")),
        "e3b0c44298fc1c149afbf4c8996fb92427ae41e4649b934ca495991b7852b855"
    );
    assert_eq!(hash_hex(&hash_full_sha256(b"hello")), HELLO_SHA256);
}

#[test]
fn prefix_fingerprint_is_sha1_of_the_first_4096_bytes() {
    assert_eq!(hex(&hash_prefix_sha1_4k(b"hello")), HELLO_SHA1);
    let mut long = vec![0x61u8; 4096];
    let head = hash_prefix_sha1_4k(&long);
    long.extend_from_slice(b"tail that is not covered");
    assert_eq!(hash_prefix_sha1_4k(&long), head);
    long[4095] = 0x62;
    assert_ne!(hash_prefix_sha1_4k(&long), head);
}

#[test]
fn observation_has_a_prefix_only_above_4096_bytes() {
    let small = hash_file(b"hello", 9, 5);
    assert_eq!(small.size, 5);
    assert_eq!(small.mtime_secs, 9);
    assert_eq!(hex(&small.hash256), HELLO_SHA256);
    assert_eq!(small.prefix_fp, None);
    let data = vec![1u8; 4096];
    assert_eq!(hash_file(&data, 0, 4096).prefix_fp, None);
    let data = vec![1u8; 4097];
    let big = hash_file(&data, 0, 4097);
    assert_eq!(big.prefix_fp, Some(hash_prefix_sha1_4k(&data[..4096])));
    assert_eq!(big.hash256, hash_full_sha256(&data));
    assert_eq!(hex(&hash_file(b"hello", 0, 5000).prefix_fp.unwrap()), HELLO_SHA1);
}

#[test]
fn hashing_in_pieces_equals_hashing_whole() {
    let mut data = Vec::new();
    for i in 0..10_000u32 {
        data.push((i % 251) as u8);
    }
    for chunk in [1usize, 7, 4095, 4096, 4097, 10_000] {
        let mut hasher = FileHasher::new(77, data.len() as u64);
        for piece in data.chunks(chunk) {
            hasher.feed(piece);
        }
        assert_eq!(hasher.finish(), hash_file(&data, 77, data.len() as u64));
    }
    let empty = FileHasher::new(1, 0).finish();
    assert_eq!(empty, hash_file(b"", 1, 0));
}

#[test]
fn large_files_are_mapped() {
    assert!(!maps_file(0));
    assert!(!maps_file(32 * 1024 * 1024 - 1));
    assert!(maps_file(32 * 1024 * 1024));
    assert!(maps_file(u64::MAX));
    assert!(!CacheAdvice::SequentialOnly.asks_no_reuse());
    assert!(CacheAdvice::SequentialNoReuse.asks_no_reuse());
    assert!(CacheAdvice::SequentialNoReuseAndDrop.asks_no_reuse());
    assert!(!CacheAdvice::SequentialOnly.drops_after());
    assert!(!CacheAdvice::SequentialNoReuse.drops_after());
    assert!(CacheAdvice::SequentialNoReuseAndDrop.drops_after());
}

#[test]
fn hash_lines_are_parsed() {
    let (bytes, word) = parse_blake256sum_line(HELLO_SHA256).unwrap();
    assert_eq!(hex(&bytes), HELLO_SHA256);
    assert_eq!(word, HELLO_SHA256);
    let line = format!("  {HELLO_SHA256}  some file.txt");
    assert_eq!(parse_blake256sum_line(&line).unwrap().0, bytes);
    let line = format!("{HELLO_SHA256} *binary");
    assert_eq!(parse_blake256sum_line(&line).unwrap().0, bytes);
    let line = format!("\t{HELLO_SHA256}\u{a0}name");
    assert_eq!(parse_blake256sum_line(&line).unwrap().0, bytes);
    let upper = HELLO_SHA256.to_uppercase();
    let (from_upper, word) = parse_blake256sum_line(&upper).unwrap();
    assert_eq!(from_upper, bytes);
    assert_eq!(word, upper);
}

#[test]
fn bad_hash_lines_are_rejected() {
    assert_eq!(parse_blake256sum_line(""), Err(HashParseError::Empty));
    assert_eq!(parse_blake256sum_line(" \t\n"), Err(HashParseError::Empty));
    assert_eq!(parse_blake256sum_line("abc"), Err(HashParseError::BadLength { len: 3 }));
    let long = format!("{HELLO_SHA256}0");
    assert_eq!(parse_blake256sum_line(&long), Err(HashParseError::BadLength { len: 65 }));
    let glued = format!("{HELLO_SHA256}*file");
    assert_eq!(parse_blake256sum_line(&glued), Err(HashParseError::BadLength { len: 69 }));
    let bad = format!("g{}", &HELLO_SHA256[1..]);
    assert_eq!(parse_blake256sum_line(&bad), Err(HashParseError::InvalidHex));
    let bad = format!("{}é", &HELLO_SHA256[..62]);
    assert_eq!(parse_blake256sum_line(&bad), Err(HashParseError::InvalidHex));
    let first_word_only = format!("xyz {HELLO_SHA256}");
    assert_eq!(parse_blake256sum_line(&first_word_only), Err(HashParseError::BadLength { len: 3 }));
}

#[test]
fn hex_digits_of_either_case_decode() {
    let text = "000102030405060708090a0B0c0D0e0Ff0F1e2E3d4D5c6C7b8B9a9AafFfe7f80";
    let bytes = decode_hex_32(text).unwrap();
    assert_eq!(&bytes[..16], &[0, 1, 2, 3, 4, 5, 6, 7, 8, 9, 10, 11, 12, 13, 14, 15]);
    assert_eq!(
        &bytes[16..],
        &[0xf0, 0xf1, 0xe2, 0xe3, 0xd4, 0xd5, 0xc6, 0xc7, 0xb8, 0xb9, 0xa9, 0xaa, 0xff, 0xfe, 0x7f, 0x80]
    );
    assert_eq!(decode_hex_32(""), Err(HashParseError::BadLength { len: 0 }));
    let bad = format!("{}/", &text[..63]);
    assert_eq!(decode_hex_32(&bad), Err(HashParseError::InvalidHex));
    let bad = format!(":{}", &text[1..]);
    assert_eq!(decode_hex_32(&bad), Err(HashParseError::InvalidHex));
    let bad = format!("{}@{}", &text[..10], &text[11..]);
    assert_eq!(decode_hex_32(&bad), Err(HashParseError::InvalidHex));
    let bad = format!("{}`{}", &text[..10], &text[11..]);
    assert_eq!(decode_hex_32(&bad), Err(HashParseError::InvalidHex));
    let bad = format!("{}G{}", &text[..10], &text[11..]);
    assert_eq!(decode_hex_32(&bad), Err(HashParseError::InvalidHex));
}

#[test]
fn whitespace_is_what_the_language_calls_whitespace() {
    for code in 0u32..0x3100 {
        if let Some(c) = char::from_u32(code) {
            assert_eq!(is_whitespace(c), c.is_whitespace(), "U+{code:04X}");
        }
    }
    assert!(!is_whitespace('\u{feff}'));
    assert!(!is_whitespace('\u{10ffff}'));
}

#[test]
fn status_tokens() {
    assert_eq!(Status::Exists.token(), "EXISTS");
    assert_eq!(Status::KnownRemoved.token(), "KNOWN_REMOVED");
    assert_eq!(Status::NotFound.token(), "NOT_FOUND");
}

#[test]
fn status_from_entries() {
    let e = |state| ShaEntry {
        file_id: 1,
        state,
        path: "/p".to_string(),
        meta: FileMeta::new(1, 1, [0u8; 32], None),
    };
    assert_eq!(classify(&vec![]), Status::NotFound);
    assert_eq!(classify(&vec![e(FileState::Missing), e(FileState::Replaced)]), Status::KnownRemoved);
    assert_eq!(classify(&vec![e(FileState::Missing), e(FileState::Live)]), Status::Exists);
}

#[test]
fn peers_are_the_live_entries_but_the_own() {
    let e = |file_id, state, path: &str| ShaEntry {
        file_id,
        state,
        path: path.to_string(),
        meta: FileMeta::new(1, 1, [0u8; 32], None),
    };
    let entries = vec![
        e(1, FileState::Live, "/z"),
        e(2, FileState::Missing, "/y"),
        e(3, FileState::Live, "/b"),
        e(4, FileState::Replaced, "/a"),
        e(5, FileState::Live, "/m"),
    ];
    let ids = |v: &Vec<ShaEntry>| v.iter().map(|e| e.file_id).collect::<Vec<u64>>();
    assert_eq!(ids(&peers_of(entries.clone(), Some(5))), vec![3, 1]);
    assert_eq!(ids(&peers_of(entries.clone(), None)), vec![3, 5, 1]);
    assert_eq!(ids(&peers_of(entries.clone(), Some(9))), vec![3, 5, 1]);
    assert_eq!(ids(&former_of(entries.clone(), None)), vec![4, 2]);
    assert_eq!(ids(&former_of(entries.clone(), Some(4))), vec![2]);
    assert_eq!(count_live(&peers_of(entries.clone(), Some(5))), 2);
    assert_eq!(count_live(&entries), 3);
    let own = vec![e(1, FileState::Live, "/z"), e(2, FileState::Missing, "/y")];
    assert!(peers_of(own, Some(1)).is_empty());
    assert!(peers_of(Vec::new(), None).is_empty());
}

#[test]
fn path_verdict_from_disk_and_record() {
    let cur = |state, size, mtime_secs| {
        Some(CurrentByPath {
            file_id: 1,
            state,
            meta: FileMeta::new(size, mtime_secs, [0u8; 32], None),
            sha256: [0u8; 32],
        })
    };
    let file = DiskView::File { size: 10, mtime_secs: 20 };
    assert_eq!(judge_path(&cur(FileState::Live, 10, 20), file), PathVerdict::Settled(Status::Exists));
    assert_eq!(judge_path(&cur(FileState::Live, 10, 21), file), PathVerdict::NeedsHash);
    assert_eq!(judge_path(&cur(FileState::Replaced, 10, 20), file), PathVerdict::NeedsHash);
    assert_eq!(judge_path(&None, file), PathVerdict::NeedsHash);
    assert_eq!(
        judge_path(&cur(FileState::Missing, 10, 20), DiskView::Absent),
        PathVerdict::Settled(Status::KnownRemoved)
    );
    assert_eq!(
        judge_path(&cur(FileState::Replaced, 10, 20), DiskView::Absent),
        PathVerdict::Settled(Status::NotFound)
    );
    assert_eq!(judge_path(&None, DiskView::Absent), PathVerdict::Settled(Status::NotFound));
    assert_eq!(
        judge_path(&cur(FileState::Live, 10, 20), DiskView::NotAFile),
        PathVerdict::Settled(Status::NotFound)
    );
}

#[test]
fn keeper_by_policy() {
    let entries = vec![
        entry(1, "/m/middle", 200),
        entry(2, "/z", 300),
        entry(3, "/a/longest/path", 100),
        entry(4, "/b", 0),
    ];
    assert_eq!(kept(&entries, Preserve::Oldest), "/a/longest/path");
    assert_eq!(kept(&entries, Preserve::Newest), "/z");
    assert_eq!(kept(&entries, Preserve::ShortestPath), "/b");
    assert_eq!(kept(&entries, Preserve::LongestPath), "/a/longest/path");
    assert_eq!(kept(&entries, Preserve::AlphaFirst), "/a/longest/path");
    assert_eq!(kept(&entries, Preserve::AlphaLast), "/z");
}

#[test]
fn unknown_mtimes_come_last_for_oldest_and_newest() {
    let entries = vec![entry(1, "/a", 0), entry(2, "/b", 0), entry(3, "/c", 50)];
    assert_eq!(kept(&entries, Preserve::Oldest), "/c");
    assert_eq!(kept(&entries, Preserve::Newest), "/c");
    let unknown = vec![entry(1, "/y", 0), entry(2, "/x", 0)];
    assert_eq!(kept(&unknown, Preserve::Oldest), "/x");
    assert_eq!(kept(&unknown, Preserve::Newest), "/x");
}

#[test]
fn ties_break_by_path() {
    let entries = vec![entry(1, "/q/b", 7), entry(2, "/q/a", 7), entry(3, "/q/c", 7)];
    assert_eq!(kept(&entries, Preserve::Oldest), "/q/a");
    assert_eq!(kept(&entries, Preserve::Newest), "/q/a");
    assert_eq!(kept(&entries, Preserve::ShortestPath), "/q/a");
    assert_eq!(kept(&entries, Preserve::LongestPath), "/q/a");
    assert!(is_preferred(Preserve::Oldest, &entries[1], &entries[0]));
    assert!(!is_preferred(Preserve::Oldest, &entries[0], &entries[1]));
    assert!(is_preferred(Preserve::AlphaLast, &entries[2], &entries[0]));
    assert!(is_preferred(Preserve::AlphaFirst, &entries[0], &entries[0]));
}

#[test]
fn plan_keeps_exactly_one_of_a_fully_selected_group() {
    let g = group(vec![entry(1, "/r/a", 3), entry(2, "/r/b", 2), entry(3, "/r/c", 1)]);
    let all = PathFilter::new("/", &[]);
    for policy in [
        Preserve::Oldest,
        Preserve::Newest,
        Preserve::ShortestPath,
        Preserve::LongestPath,
        Preserve::AlphaFirst,
        Preserve::AlphaLast,
    ] {
        let plan = plan_group(&g, &all, policy).unwrap();
        let keeper = plan.keeper.unwrap();
        assert_eq!(plan.to_delete.len(), 2);
        assert!(plan.to_delete.iter().all(|e| e.file_id != keeper.file_id));
    }
    let plan = plan_group(&g, &all, Preserve::Oldest).unwrap();
    assert_eq!(plan.keeper.unwrap().path, "/r/c");
    let doomed: Vec<u64> = plan.to_delete.iter().map(|e| e.file_id).collect();
    assert_eq!(doomed, vec![1, 2]);
}

#[test]
fn plan_outside_the_selection_is_empty() {
    let g = group(vec![entry(1, "/r/a", 3), entry(2, "/r/b", 2)]);
    let elsewhere = PathFilter::new("/", &["/s".to_string()]);
    let plan = plan_group(&g, &elsewhere, Preserve::Oldest).unwrap();
    assert!(plan.keeper.is_none());
    assert!(plan.to_delete.is_empty());
}

#[test]
fn plan_that_would_not_leave_exactly_one_is_rejected() {
    let g = group(vec![entry(1, "/r/a", 1), entry(1, "/r/a", 1), entry(2, "/r/b", 2)]);
    let all = PathFilter::new("/", &[]);
    assert_eq!(
        plan_group(&g, &all, Preserve::Oldest).err(),
        Some(PlanRejected { group_len: 3, delete_len: 1 })
    );
    assert!(plan_group(&g, &all, Preserve::Newest).is_ok());
}

#[test]
fn sort_is_stable_and_by_path() {
    let sorted = sort(vec![
        entry(1, "/b", 0),
        entry(2, "/a", 0),
        entry(3, "/b", 0),
        entry(4, "/ab", 0),
        entry(5, "/a", 0),
        entry(6, "/B", 0),
    ]);
    let got: Vec<(u64, &str)> = sorted.iter().map(|e| (e.file_id, e.path.as_str())).collect();
    assert_eq!(got, vec![(6, "/B"), (2, "/a"), (5, "/a"), (4, "/ab"), (1, "/b"), (3, "/b")]);
    assert!(sort(Vec::<DupeEntry>::new()).is_empty());
    let many: Vec<DupeEntry> =
        (0..1000u64).map(|i| entry(i, &format!("/f/{:04}", (i * 7919) % 1000), 0)).collect();
    let sorted = sort(many);
    assert!(sorted.windows(2).all(|w| w[0].path <= w[1].path));
    assert_eq!(sorted.len(), 1000);
}

#[test]
fn id_lists_stay_ascending_and_unique() {
    let mut ids = vec![];
    assert!(fid_list_insert(&mut ids, 5));
    assert!(fid_list_insert(&mut ids, 9));
    assert!(fid_list_insert(&mut ids, 1));
    assert!(fid_list_insert(&mut ids, 7));
    assert!(!fid_list_insert(&mut ids, 5));
    assert!(!fid_list_insert(&mut ids, 9));
    assert_eq!(ids, vec![1, 5, 7, 9]);
    assert!(fid_list_insert(&mut ids, u64::MAX));
    assert!(fid_list_insert(&mut ids, 0));
    assert_eq!(ids, vec![0, 1, 5, 7, 9, u64::MAX]);
}

#[test]
fn seen_set_holds_paths() {
    let mut seen = SeenSet::new();
    assert_eq!(seen.len(), 0);
    assert!(seen.insert("/a".to_string()));
    assert!(!seen.insert("/a".to_string()));
    assert!(seen.insert("/b".to_string()));
    assert!(seen.contains("/a"));
    assert!(!seen.contains("/c"));
    assert_eq!(seen.len(), 2);
}

#[test]
fn thread_and_queue_sizes() {
    assert_eq!(worker_threads(Some(4), Some(16)), 4);
    assert_eq!(worker_threads(Some(0), Some(16)), 1);
    assert_eq!(worker_threads(None, Some(16)), 15);
    assert_eq!(worker_threads(None, Some(2)), 1);
    assert_eq!(worker_threads(None, Some(1)), 1);
    assert_eq!(worker_threads(None, Some(0)), 1);
    assert_eq!(worker_threads(None, None), 1);
    assert_eq!(job_queue_capacity(3), 768);
    assert_eq!(result_queue_capacity(3), 24576);
    assert_eq!(job_queue_capacity(0), 0);
    assert_eq!(job_queue_capacity(usize::MAX), usize::MAX);
    assert_eq!(result_queue_capacity(usize::MAX / 2), usize::MAX);
}

#[test]
fn only_changed_regular_files_are_hashed() {
    let file = DiskView::File { size: 10, mtime_secs: 20 };
    assert!(wants_hash(file, None));
    assert!(!wants_hash(file, Some((10, 20))));
    assert!(wants_hash(file, Some((10, 21))));
    assert!(wants_hash(file, Some((11, 20))));
    assert!(!wants_hash(DiskView::File { size: 0, mtime_secs: 20 }, None));
    assert!(!wants_hash(DiskView::NotAFile, None));
    assert!(!wants_hash(DiskView::Absent, Some((1, 1))));
}

#[test]
fn directories_are_entered_once() {
    let mut guard = DirGuard::new();
    assert!(guard.lets_in(true, Some((1, 10))));
    assert!(!guard.lets_in(true, Some((1, 10))));
    assert!(guard.lets_in(true, Some((10, 1))));
    assert!(guard.lets_in(true, Some((2, 10))));
    assert!(guard.lets_in(false, Some((1, 10))));
    assert!(guard.lets_in(true, None));
    assert!(guard.lets_in(true, None));
    assert!(guard.lets_in(true, Some((u64::MAX, u64::MAX))));
    assert!(!guard.lets_in(true, Some((u64::MAX, u64::MAX))));
    assert!(guard.lets_in(true, Some((0, 0))));
    assert!(guard.lets_in(false, Some((7, 7))));
    assert!(guard.lets_in(true, Some((7, 7))));
}
