use deldupes::check::{
    check_by_sha, check_path, count_live, former_of, peers_of, DiskView, PathVerdict, Status,
};
use deldupes::db::{DbHandle, SeenSet, StoreError};
use deldupes::delete::{deleted_file_ids, plan_group, Preserve};
use deldupes::dupe_groups::load_live_dupe_groups;
use deldupes::file_meta::{DecodeError, FileMeta, FileState};
use deldupes::hashing::hash_file;
use deldupes::path_filter::PathFilter;
use deldupes::scan::{enqueue_if_candidate, hash_result, Writer, BATCH_SIZE};
use deldupes::stats::{compute, unique_bytes, Stats};

type Item = (String, Vec<u8>, [u8; 32]);

fn mem_db() -> DbHandle {
    let db = redb::Database::builder()
        .create_with_backend(redb::backends::InMemoryBackend::new())
        .unwrap();
    let handle = DbHandle::new("mem".to_string(), db);
    handle.ensure_schema().unwrap();
    handle
}

fn item(path: &str, content: &[u8], mtime: u64) -> Item {
    let meta = hash_file(content, mtime, content.len() as u64);
    (path.to_string(), meta.encode(), meta.hash256)
}

fn no_filter() -> PathFilter {
    PathFilter::new("/", &[])
}

fn filter_on(path: &str) -> PathFilter {
    PathFilter::new("/", &[path.to_string()])
}

/// Three copies of "hello" at /r/a, /r/b/c, /r/b/d with mtimes 100 < 200 < 300.
fn scanned_three() -> DbHandle {
    let db = mem_db();
    db.write_batch_versions(&[
        item("/r/b/d", b"hello", 300),
        item("/r/a", b"hello", 100),
        item("/r/b/c", b"hello", 200),
    ])
    .unwrap();
    db
}

fn state_at(db: &DbHandle, path: &str) -> FileState {
    db.get_current_by_path(path).unwrap().unwrap().state
}

fn fid_at(db: &DbHandle, path: &str) -> u64 {
    db.get_current_by_path(path).unwrap().unwrap().file_id
}

#[test]
fn queries_fail_before_the_tables_exist() {
    let db = redb::Database::builder()
        .create_with_backend(redb::backends::InMemoryBackend::new())
        .unwrap();
    let handle = DbHandle::new("mem".to_string(), db);
    assert!(matches!(handle.get_current_by_path("/x"), Err(StoreError::Backend(_))));
    handle.ensure_schema().unwrap();
    assert!(matches!(handle.get_current_by_path("/x"), Ok(None)));
    handle.ensure_schema().unwrap();
}

#[test]
fn path_ids_are_dense_and_stable() {
    let db = mem_db();
    assert_eq!(db.get_or_create_pid("/a").unwrap(), 1);
    assert_eq!(db.get_or_create_pid("/b").unwrap(), 2);
    assert_eq!(db.get_or_create_pid("/a").unwrap(), 1);
    assert_eq!(db.get_or_create_pid("/c").unwrap(), 3);
    assert_eq!(db.get_or_create_pid("/b").unwrap(), 2);
}

#[test]
fn file_ids_follow_batch_order() {
    let db = scanned_three();
    assert_eq!(fid_at(&db, "/r/b/d"), 1);
    assert_eq!(fid_at(&db, "/r/a"), 2);
    assert_eq!(fid_at(&db, "/r/b/c"), 3);
    db.write_batch_versions(&[item("/r/e", b"other", 5)]).unwrap();
    assert_eq!(fid_at(&db, "/r/e"), 4);
}

#[test]
fn current_observation_is_read_back() {
    let db = scanned_three();
    let cur = db.get_current_by_path("/r/a").unwrap().unwrap();
    let meta = hash_file(b"hello", 100, 5);
    assert_eq!(cur.file_id, 2);
    assert_eq!(cur.state, FileState::Live);
    assert_eq!(cur.meta, meta);
    assert_eq!(cur.sha256, meta.hash256);
    assert_eq!(db.get_current_size_mtime_by_path("/r/a").unwrap(), Some((5, 100)));
    assert_eq!(db.get_current_size_mtime_by_path("/r/zzz").unwrap(), None);
    assert!(db.get_current_by_path("/r").unwrap().is_none());
}

#[test]
fn scan_and_dupes() {
    let db = scanned_three();
    let groups = load_live_dupe_groups(&db, &filter_on("/r")).unwrap();
    assert_eq!(groups.len(), 1);
    let g = &groups[0];
    assert_eq!(g.hash256, hash_file(b"hello", 0, 5).hash256);
    assert_eq!(g.header_path, "/r/a");
    let paths: Vec<&str> = g.entries.iter().map(|e| e.path.as_str()).collect();
    assert_eq!(paths, vec!["/r/a", "/r/b/c", "/r/b/d"]);
    let ids: Vec<u64> = g.entries.iter().map(|e| e.file_id).collect();
    assert_eq!(ids, vec![2, 3, 1]);
    assert!(g.entries.iter().all(|e| e.size == 5));
    let mtimes: Vec<u64> = g.entries.iter().map(|e| e.mtime).collect();
    assert_eq!(mtimes, vec![100, 200, 300]);

    let by_path = deldupes::dupes::load_groups(&db).unwrap();
    assert_eq!(by_path.len(), 1);
    assert_eq!(
        by_path[0].sha256_hex,
        "2cf24dba5fb0a30e26e83b2ac5b9e29e1b161e5c1fa7425e73043362938b9824"
    );
    assert_eq!(by_path[0].paths, vec!["/r/a", "/r/b/c", "/r/b/d"]);
    assert_eq!(
        deldupes::dupes::group_lines(&by_path[0]),
        vec!["/r/a", "  /r/b/c", "  /r/b/d", ""]
    );
}

#[test]
fn dupes_are_filtered_by_group() {
    let db = scanned_three();
    db.write_batch_versions(&[item("/s/x", b"twice", 1), item("/s/y", b"twice", 2)]).unwrap();
    assert_eq!(load_live_dupe_groups(&db, &no_filter()).unwrap().len(), 2);
    let only_b = load_live_dupe_groups(&db, &filter_on("/r/b")).unwrap();
    assert_eq!(only_b.len(), 1);
    assert_eq!(only_b[0].entries.len(), 3);
    assert_eq!(load_live_dupe_groups(&db, &filter_on("/nowhere")).unwrap().len(), 0);
    let by_path = deldupes::dupes::load_groups(&db).unwrap();
    let kept = deldupes::dupes::filter_groups(by_path.clone(), &filter_on("/s"));
    assert_eq!(kept.len(), 1);
    assert_eq!(kept[0].header_path, "/s/x");
    assert_eq!(deldupes::dupes::filter_groups(by_path, &no_filter()).len(), 2);
}

#[test]
fn groups_are_ordered_by_header_path_then_hash() {
    let db = mem_db();
    db.write_batch_versions(&[
        item("/z/1", b"zz", 1),
        item("/z/2", b"zz", 1),
        item("/a/long/path", b"aa", 1),
        item("/b", b"aa", 1),
        item("/m/1", b"mm", 1),
        item("/m/2", b"mm", 1),
    ])
    .unwrap();
    let groups = load_live_dupe_groups(&db, &no_filter()).unwrap();
    let headers: Vec<&str> = groups.iter().map(|g| g.header_path.as_str()).collect();
    assert_eq!(headers, vec!["/b", "/m/1", "/z/1"]);
    let first: Vec<&str> = groups[0].entries.iter().map(|e| e.path.as_str()).collect();
    assert_eq!(first, vec!["/a/long/path", "/b"]);
}

#[test]
fn dupes_depend_on_the_database_only() {
    let fill = |db: &DbHandle| {
        db.write_batch_versions(&[
            item("/k/2", b"kk", 2),
            item("/k/1", b"kk", 1),
            item("/j/1", b"jj", 1),
            item("/j/2", b"jj", 2),
            item("/j/3", b"jj", 3),
        ])
        .unwrap();
    };
    let show = |db: &DbHandle| -> Vec<(String, [u8; 32], Vec<(u64, String, u64, u64)>)> {
        load_live_dupe_groups(db, &no_filter())
            .unwrap()
            .into_iter()
            .map(|g| {
                let entries =
                    g.entries.into_iter().map(|e| (e.file_id, e.path, e.size, e.mtime)).collect();
                (g.header_path, g.hash256, entries)
            })
            .collect()
    };
    let one = mem_db();
    let two = mem_db();
    fill(&one);
    fill(&two);
    let first = show(&one);
    assert_eq!(first.len(), 2);
    assert_eq!(show(&one), first);
    assert_eq!(show(&two), first);
    let _ = compute(&one).unwrap();
    let _ = one.lookup_files_by_sha256(&first[0].1).unwrap();
    assert_eq!(show(&one), first);
}

#[test]
fn header_is_the_shortest_path_then_the_first_by_name() {
    let db = mem_db();
    db.write_batch_versions(&[
        item("/x/bb", b"same", 1),
        item("/x/ab", b"same", 1),
        item("/a/very/long", b"same", 1),
    ])
    .unwrap();
    let groups = load_live_dupe_groups(&db, &no_filter()).unwrap();
    assert_eq!(groups[0].header_path, "/x/ab");
}

#[test]
fn a_single_copy_is_no_group() {
    let db = mem_db();
    db.write_batch_versions(&[item("/one", b"alone", 1)]).unwrap();
    assert!(load_live_dupe_groups(&db, &no_filter()).unwrap().is_empty());
    assert!(deldupes::dupes::load_groups(&db).unwrap().is_empty());
}

#[test]
fn changed_content_makes_one_new_version() {
    let db = scanned_three();
    let before = db.get_current_by_path("/r/a").unwrap().unwrap();
    db.write_batch_versions(&[item("/r/a", b"changed", 150)]).unwrap();
    let after = db.get_current_by_path("/r/a").unwrap().unwrap();
    assert_eq!(after.file_id, 4);
    assert_eq!(after.state, FileState::Live);
    assert_eq!(after.meta, hash_file(b"changed", 150, 7));
    let old = db.lookup_files_by_sha256(&before.sha256).unwrap();
    let states: Vec<(u64, FileState)> = old.iter().map(|e| (e.file_id, e.state)).collect();
    assert_eq!(
        states,
        vec![(1, FileState::Live), (2, FileState::Replaced), (3, FileState::Live)]
    );
    assert!(old.iter().all(|e| e.meta.hash256 == before.sha256));
    let new = db.lookup_files_by_sha256(&after.sha256).unwrap();
    assert_eq!(new.len(), 1);
    assert_eq!(new[0].file_id, 4);
    assert_eq!(new[0].path, "/r/a");
    let groups = load_live_dupe_groups(&db, &no_filter()).unwrap();
    assert_eq!(groups.len(), 1);
    assert_eq!(groups[0].entries.len(), 2);
    assert_eq!(groups[0].header_path, "/r/b/c");
}

#[test]
fn hash_index_lists_every_version_once_and_in_order() {
    let db = mem_db();
    for round in 0..5u64 {
        db.write_batch_versions(&[item("/p", b"same", round), item("/q", b"same", round)])
            .unwrap();
    }
    let hash = hash_file(b"same", 0, 4).hash256;
    let entries = db.lookup_files_by_sha256(&hash).unwrap();
    let ids: Vec<u64> = entries.iter().map(|e| e.file_id).collect();
    assert_eq!(ids, (1..=10).collect::<Vec<u64>>());
    assert!(entries.iter().all(|e| e.meta.hash256 == hash));
    let live: Vec<u64> =
        entries.iter().filter(|e| e.state == FileState::Live).map(|e| e.file_id).collect();
    assert_eq!(live, vec![9, 10]);
    assert!(db.lookup_files_by_sha256(&[7u8; 32]).unwrap().is_empty());
}

#[test]
fn rescan_without_changes_is_idle() {
    let db = scanned_three();
    let before = compute(&db).unwrap();
    let mut seen = SeenSet::new();
    for (path, mtime) in [("/r/a", 100u64), ("/r/b/c", 200), ("/r/b/d", 300)] {
        let job = enqueue_if_candidate(
            &db,
            &mut seen,
            path,
            DiskView::File { size: 5, mtime_secs: mtime },
        )
        .unwrap();
        assert!(job.is_none());
    }
    assert_eq!(seen.len(), 3);
    db.write_batch_versions(&[]).unwrap();
    assert_eq!(db.mark_missing_not_seen(&["/r".to_string()], &seen).unwrap(), 0);
    assert_eq!(compute(&db).unwrap(), before);
    assert_eq!(fid_at(&db, "/r/a"), 2);
}

#[test]
fn changed_or_new_files_are_enqueued() {
    let db = scanned_three();
    let mut seen = SeenSet::new();
    let job = enqueue_if_candidate(&db, &mut seen, "/r/a", DiskView::File { size: 6, mtime_secs: 100 })
        .unwrap()
        .unwrap();
    assert_eq!((job.path.as_str(), job.size, job.mtime), ("/r/a", 6, 100));
    let job = enqueue_if_candidate(&db, &mut seen, "/r/a", DiskView::File { size: 5, mtime_secs: 101 })
        .unwrap()
        .unwrap();
    assert_eq!((job.size, job.mtime), (5, 101));
    let job = enqueue_if_candidate(&db, &mut seen, "/r/new", DiskView::File { size: 1, mtime_secs: 0 })
        .unwrap()
        .unwrap();
    assert_eq!(job.path, "/r/new");
    assert!(enqueue_if_candidate(&db, &mut seen, "/r/empty", DiskView::File { size: 0, mtime_secs: 9 })
        .unwrap()
        .is_none());
    assert!(enqueue_if_candidate(&db, &mut seen, "/r/dir", DiskView::NotAFile).unwrap().is_none());
    assert!(enqueue_if_candidate(&db, &mut seen, "/r/gone", DiskView::Absent).unwrap().is_none());
    assert!(seen.contains("/r/a"));
    assert!(seen.contains("/r/empty"));
    assert!(seen.contains("/r/dir"));
    assert!(seen.contains("/r/gone"));
    assert!(!seen.contains("/r/b/c"));
    assert_eq!(seen.len(), 5);
}

#[test]
fn missing_detection_marks_only_the_removed_file() {
    let db = scanned_three();
    let mut seen = SeenSet::new();
    seen.insert("/r/b/c".to_string());
    seen.insert("/r/b/d".to_string());
    assert_eq!(db.mark_missing_not_seen(&["/r".to_string()], &seen).unwrap(), 1);
    assert_eq!(state_at(&db, "/r/a"), FileState::Missing);
    assert_eq!(state_at(&db, "/r/b/c"), FileState::Live);
    assert_eq!(state_at(&db, "/r/b/d"), FileState::Live);
    assert_eq!(db.mark_missing_not_seen(&["/r".to_string()], &seen).unwrap(), 0);
}

#[test]
fn missing_detection_stays_within_the_roots() {
    let db = scanned_three();
    db.write_batch_versions(&[item("/rx/file", b"x", 1), item("/other", b"y", 1)]).unwrap();
    let seen = SeenSet::new();
    assert_eq!(db.mark_missing_not_seen(&["/r/b".to_string()], &seen).unwrap(), 2);
    assert_eq!(state_at(&db, "/r/a"), FileState::Live);
    assert_eq!(state_at(&db, "/r/b/c"), FileState::Missing);
    assert_eq!(state_at(&db, "/r/b/d"), FileState::Missing);
    assert_eq!(db.mark_missing_not_seen(&["/r".to_string()], &seen).unwrap(), 1);
    assert_eq!(state_at(&db, "/rx/file"), FileState::Live);
    assert_eq!(state_at(&db, "/other"), FileState::Live);
    assert_eq!(db.mark_missing_not_seen(&[], &seen).unwrap(), 0);
}

#[test]
fn marking_files_missing_skips_what_is_not_live() {
    let db = scanned_three();
    db.write_batch_versions(&[item("/r/a", b"again", 1)]).unwrap();
    db.mark_files_missing(&[1, 2, 99, 1]).unwrap();
    let hello = hash_file(b"hello", 0, 5).hash256;
    let states: Vec<FileState> =
        db.lookup_files_by_sha256(&hello).unwrap().iter().map(|e| e.state).collect();
    assert_eq!(states, vec![FileState::Missing, FileState::Replaced, FileState::Live]);
    assert_eq!(state_at(&db, "/r/a"), FileState::Live);
}

#[test]
fn delete_oldest_preserve() {
    let db = scanned_three();
    let filter = filter_on("/r");
    let groups = load_live_dupe_groups(&db, &filter).unwrap();
    let plan = plan_group(&groups[0], &filter, Preserve::Oldest).unwrap();
    assert_eq!(plan.keeper.as_ref().unwrap().path, "/r/a");
    let doomed: Vec<&str> = plan.to_delete.iter().map(|e| e.path.as_str()).collect();
    assert_eq!(doomed, vec!["/r/b/c", "/r/b/d"]);
    let ids = deleted_file_ids(&plan);
    assert_eq!(ids, vec![3, 1]);
    db.mark_files_missing(&ids).unwrap();
    assert_eq!(state_at(&db, "/r/a"), FileState::Live);
    assert_eq!(state_at(&db, "/r/b/c"), FileState::Missing);
    assert_eq!(state_at(&db, "/r/b/d"), FileState::Missing);
    assert!(load_live_dupe_groups(&db, &no_filter()).unwrap().is_empty());
}

#[test]
fn partial_selection_delete() {
    let db = scanned_three();
    let filter = filter_on("/r/b");
    let groups = load_live_dupe_groups(&db, &filter).unwrap();
    assert_eq!(groups.len(), 1);
    let plan = plan_group(&groups[0], &filter, Preserve::Newest).unwrap();
    assert!(plan.keeper.is_none());
    let doomed: Vec<&str> = plan.to_delete.iter().map(|e| e.path.as_str()).collect();
    assert_eq!(doomed, vec!["/r/b/c", "/r/b/d"]);
    db.mark_files_missing(&deleted_file_ids(&plan)).unwrap();
    assert_eq!(state_at(&db, "/r/a"), FileState::Live);
}

#[test]
fn check_by_path_and_hash() {
    let db = scanned_three();
    let (verdict, cur) =
        check_path(&db, "/r/a", DiskView::File { size: 5, mtime_secs: 100 }).unwrap();
    assert_eq!(verdict, PathVerdict::Settled(Status::Exists));
    let cur = cur.unwrap();
    let (status, entries) = check_by_sha(&db, &cur.sha256).unwrap();
    assert_eq!(status, Status::Exists);
    let peers = peers_of(entries, Some(cur.file_id));
    let paths: Vec<&str> = peers.iter().map(|e| e.path.as_str()).collect();
    assert_eq!(paths, vec!["/r/b/c", "/r/b/d"]);
    assert_eq!(count_live(&peers), 2);

    db.mark_files_missing(&[3, 1]).unwrap();
    let (verdict, cur) =
        check_path(&db, "/r/a", DiskView::File { size: 5, mtime_secs: 100 }).unwrap();
    assert_eq!(verdict, PathVerdict::Settled(Status::Exists));
    let (status, entries) = check_by_sha(&db, &cur.unwrap().sha256).unwrap();
    assert_eq!(status, Status::Exists);
    assert_eq!(entries.len(), 3);
    assert!(peers_of(entries.clone(), Some(2)).is_empty());
    let former = former_of(entries, Some(2));
    let paths: Vec<&str> = former.iter().map(|e| e.path.as_str()).collect();
    assert_eq!(paths, vec!["/r/b/c", "/r/b/d"]);
    assert_eq!(count_live(&former), 0);
    let (verdict, _) = check_path(&db, "/r/b/c", DiskView::Absent).unwrap();
    assert_eq!(verdict, PathVerdict::Settled(Status::KnownRemoved));
}

#[test]
fn check_by_path_verdicts() {
    let db = scanned_three();
    let file = |size, mtime_secs| DiskView::File { size, mtime_secs };
    assert_eq!(check_path(&db, "/r/a", file(5, 101)).unwrap().0, PathVerdict::NeedsHash);
    assert_eq!(check_path(&db, "/r/a", file(6, 100)).unwrap().0, PathVerdict::NeedsHash);
    assert_eq!(check_path(&db, "/unknown", file(5, 100)).unwrap().0, PathVerdict::NeedsHash);
    assert_eq!(
        check_path(&db, "/r/a", DiskView::Absent).unwrap().0,
        PathVerdict::Settled(Status::NotFound)
    );
    assert_eq!(
        check_path(&db, "/unknown", DiskView::Absent).unwrap().0,
        PathVerdict::Settled(Status::NotFound)
    );
    let (verdict, cur) = check_path(&db, "/r/a", DiskView::NotAFile).unwrap();
    assert_eq!(verdict, PathVerdict::Settled(Status::NotFound));
    assert!(cur.is_none());
    db.mark_files_missing(&[2]).unwrap();
    assert_eq!(check_path(&db, "/r/a", file(5, 100)).unwrap().0, PathVerdict::NeedsHash);
}

#[test]
fn check_by_hash_statuses() {
    let db = scanned_three();
    let hash = hash_file(b"hello", 0, 5).hash256;
    assert_eq!(check_by_sha(&db, &hash).unwrap().0, Status::Exists);
    assert_eq!(check_by_sha(&db, &[0u8; 32]).unwrap().0, Status::NotFound);
    db.mark_files_missing(&[1, 2]).unwrap();
    assert_eq!(check_by_sha(&db, &hash).unwrap().0, Status::Exists);
    db.mark_files_missing(&[3]).unwrap();
    let (status, entries) = check_by_sha(&db, &hash).unwrap();
    assert_eq!(status, Status::KnownRemoved);
    assert_eq!(entries.len(), 3);
    assert!(peers_of(entries.clone(), None).is_empty());
    assert_eq!(former_of(entries, None).len(), 3);
}

#[test]
fn stats_of_three_copies() {
    let db = scanned_three();
    let st = compute(&db).unwrap();
    assert_eq!(
        st,
        Stats {
            live_files: 3,
            live_bytes: 15,
            total_versions: 3,
            replaced_versions: 0,
            missing_versions: 0,
            dupe_groups: 1,
            dupe_extra_files: 2,
            dupe_bytes: 10,
        }
    );
    assert_eq!(unique_bytes(&st), 5);
}

#[test]
fn stats_count_history() {
    let db = scanned_three();
    db.write_batch_versions(&[item("/r/a", b"longer text", 7), item("/u", b"unique", 1)]).unwrap();
    db.mark_files_missing(&[1]).unwrap();
    let st = compute(&db).unwrap();
    assert_eq!(
        st,
        Stats {
            live_files: 3,
            live_bytes: 5 + 11 + 6,
            total_versions: 5,
            replaced_versions: 1,
            missing_versions: 1,
            dupe_groups: 0,
            dupe_extra_files: 0,
            dupe_bytes: 0,
        }
    );
    assert_eq!(compute(&mem_db()).unwrap(), Stats::default());
}

#[test]
fn corrupt_encoding_is_reported_with_its_file_id() {
    let db = mem_db();
    let good = item("/good", b"data", 1);
    db.write_batch_versions(&[
        good.clone(),
        ("/bad".to_string(), vec![1, 0, 3], good.2),
        ("/worse".to_string(), vec![9u8; 60], [5u8; 32]),
    ])
    .unwrap();
    assert!(matches!(
        db.get_current_by_path("/bad"),
        Err(StoreError::Corrupt { file_id: 2, cause: DecodeError::TooShort { len: 3 } })
    ));
    assert!(matches!(
        db.get_current_size_mtime_by_path("/worse"),
        Err(StoreError::Corrupt { file_id: 3, cause: DecodeError::UnknownVersion { version: 9 } })
    ));
    assert!(matches!(
        db.get_current_size_mtime_by_path("/bad"),
        Err(StoreError::Corrupt { file_id: 2, cause: DecodeError::TooShort { len: 3 } })
    ));
    assert!(matches!(
        db.lookup_files_by_sha256(&good.2),
        Err(StoreError::Corrupt { file_id: 2, .. })
    ));
    assert!(matches!(
        load_live_dupe_groups(&db, &no_filter()),
        Err(StoreError::Corrupt { file_id: 2, .. })
    ));
    assert!(matches!(compute(&db), Err(StoreError::Corrupt { file_id: 2, .. })));
    assert!(matches!(
        deldupes::potential::load_groups(&db),
        Err(StoreError::Corrupt { file_id: 2, .. })
    ));
    assert!(db.get_current_by_path("/good").unwrap().is_some());
    assert_eq!(deldupes::dupes::load_groups(&db).unwrap().len(), 1);
}

#[test]
fn size_and_mtime_are_read_without_the_prefix_fingerprint() {
    let db = mem_db();
    let whole = FileMeta::new(9000, 77, [8u8; 32], Some([1u8; 20])).encode();
    db.write_batch_versions(&[("/cut".to_string(), whole[..60].to_vec(), [8u8; 32])]).unwrap();
    assert_eq!(db.get_current_size_mtime_by_path("/cut").unwrap(), Some((9000, 77)));
    assert!(matches!(
        db.get_current_by_path("/cut"),
        Err(StoreError::Corrupt { file_id: 1, cause: DecodeError::PrefixTruncated { len: 60 } })
    ));
    let mut seen = SeenSet::new();
    let same = DiskView::File { size: 9000, mtime_secs: 77 };
    assert!(enqueue_if_candidate(&db, &mut seen, "/cut", same).unwrap().is_none());
}

#[test]
fn writer_flushes_full_batches_and_the_rest() {
    let db = mem_db();
    let mut writer = Writer::new();
    for i in 0..3u64 {
        let meta = hash_file(b"w", i, 1);
        writer.accept(&db, hash_result(format!("/w/{i}"), meta)).unwrap();
    }
    assert_eq!(writer.pending_len(), 3);
    assert_eq!(writer.indexed_count(), 0);
    assert!(db.get_current_by_path("/w/0").unwrap().is_none());
    assert_eq!(writer.finish(&db).unwrap(), 3);
    assert_eq!(writer.pending_len(), 0);
    assert_eq!(fid_at(&db, "/w/2"), 3);
    assert_eq!(writer.finish(&db).unwrap(), 3);
}

#[test]
fn writer_commits_when_the_batch_is_full() {
    let db = mem_db();
    let mut writer = Writer::new();
    let meta = FileMeta::new(1, 1, [3u8; 32], None);
    for i in 0..BATCH_SIZE {
        assert_eq!(writer.pending_len(), i);
        writer.accept(&db, hash_result(format!("/f{i}"), meta)).unwrap();
    }
    assert_eq!(writer.pending_len(), 0);
    assert_eq!(writer.indexed_count(), BATCH_SIZE as u64);
    assert_eq!(fid_at(&db, "/f0"), 1);
    assert_eq!(fid_at(&db, &format!("/f{}", BATCH_SIZE - 1)), BATCH_SIZE as u64);
}

#[test]
fn potential_duplicates() {
    let db = mem_db();
    let mut small = vec![7u8; 5000];
    let mut large = vec![7u8; 6000];
    small[4999] = 1;
    large[5999] = 2;
    let twin_a = vec![9u8; 4500];
    db.write_batch_versions(&[
        item("/p/small", &small, 1),
        item("/p/large", &large, 1),
        item("/p/twin1", &twin_a, 1),
        item("/p/twin2", &twin_a, 1),
        item("/p/tiny", b"tiny", 1),
    ])
    .unwrap();
    let groups = deldupes::potential::load_groups(&db).unwrap();
    assert_eq!(groups.len(), 1);
    let listed: Vec<(&str, u64)> =
        groups[0].entries.iter().map(|e| (e.path.as_str(), e.size)).collect();
    assert_eq!(listed, vec![("/p/large", 6000), ("/p/small", 5000)]);
    assert_eq!(groups[0].key, hash_file(&small, 0, 5000).prefix_fp.unwrap());
    assert_eq!(groups[0].entries[0].hash256, hash_file(&large, 0, 6000).hash256);

    let kept = deldupes::potential::filter_groups(groups.clone(), &no_filter(), Some(5000), None);
    assert_eq!(kept.len(), 1);
    let kept = deldupes::potential::filter_groups(groups.clone(), &no_filter(), Some(5001), None);
    assert!(kept.is_empty());
    let kept = deldupes::potential::filter_groups(groups.clone(), &filter_on("/q"), None, None);
    assert!(kept.is_empty());
    let kept = deldupes::potential::filter_groups(groups, &filter_on("/p"), None, Some(6000));
    assert_eq!(kept[0].entries.len(), 2);
}

#[test]
fn potential_needs_two_distinct_contents() {
    let db = mem_db();
    let a = vec![1u8; 5000];
    let mut b = vec![1u8; 5000];
    b[4500] = 0;
    let mut c = vec![1u8; 7000];
    c[6999] = 3;
    db.write_batch_versions(&[item("/a1", &a, 1), item("/a2", &a, 1), item("/b", &b, 1)]).unwrap();
    assert!(deldupes::potential::load_groups(&db).unwrap().is_empty());
    db.write_batch_versions(&[item("/c", &c, 1)]).unwrap();
    let groups = deldupes::potential::load_groups(&db).unwrap();
    assert_eq!(groups.len(), 1);
    let paths: Vec<&str> = groups[0].entries.iter().map(|e| e.path.as_str()).collect();
    assert_eq!(paths, vec!["/c", "/b"]);
    db.mark_files_missing(&[4]).unwrap();
    assert!(deldupes::potential::load_groups(&db).unwrap().is_empty());
}

fn set_counter(db: &DbHandle, name: &str, value: u64) {
    let tx = db.db.begin_write().unwrap();
    {
        let mut t = tx.open_table(redb::TableDefinition::<&str, u64>::new("kv_u64")).unwrap();
        t.insert(name, value).unwrap();
    }
    tx.commit().unwrap();
}

fn forget_path_of_file(db: &DbHandle, fid: u64) {
    let tx = db.db.begin_write().unwrap();
    {
        let mut t = tx.open_table(redb::TableDefinition::<u64, u64>::new("file_to_path")).unwrap();
        t.remove(fid).unwrap();
    }
    tx.commit().unwrap();
}

#[test]
fn a_batch_that_runs_out_of_file_ids_leaves_nothing_behind() {
    let db = scanned_three();
    set_counter(&db, "next_file_id", u64::MAX - 1);
    let r = db.write_batch_versions(&[item("/n/1", b"one", 1), item("/n/2", b"two", 2)]);
    assert!(matches!(r, Err(StoreError::IdsExhausted)));
    assert!(db.get_current_by_path("/n/1").unwrap().is_none());
    assert!(db.get_current_by_path("/n/2").unwrap().is_none());
    assert_eq!(db.get_or_create_pid("/n/1").unwrap(), 4);
    db.write_batch_versions(&[item("/n/1", b"one", 1)]).unwrap();
    assert_eq!(fid_at(&db, "/n/1"), u64::MAX - 1);
    assert!(matches!(
        db.write_batch_versions(&[item("/n/1", b"next", 1)]),
        Err(StoreError::IdsExhausted)
    ));
    assert_eq!(state_at(&db, "/n/1"), FileState::Live);
}

#[test]
fn running_out_of_path_ids_is_an_error() {
    let db = scanned_three();
    set_counter(&db, "next_path_id", u64::MAX);
    assert!(matches!(db.get_or_create_pid("/new"), Err(StoreError::IdsExhausted)));
    assert!(matches!(
        db.write_batch_versions(&[item("/new", b"x", 1)]),
        Err(StoreError::IdsExhausted)
    ));
    assert_eq!(db.get_or_create_pid("/r/a").unwrap(), 2);
    db.write_batch_versions(&[item("/r/a", b"x", 1)]).unwrap();
    assert_eq!(fid_at(&db, "/r/a"), 4);
}

#[test]
fn batches_use_the_path_ids_that_were_handed_out() {
    let db = mem_db();
    assert_eq!(db.get_or_create_pid("/first").unwrap(), 1);
    db.write_batch_versions(&[item("/second", b"2", 1), item("/first", b"1", 1)]).unwrap();
    assert_eq!(db.get_or_create_pid("/second").unwrap(), 2);
    assert_eq!(db.get_or_create_pid("/first").unwrap(), 1);
    assert_eq!(fid_at(&db, "/second"), 1);
    assert_eq!(fid_at(&db, "/first"), 2);
}

#[test]
fn an_observation_without_a_path_is_shown_with_a_placeholder() {
    let db = scanned_three();
    forget_path_of_file(&db, 2);
    let hello = hash_file(b"hello", 0, 5).hash256;
    let paths: Vec<String> =
        db.lookup_files_by_sha256(&hello).unwrap().into_iter().map(|e| e.path).collect();
    assert_eq!(paths, vec!["/r/b/d", "<unknown-path>", "/r/b/c"]);
    let groups = load_live_dupe_groups(&db, &no_filter()).unwrap();
    assert_eq!(groups.len(), 1);
    let listed: Vec<&str> = groups[0].entries.iter().map(|e| e.path.as_str()).collect();
    assert_eq!(listed, vec!["/r/b/c", "/r/b/d"]);
    assert_eq!(compute(&db).unwrap().dupe_extra_files, 2);
}

#[test]
fn records_without_a_prefix_fingerprint_are_left_out_of_potential_groups() {
    let db = mem_db();
    let mut a = vec![4u8; 5000];
    let mut b = vec![4u8; 5000];
    let mut c = vec![4u8; 5000];
    a[4999] = 1;
    b[4999] = 2;
    c[4999] = 3;
    let old = FileMeta::new(5000, 1, hash_file(&c, 1, 5000).hash256, None);
    db.write_batch_versions(&[
        item("/h/a", &a, 1),
        ("/h/c".to_string(), old.encode(), old.hash256),
    ])
    .unwrap();
    assert!(deldupes::potential::load_groups(&db).unwrap().is_empty());
    db.write_batch_versions(&[item("/h/b", &b, 1)]).unwrap();
    let groups = deldupes::potential::load_groups(&db).unwrap();
    assert_eq!(groups.len(), 1);
    let paths: Vec<&str> = groups[0].entries.iter().map(|e| e.path.as_str()).collect();
    assert_eq!(paths, vec!["/h/a", "/h/b"]);
}

#[test]
fn potential_groups_are_ordered_by_their_first_path() {
    let db = mem_db();
    let file = |fill: u8, len: usize, mark: u8| {
        let mut v = vec![fill; len];
        v[len - 1] = mark;
        v
    };
    db.write_batch_versions(&[
        item("/z/big", &file(1, 9000, 1), 1),
        item("/a/small", &file(1, 5000, 2), 1),
        item("/m/big", &file(2, 8000, 1), 1),
        item("/b/small", &file(2, 8000, 2), 1),
    ])
    .unwrap();
    let groups = deldupes::potential::load_groups(&db).unwrap();
    let shown: Vec<Vec<&str>> = groups
        .iter()
        .map(|g| g.entries.iter().map(|e| e.path.as_str()).collect())
        .collect();
    assert_eq!(shown, vec![vec!["/b/small", "/m/big"], vec!["/z/big", "/a/small"]]);
}

#[test]
fn deleting_under_any_policy_leaves_every_content_alive() {
    let policies = [
        Preserve::Oldest,
        Preserve::Newest,
        Preserve::ShortestPath,
        Preserve::LongestPath,
        Preserve::AlphaFirst,
        Preserve::AlphaLast,
    ];
    let filters: [&[&str]; 4] = [&[], &["/r"], &["/r/b", "/s"], &["/s/x"]];
    let contents: [&[u8]; 3] = [b"hello", b"twice", b"once"];
    for policy in policies {
        for prefixes in filters {
            let db = scanned_three();
            db.write_batch_versions(&[
                item("/s/x", b"twice", 0),
                item("/s/y", b"twice", 9),
                item("/t/z", b"once", 3),
            ])
            .unwrap();
            let owned: Vec<String> = prefixes.iter().map(|p| p.to_string()).collect();
            let filter = PathFilter::new("/", &owned);
            for g in load_live_dupe_groups(&db, &filter).unwrap() {
                let plan = plan_group(&g, &filter, policy).unwrap();
                assert!(plan.to_delete.len() < g.entries.len());
                db.mark_files_missing(&deleted_file_ids(&plan)).unwrap();
            }
            for content in contents {
                let hash = hash_file(content, 0, content.len() as u64).hash256;
                assert_eq!(check_by_sha(&db, &hash).unwrap().0, Status::Exists);
            }
            if prefixes.is_empty() {
                assert!(load_live_dupe_groups(&db, &filter).unwrap().is_empty());
                assert_eq!(compute(&db).unwrap().live_files, 3);
            }
        }
    }
}

fn db_without_tables() -> DbHandle {
    let db = redb::Database::builder()
        .create_with_backend(redb::backends::InMemoryBackend::new())
        .unwrap();
    DbHandle::new("mem".to_string(), db)
}

#[test]
fn finishing_with_nothing_pending_does_not_ask_the_database() {
    let db = db_without_tables();
    let mut writer = Writer::new();
    assert_eq!(writer.finish(&db).unwrap(), 0);
    assert_eq!(writer.pending_len(), 0);
    assert_eq!(writer.indexed_count(), 0);
    writer.accept(&db, hash_result("/w".to_string(), hash_file(b"w", 1, 1))).unwrap();
    assert_eq!(writer.pending_len(), 1);
    db.ensure_schema().unwrap();
    assert_eq!(writer.finish(&db).unwrap(), 1);
    assert_eq!(writer.finish(&db).unwrap(), 1);
}

#[test]
fn what_is_no_regular_file_is_settled_without_the_database() {
    let db = db_without_tables();
    let (verdict, cur) = check_path(&db, "/r/dir", DiskView::NotAFile).unwrap();
    assert_eq!(verdict, PathVerdict::Settled(Status::NotFound));
    assert!(cur.is_none());
    assert!(matches!(check_path(&db, "/r/gone", DiskView::Absent), Err(StoreError::Backend(_))));
    let mut seen = SeenSet::new();
    assert!(enqueue_if_candidate(&db, &mut seen, "/r/dir", DiskView::NotAFile).unwrap().is_none());
    assert!(enqueue_if_candidate(&db, &mut seen, "/r/gone", DiskView::Absent).unwrap().is_none());
    let empty = DiskView::File { size: 0, mtime_secs: 1 };
    assert!(enqueue_if_candidate(&db, &mut seen, "/r/empty", empty).unwrap().is_none());
    let file = DiskView::File { size: 1, mtime_secs: 1 };
    assert!(matches!(
        enqueue_if_candidate(&db, &mut seen, "/r/file", file),
        Err(StoreError::Backend(_))
    ));
    assert_eq!(seen.len(), 4);
}

#[test]
fn a_failed_flush_keeps_what_is_pending() {
    let db = db_without_tables();
    set_counter_after_schema(&db);
    let mut writer = Writer::new();
    writer.accept(&db, hash_result("/x".to_string(), hash_file(b"x", 1, 1))).unwrap();
    assert!(matches!(writer.finish(&db), Err(StoreError::IdsExhausted)));
    assert_eq!(writer.pending_len(), 1);
    assert_eq!(writer.indexed_count(), 0);
    assert!(matches!(writer.flush(&db), Err(StoreError::IdsExhausted)));
    assert_eq!(writer.pending_len(), 1);
}

fn set_counter_after_schema(db: &DbHandle) {
    db.ensure_schema().unwrap();
    set_counter(db, "next_file_id", u64::MAX);
}

#[test]
fn empty_inputs_succeed_and_change_nothing() {
    let db = scanned_three();
    db.write_batch_versions(&[]).unwrap();
    db.mark_files_missing(&[]).unwrap();
    assert_eq!(db.mark_missing_not_seen(&[], &SeenSet::new()).unwrap(), 0);
    assert_eq!(compute(&db).unwrap().total_versions, 3);
    assert_eq!(compute(&db).unwrap().live_files, 3);
    assert_eq!(fid_at(&db, "/r/a"), 2);
}

#[test]
fn a_lookup_is_empty_exactly_for_an_unknown_hash() {
    let db = scanned_three();
    let known = hash_file(b"hello", 0, 5).hash256;
    assert_eq!(db.lookup_files_by_sha256(&known).unwrap().len(), 3);
    assert!(db.lookup_files_by_sha256(&hash_file(b"other", 0, 5).hash256).unwrap().is_empty());
    db.mark_files_missing(&[1, 2, 3]).unwrap();
    assert_eq!(db.lookup_files_by_sha256(&known).unwrap().len(), 3);
}

#[test]
fn missing_detection_counts_what_it_marks() {
    let db = scanned_three();
    db.write_batch_versions(&[item("/r/a", b"changed", 101)]).unwrap();
    let live_before = compute(&db).unwrap().live_files;
    let missing_before = compute(&db).unwrap().missing_versions;
    let mut seen = SeenSet::new();
    seen.insert("/r/b/c".to_string());
    let marked = db.mark_missing_not_seen(&["/r".to_string()], &seen).unwrap();
    assert_eq!(marked, 2);
    let after = compute(&db).unwrap();
    assert_eq!(live_before - after.live_files, marked);
    assert_eq!(after.missing_versions - missing_before, marked);
    assert_eq!(after.replaced_versions, 1);
}

#[test]
fn no_content_has_two_groups() {
    let db = mem_db();
    db.write_batch_versions(&[
        item("/x/1", b"one", 1),
        item("/y/1", b"two", 1),
        item("/x/2", b"one", 1),
        item("/y/2", b"two", 1),
        item("/x/3", b"one", 1),
    ])
    .unwrap();
    db.write_batch_versions(&[item("/y/3", b"two", 2), item("/x/1", b"two", 2)]).unwrap();
    let groups = load_live_dupe_groups(&db, &no_filter()).unwrap();
    assert_eq!(groups.len(), 2);
    assert_ne!(groups[0].hash256, groups[1].hash256);
    let sizes: Vec<usize> = groups.iter().map(|g| g.entries.len()).collect();
    assert_eq!(sizes, vec![4, 2]);
}

#[test]
fn no_prefix_fingerprint_has_two_groups() {
    let db = mem_db();
    let variant = |fill: u8, tail: u8| {
        let mut v = vec![fill; 5000];
        v[4999] = tail;
        v
    };
    db.write_batch_versions(&[
        item("/p/a1", &variant(1, 1), 1),
        item("/q/b1", &variant(2, 1), 1),
        item("/p/a2", &variant(1, 2), 1),
        item("/q/b2", &variant(2, 2), 1),
        item("/p/a3", &variant(1, 3), 1),
    ])
    .unwrap();
    let groups = deldupes::potential::load_groups(&db).unwrap();
    assert_eq!(groups.len(), 2);
    assert_ne!(groups[0].key, groups[1].key);
    let sizes: Vec<usize> = groups.iter().map(|g| g.entries.len()).collect();
    assert_eq!(sizes, vec![3, 2]);
}

#[test]
fn copies_written_in_path_order_stand_in_the_group_as_written() {
    let db = mem_db();
    db.write_batch_versions(&[
        item("/r/a", b"hello", 100),
        item("/r/b/c", b"hello", 200),
        item("/r/b/d", b"hello", 300),
    ])
    .unwrap();
    let groups = load_live_dupe_groups(&db, &filter_on("/r")).unwrap();
    assert_eq!(groups.len(), 1);
    assert_eq!(groups[0].hash256, hash_file(b"hello", 0, 5).hash256);
    assert_eq!(groups[0].header_path, "/r/a");
    let listed: Vec<(u64, &str, u64, u64)> = groups[0]
        .entries
        .iter()
        .map(|e| (e.file_id, e.path.as_str(), e.size, e.mtime))
        .collect();
    assert_eq!(
        listed,
        vec![(1, "/r/a", 5, 100), (2, "/r/b/c", 5, 200), (3, "/r/b/d", 5, 300)]
    );
}
