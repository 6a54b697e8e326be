use deldupes::db::{is_under_any_root, is_under_root};
use deldupes::dbpath::{
    check_complete, classify_db_dir, expected_paths, is_name_only, join_path, needs_init,
    resolve_db_dir, DbDirState, DbPathError,
};
use deldupes::path_filter::{starts_with_path_prefix, PathFilter};
use deldupes::path_utils::{lexical_normalize, normalize_path};
use deldupes::util::size_in_range;

fn filter_of(paths: &[&str]) -> PathFilter {
    let owned: Vec<String> = paths.iter().map(|p| p.to_string()).collect();
    PathFilter::new("/cwd", &owned)
}

#[test]
fn normalize_resolves_dots_by_text() {
    assert_eq!(normalize_path("/cwd", "/a/./b/../c"), "/a/c");
    assert_eq!(normalize_path("/cwd", "/x//y/"), "/x/y");
    assert_eq!(normalize_path("/cwd", "/"), "/");
    assert_eq!(normalize_path("/cwd", "/.."), "/");
    assert_eq!(normalize_path("/cwd", "/a/../.."), "/");
    assert_eq!(normalize_path("/cwd", "/a/b/../../c/."), "/c");
    assert_eq!(normalize_path("/cwd", "/..a/.b/..."), "/..a/.b/...");
}

#[test]
fn normalize_puts_relative_paths_below_the_working_directory() {
    assert_eq!(normalize_path("/home/u", "x"), "/home/u/x");
    assert_eq!(normalize_path("/home/u", "./x/y"), "/home/u/x/y");
    assert_eq!(normalize_path("/home/u", "../x"), "/home/x");
    assert_eq!(normalize_path("/home/u", ""), "/home/u");
    assert_eq!(normalize_path("/home/u/", "x"), "/home/u/x");
    assert_eq!(normalize_path("/", "x"), "/x");
}

#[test]
fn normalize_keeps_names_that_are_not_ascii() {
    assert_eq!(normalize_path("/cwd", "/é/./ü/../日本"), "/é/日本");
    assert_eq!(normalize_path("/schön", "a b"), "/schön/a b");
}

#[test]
fn lexical_normalize_of_relative_paths() {
    assert_eq!(lexical_normalize("a/../b"), "b");
    assert_eq!(lexical_normalize("../a"), "a");
    assert_eq!(lexical_normalize("./a/"), "a");
    assert_eq!(lexical_normalize(""), "");
    assert_eq!(lexical_normalize("."), "");
    assert_eq!(lexical_normalize("a/b/c"), "a/b/c");
}

#[test]
fn path_filter_boundary() {
    let f = filter_of(&["/home/a"]);
    assert!(!f.is_empty());
    assert!(f.matches("/home/a"));
    assert!(f.matches("/home/a/x"));
    assert!(!f.matches("/home/ab"));
    assert!(!f.matches("/home/ab/x"));
    assert!(!f.matches("/home"));
    assert!(!f.matches("/home/"));
    assert!(f.matches("/home/a/"));
    assert!(f.matches("/home/a\\x"));
    assert!(!f.matches("/HOME/a"));
}

#[test]
fn empty_filter_matches_everything() {
    let f = filter_of(&[]);
    assert!(f.is_empty());
    assert!(f.matches("/anything"));
    assert!(f.matches(""));
}

#[test]
fn filter_paths_are_normalized_and_trimmed() {
    let f = filter_of(&["/home/a/", "rel/../sub"]);
    assert!(f.matches("/home/a/x"));
    assert!(!f.matches("/home/ab"));
    assert!(f.matches("/cwd/sub"));
    assert!(f.matches("/cwd/sub/file"));
    assert!(!f.matches("/cwd/rel/file"));
}

#[test]
fn filter_on_the_root_matches_all_absolute_paths() {
    let f = filter_of(&["/"]);
    assert!(f.matches("/a"));
    assert!(f.matches("/a/b"));
    assert!(!f.matches("a"));
}

#[test]
fn filter_with_several_prefixes() {
    let f = filter_of(&["/a", "/b/c"]);
    assert!(f.matches("/a/1"));
    assert!(f.matches("/b/c"));
    assert!(f.matches("/b/c/d"));
    assert!(!f.matches("/b"));
    assert!(!f.matches("/b/cd"));
}

#[test]
fn path_prefix_is_boundary_aware() {
    assert!(starts_with_path_prefix("/home/a/file", "/home/a"));
    assert!(starts_with_path_prefix("/home/a", "/home/a"));
    assert!(!starts_with_path_prefix("/home/ab/file", "/home/a"));
    assert!(!starts_with_path_prefix("/home", "/home/a"));
    assert!(starts_with_path_prefix("/x", ""));
    assert!(!starts_with_path_prefix("x", ""));
}

#[test]
fn under_root_takes_a_slash_only() {
    assert!(is_under_root(b"/r", b"/r"));
    assert!(is_under_root(b"/r/a", b"/r"));
    assert!(!is_under_root(b"/rx", b"/r"));
    assert!(!is_under_root(b"/r\\a", b"/r"));
    assert!(!is_under_root(b"/", b"/r"));
    assert!(is_under_root(b"/", b"/"));
    assert!(!is_under_root(b"/a", b"/"));
    let roots = vec!["/r".to_string(), "/s/t".to_string()];
    assert!(is_under_any_root("/s/t/u", &roots));
    assert!(is_under_any_root("/r", &roots));
    assert!(!is_under_any_root("/s", &roots));
    assert!(!is_under_any_root("/r", &[]));
}

#[test]
fn bare_names_hold_no_separator() {
    assert!(is_name_only("default"));
    assert!(is_name_only(""));
    assert!(is_name_only("my.db"));
    assert!(!is_name_only("a/b"));
    assert!(!is_name_only("/abs"));
    assert!(!is_name_only("a\\b"));
    assert!(!is_name_only("./x"));
}

#[test]
fn join_puts_a_name_inside_a_directory() {
    assert_eq!(join_path("/data", "x"), "/data/x");
    assert_eq!(join_path("/data/", "x"), "/data/x");
    assert_eq!(join_path("", "x"), "x");
    assert_eq!(join_path("/data", "/abs"), "/abs");
    assert_eq!(join_path("/data", ""), "/data/");
    assert_eq!(join_path("/dätä", "ü"), "/dätä/ü");
}

#[test]
fn database_directory_is_resolved_from_name_or_path() {
    assert_eq!(resolve_db_dir("default", Some("/home/u/.local/share/deldupes")), Ok("/home/u/.local/share/deldupes/default".to_string()));
    assert_eq!(resolve_db_dir("default", None), Err(DbPathError::NoDataDir));
    assert_eq!(resolve_db_dir("./db", None), Ok("./db".to_string()));
    assert_eq!(resolve_db_dir("/var/db", Some("/ignored")), Ok("/var/db".to_string()));
}

#[test]
fn expected_paths_name_the_three_files() {
    let (db, meta, lock) = expected_paths("/var/db");
    assert_eq!(db, "/var/db/index.redb");
    assert_eq!(meta, "/var/db/meta.toml");
    assert_eq!(lock, "/var/db/LOCK");
}

#[test]
fn database_directory_states() {
    assert_eq!(classify_db_dir(false, false, false, false, false), Ok(DbDirState::Empty));
    assert_eq!(classify_db_dir(true, false, false, false, false), Err(DbPathError::NotADirectory));
    assert_eq!(classify_db_dir(true, true, true, false, false), Ok(DbDirState::Empty));
    assert_eq!(classify_db_dir(true, true, false, true, true), Ok(DbDirState::LooksValid));
    assert_eq!(classify_db_dir(true, true, false, true, false), Err(DbPathError::NotADatabase));
    assert_eq!(classify_db_dir(true, true, false, false, true), Err(DbPathError::NotADatabase));
    assert_eq!(classify_db_dir(true, true, false, false, false), Err(DbPathError::NotADatabase));
    assert!(needs_init(DbDirState::Empty));
    assert!(!needs_init(DbDirState::LooksValid));
    assert_eq!(check_complete(true, true), Ok(()));
    assert_eq!(check_complete(true, false), Err(DbPathError::NotADatabase));
    assert_eq!(check_complete(false, true), Err(DbPathError::NotADatabase));
}

#[test]
fn metadata_file_names_format_and_hashes() {
    let text = deldupes::dbpath::META_CONTENTS;
    assert!(text.contains("format = 1\n"));
    assert!(text.contains("app = \"deldupes\"\n"));
    assert!(text.contains("db_kind = \"redb\"\n"));
    assert!(text.contains("hash_full = \"sha256\"\n"));
    assert!(text.contains("hash_prefix = \"sha1_4k_if_gt_4k\"\n"));
}

#[test]
fn size_range_includes_its_ends() {
    assert!(size_in_range(5, None, None));
    assert!(size_in_range(5, Some(5), Some(5)));
    assert!(!size_in_range(4, Some(5), None));
    assert!(!size_in_range(6, None, Some(5)));
    assert!(size_in_range(0, Some(0), None));
    assert!(size_in_range(u64::MAX, None, Some(u64::MAX)));
    assert!(!size_in_range(5, Some(6), Some(4)));
}
