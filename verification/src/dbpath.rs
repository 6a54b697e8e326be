//! Where a database lives, and whether its directory can be used.

use crate::model::{BACKSLASH, SLASH};
use crate::lex::str_bytes;
use vstd::prelude::*;
use vstd::string::{StrSliceExecFns, StringExecFns};

verus! {

/// Name of the key-value data file inside a database directory.
pub const DB_FILE: &'static str = "index.redb";

/// Name of the metadata file inside a database directory.
pub const META_FILE: &'static str = "meta.toml";

/// Name of the lock file inside a database directory.
pub const LOCK_FILE: &'static str = "LOCK";

/// What the metadata file of a new database says.
pub const META_CONTENTS: &'static str =
    "# deldupes database metadata\nformat = 1\napp = \"deldupes\"\ndb_kind = \"redb\"\nhash_full = \"sha256\"\nhash_prefix = \"sha1_4k_if_gt_4k\"\n";

/// What a database directory was found to be.
#[derive(Debug, Clone, Copy, PartialEq, Eq)]
pub enum DbDirState {
    /// The directory is empty, or does not exist yet: a database is to be set up in it.
    Empty,
    /// The directory holds the data file and the metadata file.
    LooksValid,
}

/// Why a database directory cannot be used.
#[derive(Debug, Clone, Copy, PartialEq, Eq)]
pub enum DbPathError {
    /// A database was named, and the platform gives no place for data.
    NoDataDir,
    /// The path is there and is not a directory.
    NotADirectory,
    /// The directory holds something, but not both files of a database.
    NotADatabase,
}

/// Whether the text holds no path separator, so that it names a database
/// rather than giving its place.
pub open spec fn names_only(s: Seq<u8>) -> bool {
    forall|i: int| 0 <= i < s.len() ==> #[trigger] s[i] != SLASH && s[i] != BACKSLASH
}

/// Whether the text holds no path separator.
pub fn is_name_only(s: &str) -> (r: bool)
    ensures
        r == names_only(str_bytes(s@)),
{
    let bytes = s.as_bytes();
    let n: usize = bytes.len();
    let mut i: usize = 0;
    while i < n
        invariant
            n == bytes@.len(),
            i <= n,
            bytes@ == str_bytes(s@),
            forall|k: int| 0 <= k < i ==> #[trigger] bytes@[k] != SLASH && bytes@[k] != BACKSLASH,
        decreases n - i,
    {
        if bytes[i] == SLASH || bytes[i] == BACKSLASH {
            assert(bytes@[i as int] == SLASH || bytes@[i as int] == BACKSLASH);
            return false;
        }
        i = i + 1;
    }
    true
}

/// The path of `name` inside the directory `base`: `name` itself where it
/// starts at the root or `base` is empty, else `base`, a slash unless
/// `base` ends in one, and `name`.
pub open spec fn path_inside(base: Seq<char>, name: Seq<char>) -> Seq<char> {
    if (name.len() > 0 && name[0] == '/') || base.len() == 0 {
        name
    } else if base.last() == '/' {
        base + name
    } else {
        base + seq!['/'] + name
    }
}

/// The path of `name` inside the directory `base`.
pub fn join_path(base: &str, name: &str) -> (r: String)
    ensures
        r@ == path_inside(base@, name@),
{
    proof {
        reveal_strlit("/");
    }
    let n: usize = base.unicode_len();
    let m: usize = name.unicode_len();
    if (m > 0 && name.get_char(0) == '/') || n == 0 {
        return name.to_owned();
    }
    let mut out: String = base.to_owned();
    if base.get_char(n - 1) != '/' {
        out.append("/");
        assert("/"@ =~= seq!['/']);
    }
    out.append(name);
    out
}

/// The directory of a database: for a bare name the directory of that
/// name inside the platform's place for data, else the text itself as a path.
pub fn resolve_db_dir(db: &str, data_dir: Option<&str>) -> (r: Result<String, DbPathError>)
    ensures
        match r {
            Ok(dir) => if names_only(str_bytes(db@)) {
                data_dir matches Some(base) && dir@ == path_inside(base@, db@)
            } else {
                dir@ == db@
            },
            Err(e) => e == DbPathError::NoDataDir && names_only(str_bytes(db@)) && data_dir is None,
        },
{
    if is_name_only(db) {
        match data_dir {
            Some(base) => Ok(join_path(base, db)),
            None => Err(DbPathError::NoDataDir),
        }
    } else {
        Ok(db.to_owned())
    }
}

/// The paths of the data file, the metadata file and the lock file of a database directory.
pub fn expected_paths(db_dir: &str) -> (r: (String, String, String))
    ensures
        r.0@ == path_inside(db_dir@, DB_FILE@),
        r.1@ == path_inside(db_dir@, META_FILE@),
        r.2@ == path_inside(db_dir@, LOCK_FILE@),
{
    (join_path(db_dir, DB_FILE), join_path(db_dir, META_FILE), join_path(db_dir, LOCK_FILE))
}

/// What a database directory is, from what was found at its path: whether
/// anything is there, whether it is a directory, whether the directory is
/// empty, and whether it holds the data file and the metadata file.
pub open spec fn dir_state(
    exists: bool,
    is_dir: bool,
    is_empty: bool,
    has_db: bool,
    has_meta: bool,
) -> Result<DbDirState, DbPathError> {
    if !exists {
        Ok(DbDirState::Empty)
    } else if !is_dir {
        Err(DbPathError::NotADirectory)
    } else if is_empty {
        Ok(DbDirState::Empty)
    } else if has_db && has_meta {
        Ok(DbDirState::LooksValid)
    } else {
        Err(DbPathError::NotADatabase)
    }
}

/// Decides whether a directory can be opened as a database: a directory
/// that holds anything must hold both files of a database.
pub fn classify_db_dir(exists: bool, is_dir: bool, is_empty: bool, has_db: bool, has_meta: bool) -> (r:
    Result<DbDirState, DbPathError>)
    ensures
        r == dir_state(exists, is_dir, is_empty, has_db, has_meta),
{
    if !exists {
        Ok(DbDirState::Empty)
    } else if !is_dir {
        Err(DbPathError::NotADirectory)
    } else if is_empty {
        Ok(DbDirState::Empty)
    } else if has_db && has_meta {
        Ok(DbDirState::LooksValid)
    } else {
        Err(DbPathError::NotADatabase)
    }
}

/// Whether a database has to be set up in the directory before it is opened.
pub fn needs_init(state: DbDirState) -> (r: bool)
    ensures
        r == (state is Empty),
{
    match state {
        DbDirState::Empty => true,
        DbDirState::LooksValid => false,
    }
}

/// Checks, once a directory was set up where needed, that both files of a database are there.
pub fn check_complete(has_db: bool, has_meta: bool) -> (r: Result<(), DbPathError>)
    ensures
        r is Ok <==> has_db && has_meta,
        r matches Err(e) ==> e == DbPathError::NotADatabase,
{
    if has_db && has_meta {
        Ok(())
    } else {
        Err(DbPathError::NotADatabase)
    }
}

} // verus!
