//! Names of tables and counters.

use vstd::prelude::*;

verus! {

/// Table: path string to path identifier.
pub const PATH_TO_ID: &'static str = "path_to_id";

/// Table: path identifier to path string.
pub const ID_TO_PATH: &'static str = "id_to_path";

/// Table: named counter to its value.
pub const KV_U64: &'static str = "kv_u64";

/// Table: path identifier to the file identifier of its latest observation.
pub const PATH_CURRENT: &'static str = "path_current";

/// Table: file identifier to its encoded observation.
pub const FILE_META: &'static str = "file_meta";

/// Table: file identifier to the path identifier it was observed at.
pub const FILE_TO_PATH: &'static str = "file_to_path";

/// Table: file identifier to its state code.
pub const FILE_STATE: &'static str = "file_state";

/// Table: content hash to the packed list of file identifiers with that content.
pub const HASH256_TO_FILES: &'static str = "hash256_to_files";

/// Counter: the next path identifier to hand out.
pub const KEY_NEXT_PATH_ID: &'static str = "next_path_id";

/// Counter: the next file identifier to hand out.
pub const KEY_NEXT_FILE_ID: &'static str = "next_file_id";

/// The path shown for an observation whose path is not on record.
pub const UNKNOWN_PATH: &'static str = "<unknown-path>";

/// The first identifier of either kind.
pub const FIRST_ID: u64 = 1;

/// The names of the eight tables, in the order in which a write transaction opens them.
pub open spec fn write_tables() -> Seq<Seq<char>> {
    seq![
        PATH_TO_ID@,
        ID_TO_PATH@,
        KV_U64@,
        PATH_CURRENT@,
        FILE_META@,
        FILE_TO_PATH@,
        FILE_STATE@,
        HASH256_TO_FILES@,
    ]
}

/// The names of the seven tables that queries read, in the order in which
/// a read transaction opens them.
pub open spec fn read_tables() -> Seq<Seq<char>> {
    seq![
        PATH_TO_ID@,
        ID_TO_PATH@,
        PATH_CURRENT@,
        FILE_META@,
        FILE_TO_PATH@,
        FILE_STATE@,
        HASH256_TO_FILES@,
    ]
}

/// No table has an empty name.
pub proof fn lemma_table_names()
    ensures
        PATH_TO_ID@.len() > 0,
        ID_TO_PATH@.len() > 0,
        KV_U64@.len() > 0,
        PATH_CURRENT@.len() > 0,
        FILE_META@.len() > 0,
        FILE_TO_PATH@.len() > 0,
        FILE_STATE@.len() > 0,
        HASH256_TO_FILES@.len() > 0,
{
    reveal_strlit("path_to_id");
    reveal_strlit("id_to_path");
    reveal_strlit("kv_u64");
    reveal_strlit("path_current");
    reveal_strlit("file_meta");
    reveal_strlit("file_to_path");
    reveal_strlit("file_state");
    reveal_strlit("hash256_to_files");
}

/// The two counters have different names.
pub proof fn lemma_counter_keys_differ()
    ensures
        KEY_NEXT_PATH_ID@ != KEY_NEXT_FILE_ID@,
{
    reveal_strlit("next_path_id");
    reveal_strlit("next_file_id");
    assert(KEY_NEXT_PATH_ID@[5] == 'p');
    assert(KEY_NEXT_FILE_ID@[5] == 'f');
}

} // verus!
