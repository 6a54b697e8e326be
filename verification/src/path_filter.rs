//! A filter of paths by directory prefixes.

use crate::lex::{begins_with, same_bytes, starts_with_bytes, str_bytes};
use crate::model::{BACKSLASH, SLASH};
use crate::path_utils::{normal_form, normalize_path};
use vstd::prelude::*;
use vstd::slice::slice_to_vec;

verus! {

/// A normalized path without the slash it may end in.
pub open spec fn trimmed(path: Seq<u8>) -> Seq<u8> {
    if path.len() > 0 && path.last() == SLASH {
        path.drop_last()
    } else {
        path
    }
}

/// Whether the path is the prefix itself, or the prefix followed at once
/// by a slash or a backslash.
pub open spec fn has_path_prefix(path: Seq<u8>, prefix: Seq<u8>) -> bool {
    path == prefix || (begins_with(path, prefix) && path.len() > prefix.len() && (
    path[prefix.len() as int] == SLASH || path[prefix.len() as int] == BACKSLASH))
}

/// Whether the path has one of the prefixes.
pub open spec fn has_any_prefix(path: Seq<u8>, prefixes: Seq<Seq<u8>>) -> bool {
    exists|i: int| 0 <= i < prefixes.len() && has_path_prefix(path, #[trigger] prefixes[i])
}

/// Whether a filter with these prefixes lets the path through: one without
/// prefixes lets every path through.
pub open spec fn lets_through(prefixes: Seq<Seq<u8>>, path: Seq<u8>) -> bool {
    prefixes.len() == 0 || has_any_prefix(path, prefixes)
}

/// The prefixes of the filter made of `paths` in the working directory
/// `cwd`: each path in normal form, without the slash it may end in.
pub open spec fn prefixes_of(cwd: Seq<char>, paths: Seq<String>) -> Seq<Seq<u8>> {
    Seq::new(paths.len(), |i: int| trimmed(normal_form(str_bytes(cwd), str_bytes(paths[i]@))))
}

/// A path that goes on after a prefix with anything but a separator does not have that prefix.
pub proof fn lemma_prefix_ends_at_boundary(path: Seq<u8>, prefix: Seq<u8>)
    requires
        path.len() > prefix.len(),
        path[prefix.len() as int] != SLASH,
        path[prefix.len() as int] != BACKSLASH,
    ensures
        !has_path_prefix(path, prefix),
{
}

/// A path has itself as a prefix, and that of every path made from it by a
/// separator and anything after.
pub proof fn lemma_prefix_covers_subtree(prefix: Seq<u8>, rest: Seq<u8>)
    ensures
        has_path_prefix(prefix, prefix),
        has_path_prefix(prefix + seq![SLASH] + rest, prefix),
        has_path_prefix(prefix + seq![BACKSLASH] + rest, prefix),
{
    let a = prefix + seq![SLASH] + rest;
    let b = prefix + seq![BACKSLASH] + rest;
    assert(a.take(prefix.len() as int) =~= prefix);
    assert(b.take(prefix.len() as int) =~= prefix);
}

/// Whether the path is the prefix or lies below it.
pub fn starts_with_path_prefix(path: &str, prefix: &str) -> (r: bool)
    ensures
        r == has_path_prefix(str_bytes(path@), str_bytes(prefix@)),
{
    bytes_have_prefix(path.as_bytes(), prefix.as_bytes())
}

/// Whether the path is the prefix or lies below it, on bytes.
fn bytes_have_prefix(path: &[u8], prefix: &[u8]) -> (r: bool)
    ensures
        r == has_path_prefix(path@, prefix@),
{
    if same_bytes(path, prefix) {
        return true;
    }
    if !starts_with_bytes(path, prefix) {
        return false;
    }
    if path.len() > prefix.len() {
        let next: u8 = path[prefix.len()];
        next == SLASH || next == BACKSLASH
    } else {
        false
    }
}

/// Lets through the paths that are under one of a set of directories.
#[derive(Debug, Clone)]
pub struct PathFilter {
    prefixes: Vec<Vec<u8>>,
}

impl View for PathFilter {
    type V = Seq<Seq<u8>>;

    /// The prefixes, as bytes.
    closed spec fn view(&self) -> Seq<Seq<u8>> {
        self.prefixes@.map_values(|p: Vec<u8>| p@)
    }
}

impl PathFilter {
    /// The filter for the given paths, each taken as seen from the working
    /// directory `cwd`. With no paths the filter lets everything through.
    pub fn new(cwd: &str, paths: &[String]) -> (r: PathFilter)
        ensures
            r@ == prefixes_of(cwd@, paths@),
    {
        let mut prefixes: Vec<Vec<u8>> = Vec::new();
        let n: usize = paths.len();
        let mut i: usize = 0;
        while i < n
            invariant
                n == paths@.len(),
                i <= n,
                prefixes@.len() == i,
                forall|k: int|
                    0 <= k < i ==> (#[trigger] prefixes@[k])@ == prefixes_of(cwd@, paths@)[k],
            decreases n - i,
        {
            let norm = normalize_path(cwd, paths[i].as_str());
            let mut bytes: Vec<u8> = slice_to_vec(norm.as_str().as_bytes());
            if bytes.len() > 0 && bytes[bytes.len() - 1] == SLASH {
                bytes.pop();
            }
            prefixes.push(bytes);
            i = i + 1;
        }
        let r = PathFilter { prefixes };
        assert(r@ =~= prefixes_of(cwd@, paths@));
        r
    }

    pub fn is_empty(&self) -> (r: bool)
        ensures
            r == (self@.len() == 0),
    {
        self.prefixes.len() == 0
    }

    /// Whether the filter lets the path through: it has no prefixes, or the
    /// path is one of them or lies below one.
    pub fn matches(&self, path: &str) -> (r: bool)
        ensures
            r == lets_through(self@, str_bytes(path@)),
    {
        let n: usize = self.prefixes.len();
        if n == 0 {
            return true;
        }
        let bytes = path.as_bytes();
        let mut i: usize = 0;
        while i < n
            invariant
                n == self.prefixes@.len(),
                i <= n,
                bytes@ == str_bytes(path@),
                forall|k: int| 0 <= k < i ==> !has_path_prefix(bytes@, #[trigger] self@[k]),
            decreases n - i,
        {
            assert(self@[i as int] == self.prefixes@[i as int]@);
            if bytes_have_prefix(bytes, self.prefixes[i].as_slice()) {
                return true;
            }
            i = i + 1;
        }
        false
    }
}

} // verus!
