//! Lexical normalization of paths.

use crate::file_meta::push_all;
use crate::lex::str_bytes;
use crate::model::SLASH;
use vstd::prelude::*;
use vstd::utf8::{
    is_char_boundary_iff_not_is_continuation_byte, pop_first_scalar,
    valid_utf8, valid_utf8_concat, valid_utf8_split,
};

verus! {

/// The byte of a path component that stands for a directory itself (one) or
/// its parent (two).
pub const DOT: u8 = 0x2e;

/// Where reading a path stands: the components kept so far, and the bytes
/// read of the component at hand.
pub struct Walk {
    pub kept: Seq<Seq<u8>>,
    pub at_hand: Seq<u8>,
}

/// The components kept once the component at hand has ended: an empty one
/// or a single dot changes nothing, two dots drop the last component kept,
/// if there is one, and any other component is kept.
pub open spec fn closed(kept: Seq<Seq<u8>>, at_hand: Seq<u8>) -> Seq<Seq<u8>> {
    if at_hand.len() == 0 || at_hand == seq![DOT] {
        kept
    } else if at_hand == seq![DOT, DOT] {
        if kept.len() > 0 {
            kept.drop_last()
        } else {
            kept
        }
    } else {
        kept.push(at_hand)
    }
}

/// Where reading stands after all of `bytes`: a slash ends the component at hand.
pub open spec fn walked(bytes: Seq<u8>) -> Walk
    decreases bytes.len(),
{
    if bytes.len() == 0 {
        Walk { kept: Seq::empty(), at_hand: Seq::empty() }
    } else {
        let w = walked(bytes.drop_last());
        if bytes.last() == SLASH {
            Walk { kept: closed(w.kept, w.at_hand), at_hand: Seq::empty() }
        } else {
            Walk { kept: w.kept, at_hand: w.at_hand.push(bytes.last()) }
        }
    }
}

/// The components of the normal form of a path.
pub open spec fn components(bytes: Seq<u8>) -> Seq<Seq<u8>> {
    closed(walked(bytes).kept, walked(bytes).at_hand)
}

/// The components with a slash between each two.
pub open spec fn joined(parts: Seq<Seq<u8>>) -> Seq<u8>
    decreases parts.len(),
{
    if parts.len() == 0 {
        Seq::empty()
    } else if parts.len() == 1 {
        parts[0]
    } else {
        joined(parts.drop_last()) + seq![SLASH] + parts.last()
    }
}

/// Whether a path starts at the root.
pub open spec fn is_absolute(bytes: Seq<u8>) -> bool {
    bytes.len() > 0 && bytes[0] == SLASH
}

/// The lexical normal form of a path: its components without the empty
/// ones and the single dots, each pair of dots resolved against the
/// component before it; a leading slash is kept.
pub open spec fn lexical_normal(bytes: Seq<u8>) -> Seq<u8> {
    if is_absolute(bytes) {
        seq![SLASH] + joined(components(bytes))
    } else {
        joined(components(bytes))
    }
}

/// The path itself if it starts at the root, else the path below the working directory.
pub open spec fn resolved(cwd: Seq<u8>, path: Seq<u8>) -> Seq<u8> {
    if is_absolute(path) {
        path
    } else {
        cwd + seq![SLASH] + path
    }
}

/// The normal form of a path as seen from a working directory.
pub open spec fn normal_form(cwd: Seq<u8>, path: Seq<u8>) -> Seq<u8> {
    lexical_normal(resolved(cwd, path))
}

/// The bytes of each component.
pub open spec fn views(parts: Seq<Vec<u8>>) -> Seq<Seq<u8>> {
    parts.map_values(|v: Vec<u8>| v@)
}

/// Whether every component is UTF-8.
pub open spec fn all_valid(parts: Seq<Seq<u8>>) -> bool {
    forall|k: int| 0 <= k < parts.len() ==> valid_utf8(#[trigger] parts[k])
}

/// Where the component that ends before position `i` begins.
pub open spec fn run_start(bytes: Seq<u8>, i: int) -> int
    decreases i,
{
    if i <= 0 {
        0
    } else if bytes[i - 1] == SLASH {
        i
    } else {
        run_start(bytes, i - 1)
    }
}

/// A stretch of a UTF-8 string between two slashes, or between a slash and
/// an end of the string, is UTF-8.
pub proof fn lemma_between_slashes_valid(bytes: Seq<u8>, s: int, e: int)
    requires
        valid_utf8(bytes),
        0 <= s <= e <= bytes.len(),
        s == 0 || bytes[s - 1] == SLASH,
        e == bytes.len() || bytes[e] == SLASH,
    ensures
        valid_utf8(bytes.subrange(s, e)),
{
    let head = bytes.subrange(0, e);
    if e == bytes.len() {
        assert(head =~= bytes);
    } else {
        is_char_boundary_iff_not_is_continuation_byte(bytes, e);
        valid_utf8_split(bytes, e);
    }
    if s == 0 {
        assert(bytes.subrange(s, e) =~= head);
    } else {
        is_char_boundary_iff_not_is_continuation_byte(head, s - 1);
        valid_utf8_split(head, s - 1);
        let tail = head.subrange(s - 1, head.len() as int);
        assert(tail[0] == SLASH);
        assert(pop_first_scalar(tail) =~= bytes.subrange(s, e));
    }
}

/// The component at hand is the stretch since the last slash.
pub proof fn lemma_at_hand(bytes: Seq<u8>, i: int)
    requires
        0 <= i <= bytes.len(),
    ensures
        walked(bytes.take(i)).at_hand == bytes.subrange(run_start(bytes, i), i),
        0 <= run_start(bytes, i) <= i,
        run_start(bytes, i) == 0 || bytes[run_start(bytes, i) - 1] == SLASH,
    decreases i,
{
    if i == 0 {
        assert(bytes.subrange(0, 0) =~= Seq::<u8>::empty());
    } else {
        lemma_at_hand(bytes, i - 1);
        assert(bytes.take(i).drop_last() =~= bytes.take(i - 1));
        if bytes[i - 1] == SLASH {
            assert(bytes.subrange(i, i) =~= Seq::<u8>::empty());
        } else {
            assert(bytes.subrange(run_start(bytes, i - 1), i - 1).push(bytes[i - 1])
                =~= bytes.subrange(run_start(bytes, i), i));
        }
    }
}

/// Ending a UTF-8 component keeps UTF-8 components only.
pub proof fn lemma_closed_valid(kept: Seq<Seq<u8>>, at_hand: Seq<u8>)
    requires
        all_valid(kept),
        valid_utf8(at_hand),
    ensures
        all_valid(closed(kept, at_hand)),
{
    let out = closed(kept, at_hand);
    assert forall|k: int| 0 <= k < out.len() implies valid_utf8(#[trigger] out[k]) by {
        if k < kept.len() {
            assert(out[k] == kept[k]);
        }
    }
}

/// The components kept while reading a UTF-8 path are UTF-8.
pub proof fn lemma_kept_valid(bytes: Seq<u8>, i: int)
    requires
        valid_utf8(bytes),
        0 <= i <= bytes.len(),
    ensures
        all_valid(walked(bytes.take(i)).kept),
    decreases i,
{
    if i > 0 {
        lemma_kept_valid(bytes, i - 1);
        assert(bytes.take(i).drop_last() =~= bytes.take(i - 1));
        if bytes[i - 1] == SLASH {
            lemma_at_hand(bytes, i - 1);
            lemma_between_slashes_valid(bytes, run_start(bytes, i - 1), i - 1);
            let w = walked(bytes.take(i - 1));
            lemma_closed_valid(w.kept, w.at_hand);
        }
    }
}

/// A single slash is UTF-8.
pub proof fn lemma_slash_valid()
    ensures
        valid_utf8(seq![SLASH]),
{
    let slash = seq![SLASH];
    reveal_with_fuel(valid_utf8, 2);
    assert(0x2fu8 & 0x7f == 0x2f) by (bit_vector);
    assert(pop_first_scalar(slash) =~= Seq::<u8>::empty());
}

/// UTF-8 components joined by slashes are UTF-8.
pub proof fn lemma_joined_valid(parts: Seq<Seq<u8>>)
    requires
        all_valid(parts),
    ensures
        valid_utf8(joined(parts)),
        valid_utf8(seq![SLASH] + joined(parts)),
    decreases parts.len(),
{
    let slash = seq![SLASH];
    lemma_slash_valid();
    if parts.len() >= 2 {
        let rest = parts.drop_last();
        assert(all_valid(rest)) by {
            assert forall|k: int| 0 <= k < rest.len() implies valid_utf8(#[trigger] rest[k]) by {
                assert(rest[k] == parts[k]);
            }
        }
        lemma_joined_valid(rest);
        valid_utf8_concat(joined(rest), slash);
        valid_utf8_concat(joined(rest) + slash, parts.last());
    }
    valid_utf8_concat(slash, joined(parts));
}

/// The lexical normal form of a UTF-8 path is UTF-8.
pub proof fn lemma_lexical_normal_valid(bytes: Seq<u8>)
    requires
        valid_utf8(bytes),
    ensures
        valid_utf8(lexical_normal(bytes)),
{
    let n = bytes.len() as int;
    lemma_kept_valid(bytes, n);
    lemma_at_hand(bytes, n);
    assert(bytes.take(n) =~= bytes);
    lemma_between_slashes_valid(bytes, run_start(bytes, n), n);
    lemma_closed_valid(walked(bytes).kept, walked(bytes).at_hand);
    lemma_joined_valid(components(bytes));
}

/// Calls `String::from_utf8`: bytes that are UTF-8 give a string, and the
/// string that is given has exactly these bytes.
#[verifier::external_body]
fn string_from_utf8(bytes: Vec<u8>) -> (r: Option<String>)
    ensures
        valid_utf8(bytes@) ==> r is Some,
        r matches Some(s) ==> str_bytes(s@) == bytes@,
{
    String::from_utf8(bytes).ok()
}

/// Ends the component at hand.
fn close(kept: &mut Vec<Vec<u8>>, at_hand: Vec<u8>)
    ensures
        views(final(kept)@) == closed(views(old(kept)@), at_hand@),
{
    let n: usize = at_hand.len();
    if n == 0 {
        return ;
    }
    if n == 1 && at_hand[0] == DOT {
        assert(at_hand@ =~= seq![DOT]);
        return ;
    }
    if n == 2 && at_hand[0] == DOT && at_hand[1] == DOT {
        assert(at_hand@ =~= seq![DOT, DOT]);
        if kept.len() > 0 {
            kept.pop();
            assert(views(kept@) =~= views(old(kept)@).drop_last());
        }
        return ;
    }
    assert(at_hand@ != seq![DOT] && at_hand@ != seq![DOT, DOT]) by {
        if at_hand@ == seq![DOT] {
            assert(seq![DOT].len() == 1);
        }
        if at_hand@ == seq![DOT, DOT] {
            assert(seq![DOT, DOT].len() == 2);
            assert(seq![DOT, DOT][0] == DOT && seq![DOT, DOT][1] == DOT);
        }
    }
    kept.push(at_hand);
    assert(views(kept@) =~= views(old(kept)@).push(at_hand@));
}

/// The bytes of the lexical normal form of a path.
pub fn lexical_normalize_bytes(path: &[u8]) -> (out: Vec<u8>)
    ensures
        out@ == lexical_normal(path@),
{
    let n: usize = path.len();
    let mut kept: Vec<Vec<u8>> = Vec::new();
    let mut at_hand: Vec<u8> = Vec::new();
    let mut i: usize = 0;
    assert(path@.take(0) =~= Seq::<u8>::empty());
    assert(views(kept@) =~= Seq::<Seq<u8>>::empty());
    while i < n
        invariant
            n == path@.len(),
            i <= n,
            views(kept@) == walked(path@.take(i as int)).kept,
            at_hand@ == walked(path@.take(i as int)).at_hand,
        decreases n - i,
    {
        assert(path@.take(i + 1).drop_last() =~= path@.take(i as int));
        if path[i] == SLASH {
            let ended = at_hand;
            at_hand = Vec::new();
            close(&mut kept, ended);
        } else {
            at_hand.push(path[i]);
        }
        i = i + 1;
    }
    assert(path@.take(n as int) =~= path@);
    close(&mut kept, at_hand);
    let mut out: Vec<u8> = Vec::new();
    if n > 0 && path[0] == SLASH {
        out.push(SLASH);
    }
    let ghost lead = out@;
    let m: usize = kept.len();
    let mut k: usize = 0;
    assert(views(kept@).take(0) =~= Seq::<Seq<u8>>::empty());
    while k < m
        invariant
            m == kept@.len(),
            k <= m,
            out@ == lead + joined(views(kept@).take(k as int)),
        decreases m - k,
    {
        let ghost parts = views(kept@).take(k + 1);
        assert(parts.drop_last() =~= views(kept@).take(k as int));
        assert(parts.last() == kept@[k as int]@);
        if k > 0 {
            out.push(SLASH);
        }
        push_all(&mut out, kept[k].as_slice());
        assert(out@ =~= lead + joined(parts));
        k = k + 1;
    }
    assert(views(kept@).take(m as int) =~= views(kept@));
    assert(out@ =~= lexical_normal(path@));
    out
}

/// The lexical normal form of a path: `.` and `..` are resolved by the text
/// alone, nothing is looked up on disk and no link is followed.
pub fn lexical_normalize(path: &str) -> (r: String)
    ensures
        str_bytes(r@) == lexical_normal(str_bytes(path@)),
{
    let out = lexical_normalize_bytes(path.as_bytes());
    proof {
        vstd::utf8::encode_utf8_valid_utf8(path@);
        lemma_lexical_normal_valid(str_bytes(path@));
    }
    match string_from_utf8(out) {
        Some(s) => s,
        None => String::new(),
    }
}

/// The normal form of a path as seen from the working directory `cwd`: a
/// path that does not start at the root is taken to lie below `cwd`.
pub fn normalize_path(cwd: &str, path: &str) -> (r: String)
    ensures
        str_bytes(r@) == normal_form(str_bytes(cwd@), str_bytes(path@)),
{
    let p = path.as_bytes();
    proof {
        vstd::utf8::encode_utf8_valid_utf8(path@);
        vstd::utf8::encode_utf8_valid_utf8(cwd@);
    }
    if p.len() > 0 && p[0] == SLASH {
        return lexical_normalize(path);
    }
    let mut whole: Vec<u8> = Vec::new();
    push_all(&mut whole, cwd.as_bytes());
    whole.push(SLASH);
    push_all(&mut whole, p);
    assert(whole@ =~= resolved(str_bytes(cwd@), str_bytes(path@)));
    let out = lexical_normalize_bytes(whole.as_slice());
    proof {
        let slash = seq![SLASH];
        lemma_slash_valid();
        valid_utf8_concat(str_bytes(cwd@), slash);
        valid_utf8_concat(str_bytes(cwd@) + slash, str_bytes(path@));
        lemma_lexical_normal_valid(whole@);
    }
    match string_from_utf8(out) {
        Some(s) => s,
        None => String::new(),
    }
}

} // verus!
