//! The path filter: which paths no scan may enter.
//!
//! A path is excluded when one of a fixed list of markers stands in it as whole
//! path segments. A marker that begins with the separator names a directory
//! directly under the file-system root.

use vstd::prelude::*;
use crate::model::utf8_bytes;

verus! {

/// The byte that separates the segments of a path.
pub const SEPARATOR: u8 = 47;

/// The markers, in the order in which they are tried.
pub open spec fn excluded_markers() -> Seq<Seq<char>> {
    seq![
        "/proc"@,
        "/sys"@,
        "/dev"@,
        "/run"@,
        "/boot"@,
        "System Volume Information"@,
        "Windows"@,
        "Program Files"@,
        "AppData/Local/Temp"@,
        "$Recycle.Bin"@,
        ".git"@,
    ]
}

/// `marker` stands in `path` at offset `at` and is bounded on both sides by a
/// separator or by an end of the path.
pub open spec fn occurs_at(path: Seq<u8>, marker: Seq<u8>, at: int) -> bool {
    &&& 0 <= at
    &&& at + marker.len() <= path.len()
    &&& path.subrange(at, at + marker.len()) == marker
    &&& (at == 0 || path[at - 1] == SEPARATOR)
    &&& (at + marker.len() == path.len() || path[at + marker.len()] == SEPARATOR)
}

/// `marker` stands somewhere in `path` as whole segments.
pub open spec fn has_segments(path: Seq<u8>, marker: Seq<u8>) -> bool {
    exists|at: int| occurs_at(path, marker, at)
}

/// The path filter on the bytes of a path.
pub open spec fn is_excluded(path: Seq<u8>) -> bool {
    exists|m: int|
        0 <= m < excluded_markers().len() && #[trigger] has_segments(
            path,
            utf8_bytes(excluded_markers()[m]),
        )
}

/// `child` names something inside the directory `dir`: it continues `dir` behind
/// a separator.
pub open spec fn lies_beneath(child: Seq<u8>, dir: Seq<u8>) -> bool {
    &&& 0 < dir.len() < child.len()
    &&& child.subrange(0, dir.len() as int) == dir
    &&& (child[dir.len() as int] == SEPARATOR || dir.last() == SEPARATOR)
}

/// Whether `marker` stands in `path` at offset `at` as whole segments.
fn marker_at(path: &[u8], marker: &[u8], at: usize) -> (found: bool)
    requires
        at + marker@.len() <= path@.len(),
    ensures
        found == occurs_at(path@, marker@, at as int),
{
    let n: usize = marker.len();
    if at > 0 && path[at - 1] != SEPARATOR {
        return false;
    }
    if at + n < path.len() && path[at + n] != SEPARATOR {
        return false;
    }
    let mut j: usize = 0;
    while j < n
        invariant
            j <= n,
            n == marker@.len(),
            at + n <= path.len(),
            forall|k: int| 0 <= k < j ==> path@[at + k] == marker@[k],
        decreases n - j,
    {
        if path[at + j] != marker[j] {
            assert(path@.subrange(at as int, at + n)[j as int] != marker@[j as int]);
            return false;
        }
        j += 1;
    }
    assert(path@.subrange(at as int, at + n) =~= marker@);
    true
}

/// Whether `marker` stands somewhere in `path` as whole segments.
pub fn contains_segments(path: &[u8], marker: &[u8]) -> (found: bool)
    ensures
        found == has_segments(path@, marker@),
{
    let n: usize = marker.len();
    if n > path.len() {
        return false;
    }
    let last: usize = path.len() - n;
    let mut at: usize = 0;
    loop
        invariant
            at <= last,
            last + n == path.len(),
            n == marker@.len(),
            forall|k: int| 0 <= k < at ==> !occurs_at(path@, marker@, k),
        decreases last - at,
    {
        if marker_at(path, marker, at) {
            return true;
        }
        if at == last {
            return false;
        }
        at += 1;
    }
}

/// Whether `child` names something inside the directory `dir`. The paths are
/// compared from their ends, where paths of one tree differ first.
pub fn beneath(child: &[u8], dir: &[u8]) -> (inside: bool)
    ensures
        inside == lies_beneath(child@, dir@),
{
    let n: usize = dir.len();
    if n == 0 || n >= child.len() {
        return false;
    }
    if child[n] != SEPARATOR && dir[n - 1] != SEPARATOR {
        return false;
    }
    let mut j: usize = n;
    while j > 0
        invariant
            j <= n,
            n == dir@.len(),
            n < child.len(),
            forall|k: int| j <= k < n ==> child@[k] == dir@[k],
        decreases j,
    {
        j -= 1;
        if child[j] != dir[j] {
            assert(child@.subrange(0, n as int)[j as int] != dir@[j as int]);
            return false;
        }
    }
    assert(child@.subrange(0, n as int) =~= dir@);
    true
}

/// Whether the marker `marker` stands in `path` as whole segments.
fn marker_hit(path: &[u8], marker: &str) -> (hit: bool)
    ensures
        hit == has_segments(path@, utf8_bytes(marker@)),
{
    contains_segments(path, marker.as_bytes())
}

/// The path filter: whether a scan must skip `path`.
pub fn should_exclude_path(path: &str) -> (excluded: bool)
    ensures
        excluded == is_excluded(utf8_bytes(path@)),
{
    let bytes = path.as_bytes();
    let table = [
        "/proc",
        "/sys",
        "/dev",
        "/run",
        "/boot",
        "System Volume Information",
        "Windows",
        "Program Files",
        "AppData/Local/Temp",
        "$Recycle.Bin",
        ".git",
    ];
    assert(table@.len() == excluded_markers().len());
    assert(forall|k: int| 0 <= k < table@.len() ==> table@[k]@ == excluded_markers()[k]);
    let mut m: usize = 0;
    while m < 11
        invariant
            m <= 11,
            bytes@ == utf8_bytes(path@),
            table@.len() == 11,
            excluded_markers().len() == 11,
            forall|k: int| 0 <= k < 11 ==> table@[k]@ == excluded_markers()[k],
            forall|k: int|
                0 <= k < m ==> !#[trigger] has_segments(
                    bytes@,
                    utf8_bytes(excluded_markers()[k]),
                ),
        decreases 11 - m,
    {
        if marker_hit(bytes, table[m]) {
            return true;
        }
        m += 1;
    }
    false
}

/// The last character of an ASCII text is the last byte of its encoding.
proof fn lemma_last_byte(text: Seq<char>)
    requires
        text.len() > 0,
        vstd::utf8::is_ascii_chars(text),
    ensures
        utf8_bytes(text).len() == text.len(),
        utf8_bytes(text).last() == text.last() as u8,
{
    vstd::utf8::is_ascii_chars_encode_utf8(text);
}

/// No marker is empty, and none ends with the separator.
pub proof fn lemma_marker_shape(m: int)
    requires
        0 <= m < excluded_markers().len(),
    ensures
        utf8_bytes(excluded_markers()[m]).len() > 0,
        utf8_bytes(excluded_markers()[m]).last() != SEPARATOR,
{
    reveal_strlit("/proc");
    reveal_strlit("/sys");
    reveal_strlit("/dev");
    reveal_strlit("/run");
    reveal_strlit("/boot");
    reveal_strlit("System Volume Information");
    reveal_strlit("Windows");
    reveal_strlit("Program Files");
    reveal_strlit("AppData/Local/Temp");
    reveal_strlit("$Recycle.Bin");
    reveal_strlit(".git");
    lemma_last_byte(excluded_markers()[m]);
}

/// Pruning: what lies beneath an excluded directory is excluded as well, so a
/// walker that leaves out the subtree of every excluded directory leaves out
/// nothing that the filter would let pass.
pub proof fn lemma_exclusion_inherited(dir: Seq<u8>, child: Seq<u8>)
    requires
        is_excluded(dir),
        lies_beneath(child, dir),
    ensures
        is_excluded(child),
{
    let m = choose|m: int|
        0 <= m < excluded_markers().len() && #[trigger] has_segments(
            dir,
            utf8_bytes(excluded_markers()[m]),
        );
    let marker = utf8_bytes(excluded_markers()[m]);
    let at = choose|at: int| occurs_at(dir, marker, at);
    lemma_marker_shape(m);
    assert(child.subrange(at, at + marker.len()) =~= dir.subrange(at, at + marker.len())) by {
        assert forall|k: int| at <= k < at + marker.len() implies #[trigger] child[k] == dir[k] by {
            assert(child.subrange(0, dir.len() as int)[k] == dir[k]);
        }
    }
    if at > 0 {
        assert(child.subrange(0, dir.len() as int)[at - 1] == dir[at - 1]);
    }
    if at + marker.len() < dir.len() {
        assert(child.subrange(0, dir.len() as int)[at + marker.len()] == dir[at + marker.len()]);
    } else {
        assert(dir.last() == dir.subrange(at, at + marker.len())[marker.len() - 1]);
    }
    assert(occurs_at(child, marker, at));
    assert(has_segments(child, utf8_bytes(excluded_markers()[m])));
}

} // verus!
