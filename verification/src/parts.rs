//! The components of a path.
//!
//! A path is cut at its separators. An empty piece and a piece `.` name
//! nothing and are passed over, wherever they stand; only a path that is
//! `.` or starts with `./` keeps that first `.` as a component. A path that
//! starts with a separator starts at the root.

use vstd::prelude::*;
use crate::path::DOT;
use crate::path::SEPARATOR;
use crate::path::ends_with;
use crate::path::file_name;
use crate::path::has_file_name;
use crate::path::lemma_name_start;
use crate::path::name_start;
use crate::path::sentinel;
use crate::path::temp_path;
use crate::text::bytes;

verus! {

/// One component of a path.
pub enum Part {
    /// The root, in front of a path that starts with a separator.
    RootDir,
    /// The folder itself: a `.` in front of a path.
    CurDir,
    /// The folder above: `..`.
    ParentDir,
    /// A name.
    Normal(Seq<u8>),
}

/// The piece is `.`.
pub open spec fn is_dot(piece: Seq<u8>) -> bool {
    piece.len() == 1 && piece[0] == DOT
}

/// The piece is `..`.
pub open spec fn is_dot_dot(piece: Seq<u8>) -> bool {
    piece.len() == 2 && piece[0] == DOT && piece[1] == DOT
}

/// The component that a piece between two separators stands for, if any.
pub open spec fn piece_parts(piece: Seq<u8>) -> Seq<Part> {
    if piece.len() == 0 || is_dot(piece) {
        Seq::empty()
    } else if is_dot_dot(piece) {
        seq![Part::ParentDir]
    } else {
        seq![Part::Normal(piece)]
    }
}

/// The components of what is left of `path` when the bytes up to `at` have
/// been read and the piece that is being read started at `start`.
pub open spec fn parts_from(path: Seq<u8>, start: int, at: int) -> Seq<Part>
    decreases path.len() - at,
{
    if at < 0 || at >= path.len() {
        piece_parts(path.subrange(start, path.len() as int))
    } else if path[at] == SEPARATOR {
        piece_parts(path.subrange(start, at)) + parts_from(path, at + 1, at + 1)
    } else {
        parts_from(path, start, at + 1)
    }
}

/// The path starts at the root.
pub open spec fn is_rooted(path: Seq<u8>) -> bool {
    path.len() > 0 && path[0] == SEPARATOR
}

/// The path is `.` or starts with `./`.
pub open spec fn starts_here(path: Seq<u8>) -> bool {
    path.len() > 0 && path[0] == DOT && (path.len() == 1 || path[1] == SEPARATOR)
}

/// Where the pieces of a path start: behind what says where the path starts.
pub open spec fn body_start(path: Seq<u8>) -> int {
    if is_rooted(path) || starts_here(path) {
        1
    } else {
        0
    }
}

/// The components of a path.
pub open spec fn parts(path: Seq<u8>) -> Seq<Part> {
    let body = parts_from(path, body_start(path), body_start(path));
    if is_rooted(path) {
        seq![Part::RootDir] + body
    } else if starts_here(path) {
        seq![Part::CurDir] + body
    } else {
        body
    }
}

/// The name that ends a list of components, or `name` for an empty list. A
/// list that ends with anything but a name ends with no name.
pub open spec fn closing_name(list: Seq<Part>, name: Option<Seq<u8>>) -> Option<Seq<u8>> {
    if list.len() == 0 {
        name
    } else {
        match list.last() {
            Part::Normal(name) => Some(name),
            _ => None,
        }
    }
}

/// The last component of a path, if it is a name. Separators and `.`
/// pieces at the end are passed over; a path that ends with `..`, the root
/// and the empty path have no such name.
pub open spec fn last_component(path: Seq<u8>) -> Option<Seq<u8>> {
    closing_name(parts(path), None)
}

/// Whether a path names the scratch file of a transfer: its last component
/// is a name that ends with the reserved suffix. The name takes in the
/// extension, so a file with the suffix for its extension is one.
pub open spec fn is_special(path: Seq<u8>) -> bool {
    match last_component(path) {
        Some(name) => ends_with(name, sentinel()),
        None => false,
    }
}

proof fn lemma_closing_name_concat(front: Seq<Part>, rest: Seq<Part>, name: Option<Seq<u8>>)
    ensures
        closing_name(front + rest, name) == closing_name(rest, closing_name(front, name)),
{
    if rest.len() == 0 {
        assert(front + rest =~= front);
    } else {
        assert((front + rest).last() == rest.last());
    }
}

proof fn lemma_last_component_from(path: Seq<u8>)
    ensures
        last_component(path) == closing_name(
            parts_from(path, body_start(path), body_start(path)),
            None,
        ),
{
    let body = parts_from(path, body_start(path), body_start(path));
    if is_rooted(path) {
        lemma_closing_name_concat(seq![Part::RootDir], body, None);
    } else if starts_here(path) {
        lemma_closing_name_concat(seq![Part::CurDir], body, None);
    }
}

proof fn lemma_closing_name_of_named(path: Seq<u8>, start: int, at: int, name: Option<Seq<u8>>)
    requires
        has_file_name(path),
        0 <= start <= at <= path.len(),
        start <= name_start(path),
        forall|j: int| start <= j < at ==> path[j] != SEPARATOR,
    ensures
        closing_name(parts_from(path, start, at), name) == Some(file_name(path)),
    decreases path.len() - at,
{
    lemma_name_start(path);
    let found = file_name(path);
    assert(found != seq![DOT] && found != seq![DOT, DOT]);
    if at == path.len() {
        assert(start == name_start(path));
        if is_dot(found) {
            assert(found =~= seq![DOT]);
        }
        if is_dot_dot(found) {
            assert(found =~= seq![DOT, DOT]);
        }
    } else if path[at] == SEPARATOR {
        lemma_closing_name_concat(
            piece_parts(path.subrange(start, at)),
            parts_from(path, at + 1, at + 1),
            name,
        );
        lemma_closing_name_of_named(
            path,
            at + 1,
            at + 1,
            closing_name(piece_parts(path.subrange(start, at)), name),
        );
    } else {
        lemma_closing_name_of_named(path, start, at + 1, name);
    }
}

/// A path that ends in a file name, with nothing behind it, has that name
/// for its last component.
pub proof fn lemma_last_component_of_named(path: Seq<u8>)
    requires
        has_file_name(path),
    ensures
        last_component(path) == Some(file_name(path)),
{
    lemma_name_start(path);
    lemma_last_component_from(path);
    let start = body_start(path);
    if starts_here(path) && path.len() == 1 {
        assert(file_name(path) =~= seq![DOT]);
    }
    lemma_closing_name_of_named(path, start, start, None);
}

/// The scratch file of a transfer is never taken for a file to synchronise:
/// a path whose extension was replaced by the reserved suffix is special.
pub proof fn lemma_temp_path_is_special(path: Seq<u8>)
    requires
        has_file_name(path),
    ensures
        is_special(temp_path(path)),
{
    let temp = temp_path(path);
    let suffix = sentinel();
    crate::path::lemma_sentinel();
    lemma_name_start(path);
    lemma_name_start(temp);
    // The suffix holds no separator, so the file name of the scratch path
    // starts where that of the path did and ends with the suffix.
    assert(name_start(temp) <= temp.len() - suffix.len()) by {
        if name_start(temp) > temp.len() - suffix.len() {
            let at = name_start(temp) - 1;
            assert(temp[at] == SEPARATOR);
            if at >= temp.len() - suffix.len() {
                assert(temp[at] == suffix[at - (temp.len() - suffix.len())]);
            } else {
                assert(temp[at] == DOT);
            }
        }
    }
    let name = file_name(temp);
    assert(name.subrange(name.len() - suffix.len(), name.len() as int) =~= suffix);
    assert(name.len() >= suffix.len());
    assert(name != seq![DOT]) by {
        assert(seq![DOT].len() == 1);
    }
    assert(name != seq![DOT, DOT]) by {
        assert(seq![DOT, DOT].len() == 2);
    }
    lemma_last_component_of_named(temp);
}

/// Whether the bytes of `data` from `low` up to `high` end with `suffix`.
fn piece_has_suffix(data: &[u8], low: usize, high: usize, suffix: &[u8]) -> (r: bool)
    requires
        low <= high <= data.len(),
    ensures
        r == ends_with(data@.subrange(low as int, high as int), suffix@),
{
    let ghost piece = data@.subrange(low as int, high as int);
    if high - low < suffix.len() {
        return false;
    }
    let offset: usize = high - suffix.len();
    let ghost tail = piece.subrange(piece.len() - suffix.len(), piece.len() as int);
    let mut i: usize = 0;
    while i < suffix.len()
        invariant
            i <= suffix.len(),
            low <= offset,
            offset + suffix.len() == high,
            high <= data.len(),
            piece == data@.subrange(low as int, high as int),
            tail == piece.subrange(piece.len() - suffix.len(), piece.len() as int),
            forall|j: int| 0 <= j < i ==> tail[j] == suffix@[j],
        decreases suffix.len() - i,
    {
        if data[offset + i] != suffix[i] {
            assert(tail[i as int] == data@[offset + i]);
            return false;
        }
        assert(tail[i as int] == data@[offset + i]);
        i += 1;
    }
    assert(tail =~= suffix@);
    true
}

/// Whether the path names the scratch file of a transfer.
pub fn names_scratch_file(path: &str) -> (special: bool)
    ensures
        special == is_special(bytes(path@)),
{
    let data = path.as_bytes();
    let len: usize = data.len();
    let first: usize = if len > 0 && (data[0] == SEPARATOR || data[0] == DOT && (len == 1
        || data[1] == SEPARATOR)) {
        1
    } else {
        0
    };
    proof {
        lemma_last_component_from(data@);
    }
    // The last name seen so far, as the bytes from `low` up to `high`.
    let mut named: bool = false;
    let mut low: usize = 0;
    let mut high: usize = 0;
    let mut start: usize = first;
    let mut at: usize = first;
    let ghost mut name: Option<Seq<u8>> = None;
    while at < len
        invariant
            len == data@.len(),
            start <= at <= len,
            low <= high <= len,
            named <==> name is Some,
            named ==> name == Some(data@.subrange(low as int, high as int)),
            last_component(data@) == closing_name(parts_from(data@, start as int, at as int), name),
        decreases len - at,
    {
        if data[at] == SEPARATOR {
            let ghost piece = data@.subrange(start as int, at as int);
            proof {
                lemma_closing_name_concat(
                    piece_parts(piece),
                    parts_from(data@, at + 1, at + 1),
                    name,
                );
                assert(piece.len() == at - start);
                if at - start >= 1 {
                    assert(piece[0] == data@[start as int]);
                }
                if at - start >= 2 {
                    assert(piece[1] == data@[start + 1]);
                }
            }
            let size: usize = at - start;
            if size == 0 || size == 1 && data[start] == DOT {
            } else if size == 2 && data[start] == DOT && data[start + 1] == DOT {
                named = false;
                proof {
                    name = None;
                }
            } else {
                named = true;
                low = start;
                high = at;
                proof {
                    name = Some(piece);
                }
            }
            start = at + 1;
        }
        at += 1;
    }
    let ghost piece = data@.subrange(start as int, len as int);
    proof {
        assert(piece.len() == len - start);
        if len - start >= 1 {
            assert(piece[0] == data@[start as int]);
        }
        if len - start >= 2 {
            assert(piece[1] == data@[start + 1]);
        }
    }
    let size: usize = len - start;
    if size == 0 || size == 1 && data[start] == DOT {
    } else if size == 2 && data[start] == DOT && data[start + 1] == DOT {
        named = false;
    } else {
        named = true;
        low = start;
        high = len;
    }
    if named {
        piece_has_suffix(data, low, high, "ironcarrier".as_bytes())
    } else {
        false
    }
}

} // verus!
