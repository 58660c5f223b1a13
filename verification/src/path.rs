//! Paths as byte strings: their order, their file names and how they are
//! assembled.
//!
//! A path is taken as it is written, with `/` between its components; it is
//! never normalised. All functions here are total: they give an answer for
//! every byte string, also for one that no scan would produce.

use vstd::prelude::*;
use vstd::utf8::*;
use crate::text::bytes;
use crate::text::lemma_bytes_concat;

verus! {

/// The byte that parts the components of a path.
pub const SEPARATOR: u8 = 0x2f;

/// The byte in front of a file name's extension.
pub const DOT: u8 = 0x2e;

/// The place of a byte in the order of paths. The separator comes before
/// every other byte, so that a path orders as the list of its components
/// does: `a/b` before `a.b`, since `a` before `a.b`.
pub open spec fn rank(byte: u8) -> int {
    if byte == SEPARATOR {
        0
    } else {
        byte as int + 1
    }
}

/// Whether `a` comes strictly before `b`, looking only at what stands from
/// index `i` on.
pub open spec fn precedes_from(a: Seq<u8>, b: Seq<u8>, i: int) -> bool
    decreases b.len() - i,
{
    if i < 0 || i >= b.len() {
        false
    } else if i >= a.len() {
        true
    } else if a[i] != b[i] {
        rank(a[i]) < rank(b[i])
    } else {
        precedes_from(a, b, i + 1)
    }
}

/// The strict order of paths: at the first byte in which two paths differ the
/// one with the lower rank comes first, and a path comes before every path
/// that it is a proper prefix of.
pub open spec fn precedes(a: Seq<u8>, b: Seq<u8>) -> bool {
    precedes_from(a, b, 0)
}

pub proof fn lemma_precedes_from_irreflexive(a: Seq<u8>, i: int)
    ensures
        !precedes_from(a, a, i),
    decreases a.len() - i,
{
    if 0 <= i < a.len() {
        lemma_precedes_from_irreflexive(a, i + 1);
    }
}

pub proof fn lemma_precedes_from_transitive(a: Seq<u8>, b: Seq<u8>, c: Seq<u8>, i: int)
    requires
        precedes_from(a, b, i),
        precedes_from(b, c, i),
    ensures
        precedes_from(a, c, i),
    decreases c.len() - i,
{
    if i < a.len() && a[i] == b[i] && b[i] == c[i] {
        lemma_precedes_from_transitive(a, b, c, i + 1);
    }
}

/// If `c` comes before `a`, then every `b` has `c` before it or comes before `a`.
pub proof fn lemma_precedes_from_between(a: Seq<u8>, b: Seq<u8>, c: Seq<u8>, i: int)
    requires
        precedes_from(c, a, i),
    ensures
        precedes_from(c, b, i) || precedes_from(b, a, i),
    decreases a.len() - i,
{
    if i < c.len() && i < b.len() && a[i] == b[i] && b[i] == c[i] {
        lemma_precedes_from_between(a, b, c, i + 1);
    }
}

pub proof fn lemma_precedes_from_connected(a: Seq<u8>, b: Seq<u8>, i: int)
    requires
        0 <= i,
        !precedes_from(a, b, i),
        !precedes_from(b, a, i),
    ensures
        a.len() <= i && b.len() <= i || a.len() == b.len() && forall|j: int|
            i <= j < a.len() ==> a[j] == b[j],
    decreases a.len() - i,
{
    if i < a.len() && i < b.len() {
        lemma_precedes_from_connected(a, b, i + 1);
    }
}

/// No path comes before itself.
pub proof fn lemma_precedes_irreflexive(a: Seq<u8>)
    ensures
        !precedes(a, a),
{
    lemma_precedes_from_irreflexive(a, 0);
}

/// The order of paths is transitive.
pub proof fn lemma_precedes_transitive(a: Seq<u8>, b: Seq<u8>, c: Seq<u8>)
    requires
        precedes(a, b),
        precedes(b, c),
    ensures
        precedes(a, c),
{
    lemma_precedes_from_transitive(a, b, c, 0);
}

/// Of two paths at most one comes before the other.
pub proof fn lemma_precedes_asymmetric(a: Seq<u8>, b: Seq<u8>)
    requires
        precedes(a, b),
    ensures
        !precedes(b, a),
{
    if precedes(b, a) {
        lemma_precedes_transitive(a, b, a);
        lemma_precedes_irreflexive(a);
    }
}

/// The order of paths is total: two paths of which neither comes before the
/// other are the same path.
pub proof fn lemma_precedes_total(a: Seq<u8>, b: Seq<u8>)
    ensures
        precedes(a, b) || precedes(b, a) || a == b,
{
    if !precedes(a, b) && !precedes(b, a) {
        lemma_precedes_from_connected(a, b, 0);
        assert(a =~= b);
    }
}

/// "Not after" is transitive: if `a` is not after `b` and `b` not after `c`,
/// then `a` is not after `c`.
pub proof fn lemma_not_after_transitive(a: Seq<u8>, b: Seq<u8>, c: Seq<u8>)
    requires
        !precedes(b, a),
        !precedes(c, b),
    ensures
        !precedes(c, a),
{
    if precedes(c, a) {
        lemma_precedes_from_between(a, b, c, 0);
    }
}

fn rank_of(byte: u8) -> (r: u16)
    ensures
        r == rank(byte),
{
    if byte == SEPARATOR {
        0
    } else {
        byte as u16 + 1
    }
}

/// Whether the path `a` comes strictly before the path `b`.
pub fn sorts_before(a: &str, b: &str) -> (r: bool)
    ensures
        r == precedes(bytes(a@), bytes(b@)),
{
    let x = a.as_bytes();
    let y = b.as_bytes();
    let mut i: usize = 0;
    while i < x.len() && i < y.len()
        invariant
            i <= x.len(),
            i <= y.len(),
            x@ == bytes(a@),
            y@ == bytes(b@),
            precedes(x@, y@) == precedes_from(x@, y@, i as int),
        decreases x.len() - i,
    {
        if x[i] != y[i] {
            return rank_of(x[i]) < rank_of(y[i]);
        }
        i += 1;
    }
    i < y.len()
}

/// Whether `s` ends with `suffix`.
pub open spec fn ends_with(s: Seq<u8>, suffix: Seq<u8>) -> bool {
    s.len() >= suffix.len() && s.subrange(s.len() - suffix.len(), s.len() as int) == suffix
}

/// Where the file name of a path starts: behind its last separator, or at
/// the start of a path that has none.
pub open spec fn name_start(path: Seq<u8>) -> int
    decreases path.len(),
{
    if path.len() == 0 {
        0
    } else if path.last() == SEPARATOR {
        path.len() as int
    } else {
        name_start(path.drop_last())
    }
}

/// The file name of a path: what follows its last separator. It is empty
/// for the empty path and for a path that ends with a separator.
pub open spec fn file_name(path: Seq<u8>) -> Seq<u8> {
    path.subrange(name_start(path), path.len() as int)
}

/// What `name_start` is, said without recursion.
pub proof fn lemma_name_start(path: Seq<u8>)
    ensures
        0 <= name_start(path) <= path.len(),
        name_start(path) > 0 ==> path[name_start(path) - 1] == SEPARATOR,
        forall|j: int| name_start(path) <= j < path.len() ==> path[j] != SEPARATOR,
    decreases path.len(),
{
    if path.len() > 0 && path.last() != SEPARATOR {
        let front = path.drop_last();
        lemma_name_start(front);
        assert forall|j: int| name_start(path) <= j < path.len() implies path[j] != SEPARATOR by {
            if j < front.len() {
                assert(front[j] == path[j]);
            }
        }
    }
}

/// The suffix that marks a file as scratch space of a transfer in flight.
pub open spec fn sentinel() -> Seq<u8> {
    bytes("ironcarrier"@)
}

/// The sentinel suffix, byte by byte.
pub proof fn lemma_sentinel()
    ensures
        sentinel() == seq![
            0x69u8, 0x72u8, 0x6fu8, 0x6eu8, 0x63u8, 0x61u8, 0x72u8, 0x72u8, 0x69u8, 0x65u8, 0x72u8,
        ],
{
    let text = "ironcarrier"@;
    reveal_strlit("ironcarrier");
    assert(is_ascii_chars(text)) by {
        assert forall|i: int| 0 <= i < text.len() implies (text[i] as nat) < 128 by {
            assert(text[i] == 'i' || text[i] == 'r' || text[i] == 'o' || text[i] == 'n' || text[i] == 'c'
                || text[i] == 'a' || text[i] == 'e');
        }
    }
    is_ascii_chars_encode_utf8(text);
    assert(bytes(text) =~= seq![
        0x69u8, 0x72u8, 0x6fu8, 0x6eu8, 0x63u8, 0x61u8, 0x72u8, 0x72u8, 0x69u8, 0x65u8, 0x72u8,
    ]);
}

/// The path `tail` below the folder `base`: the two laid end to end, with a
/// separator between them unless `base` is empty or brings one. An empty
/// `tail` names the folder itself. Neither part is normalised.
pub open spec fn join(base: Seq<u8>, tail: Seq<u8>) -> Seq<u8> {
    if tail.len() == 0 {
        base
    } else if base.len() == 0 || base.last() == SEPARATOR {
        base + tail
    } else {
        base + seq![SEPARATOR] + tail
    }
}

/// The text `/` is the separator byte.
pub proof fn lemma_separator_text()
    ensures
        bytes("/"@) == seq![SEPARATOR],
{
    let text = "/"@;
    reveal_strlit("/");
    assert(is_ascii_chars(text));
    is_ascii_chars_encode_utf8(text);
    assert(bytes(text) =~= seq![SEPARATOR]);
}

/// The text `.` is the dot byte.
pub proof fn lemma_dot_text()
    ensures
        bytes("."@) == seq![DOT],
{
    let text = "."@;
    reveal_strlit(".");
    assert(is_ascii_chars(text));
    is_ascii_chars_encode_utf8(text);
    assert(bytes(text) =~= seq![DOT]);
}

/// Where the last dot of a file name stands, or -1 for a name without one.
pub open spec fn last_dot(name: Seq<u8>) -> int
    decreases name.len(),
{
    if name.len() == 0 {
        -1
    } else if name.last() == DOT {
        name.len() - 1
    } else {
        last_dot(name.drop_last())
    }
}

/// What `last_dot` is, said without recursion.
pub proof fn lemma_last_dot(name: Seq<u8>)
    ensures
        -1 <= last_dot(name) < name.len(),
        last_dot(name) >= 0 ==> name[last_dot(name)] == DOT,
        forall|j: int| last_dot(name) < j < name.len() ==> name[j] != DOT,
    decreases name.len(),
{
    if name.len() > 0 && name.last() != DOT {
        let front = name.drop_last();
        lemma_last_dot(front);
        assert forall|j: int| last_dot(name) < j < name.len() implies name[j] != DOT by {
            if j < front.len() {
                assert(front[j] == name[j]);
            }
        }
    }
}

/// How many bytes of a file name make its stem: those in front of its last
/// dot. A name without a dot, or with its only dot in front, is all stem.
pub open spec fn stem_len(name: Seq<u8>) -> int {
    if last_dot(name) <= 0 {
        name.len() as int
    } else {
        last_dot(name)
    }
}

/// Whether a path ends in a file name whose extension can be replaced: a
/// name that is not empty and is neither `.` nor `..`.
pub open spec fn has_file_name(path: Seq<u8>) -> bool {
    let name = file_name(path);
    name.len() > 0 && name != seq![DOT] && name != seq![DOT, DOT]
}

/// The scratch path of a file: the path of the file with its extension
/// replaced by the reserved suffix. A path without a file name is its own
/// scratch path.
pub open spec fn temp_path(path: Seq<u8>) -> Seq<u8> {
    if has_file_name(path) {
        path.subrange(0, name_start(path) + stem_len(file_name(path))) + seq![DOT] + sentinel()
    } else {
        path
    }
}

/// The folder that holds the file at `path`: the path without its file
/// name and the separator in front of it. A path with a single component
/// lies in the empty folder or, if it starts at the root, in the root. The
/// empty path and a path that ends with a separator have no such folder.
pub open spec fn parent(path: Seq<u8>) -> Option<Seq<u8>> {
    let start = name_start(path);
    if start == path.len() {
        None
    } else if start <= 1 {
        Some(path.subrange(0, start))
    } else {
        Some(path.subrange(0, start - 1))
    }
}

fn name_start_of(path: &[u8]) -> (start: usize)
    ensures
        start == name_start(path@),
{
    let mut start: usize = path.len();
    while start > 0 && path[start - 1] != SEPARATOR
        invariant
            start <= path.len(),
            forall|j: int| start <= j < path.len() ==> path@[j] != SEPARATOR,
        decreases start,
    {
        start -= 1;
    }
    proof {
        lemma_name_start(path@);
    }
    start
}

/// Where the stem of the file name of `path` ends, given where the name
/// starts.
fn stem_end_of(path: &[u8], start: usize) -> (end: usize)
    requires
        start == name_start(path@),
    ensures
        end == start + stem_len(file_name(path@)),
        start <= end <= path.len(),
        end < path.len() ==> path@[end as int] == DOT,
{
    proof {
        lemma_name_start(path@);
    }
    let ghost name = file_name(path@);
    let mut dot: usize = path.len();
    while dot > start && path[dot - 1] != DOT
        invariant
            start <= dot <= path.len(),
            name == path@.subrange(start as int, path.len() as int),
            forall|j: int| dot - start <= j < name.len() ==> name[j] != DOT,
        decreases dot,
    {
        dot -= 1;
    }
    proof {
        lemma_last_dot(name);
        if dot > start {
            assert(name[dot - 1 - start] == path@[dot - 1]);
        }
    }
    if dot - start > 1 {
        dot - 1
    } else {
        path.len()
    }
}

fn is_dots(path: &[u8], start: usize) -> (dots: bool)
    requires
        start <= path.len(),
    ensures
        dots == ({
            let name = path@.subrange(start as int, path.len() as int);
            name == seq![DOT] || name == seq![DOT, DOT]
        }),
{
    let ghost name = path@.subrange(start as int, path.len() as int);
    let len: usize = path.len() - start;
    if len == 1 {
        let dots = path[start] == DOT;
        proof {
            assert(name[0] == path@[start as int]);
            if dots {
                assert(name =~= seq![DOT]);
            } else {
                assert(seq![DOT][0] == DOT);
            }
        }
        dots
    } else if len == 2 {
        let dots = path[start] == DOT && path[start + 1] == DOT;
        proof {
            assert(name[0] == path@[start as int]);
            assert(name[1] == path@[start + 1]);
            if dots {
                assert(name =~= seq![DOT, DOT]);
            } else {
                assert(seq![DOT, DOT][0] == DOT && seq![DOT, DOT][1] == DOT);
            }
        }
        dots
    } else {
        proof {
            assert(seq![DOT].len() == 1);
            assert(seq![DOT, DOT].len() == 2);
        }
        false
    }
}

proof fn lemma_ascii_is_boundary(data: Seq<char>, at: int)
    requires
        0 <= at <= bytes(data).len(),
        at < bytes(data).len() ==> bytes(data)[at] == DOT || bytes(data)[at] == SEPARATOR,
    ensures
        is_char_boundary(bytes(data), at),
{
    let encoded = bytes(data);
    encode_utf8_valid_utf8(data);
    if at < encoded.len() {
        assert(!is_continuation_byte(encoded[at]));
        is_char_boundary_iff_not_is_continuation_byte(encoded, at);
    } else {
        is_char_boundary_start_end_of_seq(encoded);
    }
}

proof fn lemma_behind_separator_is_boundary(data: Seq<char>)
    requires
        bytes(data).len() >= 1,
        bytes(data)[0] == SEPARATOR,
    ensures
        is_char_boundary(bytes(data), 1),
{
    let encoded = bytes(data);
    encode_utf8_valid_utf8(data);
    reveal_with_fuel(is_char_boundary, 2);
    assert(is_leading_byte_width_1(encoded[0]));
    assert(length_of_first_scalar(encoded) == 1);
    assert(valid_utf8(pop_first_scalar(encoded)));
}

/// Gives the scratch path of the file at `path`.
pub fn temp_path_of(path: &str) -> (temp: String)
    ensures
        bytes(temp@) == temp_path(bytes(path@)),
{
    let data = path.as_bytes();
    let start = name_start_of(data);
    proof {
        lemma_name_start(data@);
    }
    if start == data.len() || is_dots(data, start) {
        return path.to_owned();
    }
    let end = stem_end_of(data, start);
    proof {
        lemma_ascii_is_boundary(path@, end as int);
    }
    let (stem, _) = path.split_at(end);
    let mut temp = stem.to_owned();
    temp.push_str(".");
    let ghost dotted = temp@;
    temp.push_str("ironcarrier");
    proof {
        lemma_dot_text();
        lemma_bytes_concat(stem@, "."@);
        lemma_bytes_concat(dotted, "ironcarrier"@);
    }
    temp
}

/// Gives the folder that holds the file at `path`, if there is one.
pub fn parent_of(path: &str) -> (folder: Option<String>)
    ensures
        match folder {
            Some(text) => parent(bytes(path@)) == Some(bytes(text@)),
            None => parent(bytes(path@)) is None,
        },
{
    let data = path.as_bytes();
    let start = name_start_of(data);
    proof {
        lemma_name_start(data@);
    }
    if start == data.len() {
        return None;
    }
    let end: usize = if start <= 1 {
        start
    } else {
        start - 1
    };
    proof {
        if end == 0 {
            encode_utf8_valid_utf8(path@);
            is_char_boundary_start_end_of_seq(bytes(path@));
        } else if start == 1 {
            // The byte at `end` follows the leading separator: it starts a
            // character, since the separator is a character of its own.
            assert(data@[0] == SEPARATOR);
            lemma_behind_separator_is_boundary(path@);
        } else {
            lemma_ascii_is_boundary(path@, end as int);
        }
    }
    let (folder, _) = path.split_at(end);
    Some(folder.to_owned())
}

/// Assembles the path of `tail` below the folder `base`.
pub fn join_path(base: &str, tail: &str) -> (joined: String)
    ensures
        bytes(joined@) == join(bytes(base@), bytes(tail@)),
{
    let mut joined = base.to_owned();
    if tail.as_bytes().len() == 0 {
        return joined;
    }
    let folder = base.as_bytes();
    if folder.len() > 0 && folder[folder.len() - 1] != SEPARATOR {
        joined.push_str("/");
        proof {
            lemma_separator_text();
            lemma_bytes_concat(base@, "/"@);
        }
    }
    let ghost front = joined@;
    joined.push_str(tail);
    proof {
        lemma_bytes_concat(front, tail@);
    }
    joined
}

} // verus!
