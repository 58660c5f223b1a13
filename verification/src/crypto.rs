//! The fingerprint of a snapshot.
//!
//! A fingerprint is the 64-bit digest that std's `DefaultHasher` gives for
//! the records of a snapshot, taken in their order. What the hasher is fed
//! is fixed here, byte for byte: the number of records, and of every record
//! the alias, the components of the path, the time of the last modification
//! and the size. The time of creation, which a copy does not keep, and the
//! time of deletion are not fed.

use vstd::prelude::*;
use vstd::bytes::lemma_auto_spec_u64_to_from_le_bytes;
use vstd::bytes::spec_u64_from_le_bytes;
use vstd::bytes::spec_u64_to_le_bytes;
use vstd::bytes::u64_to_le_bytes;
use vstd::std_specs::hash::DefaultHasherAdditionalSpecFns;
use std::collections::hash_map::DefaultHasher;
use std::hash::Hasher;
use crate::fs::FileInfo;
use crate::fs::FileView;
use crate::parts::Part;
use crate::parts::body_start;
use crate::parts::parts;
use crate::parts::parts_from;
use crate::parts::piece_parts;
use crate::path::DOT;
use crate::path::SEPARATOR;
use crate::text::bytes;

verus! {

/// The byte that closes a text.
pub const END_OF_TEXT: u8 = 0xff;

/// A number as it is fed: its eight bytes, the lowest first.
pub open spec fn word(number: u64) -> Seq<u8> {
    spec_u64_to_le_bytes(number)
}

/// What is fed of one component of a path: a number for its kind and, for
/// a name, the length of the name and the name.
pub open spec fn part_bytes(part: Part) -> Seq<u8> {
    match part {
        Part::RootDir => word(1),
        Part::CurDir => word(2),
        Part::ParentDir => word(3),
        Part::Normal(name) => word(4) + word(name.len() as u64) + name,
    }
}

/// What is fed of a list of components: each in turn.
pub open spec fn parts_bytes(list: Seq<Part>) -> Seq<u8>
    decreases list.len(),
{
    if list.len() == 0 {
        Seq::empty()
    } else {
        part_bytes(list[0]) + parts_bytes(list.drop_first())
    }
}

/// What is fed of a value that may be missing: whether it is there, and
/// then the value.
pub open spec fn stamp_bytes(stamp: Option<u64>) -> Seq<u8> {
    match stamp {
        Some(value) => word(1) + word(value),
        None => word(0),
    }
}

/// What is fed of a record: the alias and the byte that closes it, the
/// components of the path, the time of the last modification and the size.
pub open spec fn record_bytes(record: FileView) -> Seq<u8> {
    bytes(record.alias) + seq![END_OF_TEXT] + parts_bytes(parts(record.path)) + stamp_bytes(
        record.modified_at,
    ) + stamp_bytes(record.size)
}

/// What the hasher is fed for the records `files`, write by write: the
/// number of records, then each record.
pub open spec fn fed(files: Seq<FileInfo>) -> Seq<Seq<u8>> {
    Seq::new(
        files.len() + 1,
        |i: int|
            if i == 0 {
                word(files.len() as u64)
            } else {
                record_bytes(files[i - 1]@)
            },
    )
}

/// The fingerprint of the records `files`, taken in their order: the
/// digest that the hasher gives for what it is fed.
pub open spec fn fingerprint(files: Seq<FileInfo>) -> u64 {
    DefaultHasher::spec_finish(fed(files))
}

/// Two records of which the hasher is fed the same: they agree in alias,
/// path, time of last modification and size.
pub open spec fn same_content(a: FileInfo, b: FileInfo) -> bool {
    a@.alias == b@.alias && a@.path == b@.path && a.modified_at == b.modified_at && a.size
        == b.size
}

/// A fingerprint reads of each record only the alias, the path, the time of
/// the last modification and the size: two snapshots that agree in these,
/// record by record, have the same fingerprint, whatever they say of the
/// times of creation and deletion.
pub proof fn lemma_fingerprint_ignores_creation(a: Seq<FileInfo>, b: Seq<FileInfo>)
    requires
        a.len() == b.len(),
        forall|i: int| 0 <= i < a.len() ==> same_content(#[trigger] a[i], b[i]),
    ensures
        fingerprint(a) == fingerprint(b),
{
    assert forall|i: int| 0 <= i < fed(a).len() implies fed(a)[i] == fed(b)[i] by {
        if i > 0 {
            assert(same_content(a[i - 1], b[i - 1]));
        }
    }
    assert(fed(a) =~= fed(b));
}

/// Fingerprinting is deterministic: two scans that gave the same records in
/// the same order have the same fingerprint.
pub proof fn lemma_fingerprint_deterministic(a: Seq<FileInfo>, b: Seq<FileInfo>)
    requires
        a.len() == b.len(),
        forall|i: int| 0 <= i < a.len() ==> (#[trigger] a[i])@ == b[i]@,
    ensures
        fingerprint(a) == fingerprint(b),
{
    lemma_fingerprint_ignores_creation(a, b);
}

/// Two different values that are there are fed as different bytes of the
/// same number.
proof fn lemma_stamp_bytes_differ(a: u64, b: u64)
    requires
        a != b,
    ensures
        stamp_bytes(Some(a)) != stamp_bytes(Some(b)),
        stamp_bytes(Some(a)).len() == stamp_bytes(Some(b)).len(),
{
    lemma_auto_spec_u64_to_from_le_bytes();
    assert(spec_u64_from_le_bytes(word(a)) == a);
    assert(spec_u64_from_le_bytes(word(b)) == b);
    if stamp_bytes(Some(a)) == stamp_bytes(Some(b)) {
        assert(word(a) =~= stamp_bytes(Some(a)).subrange(8, 16));
        assert(word(b) =~= stamp_bytes(Some(b)).subrange(8, 16));
    }
}

proof fn lemma_between_differs(front: Seq<u8>, a: Seq<u8>, b: Seq<u8>, back: Seq<u8>)
    requires
        a != b,
        a.len() == b.len(),
    ensures
        front + a + back != front + b + back,
{
    if front + a + back == front + b + back {
        assert(a =~= (front + a + back).subrange(front.len() as int, (front.len() + a.len()) as int));
        assert(b =~= (front + b + back).subrange(front.len() as int, (front.len() + b.len()) as int));
    }
}

/// The hasher is fed differently for two snapshots that are the same but
/// for the time at which one file was last modified. Whether the digest
/// differs is the hasher's to say.
pub proof fn lemma_fed_shows_modification(a: Seq<FileInfo>, b: Seq<FileInfo>, at: int)
    requires
        a.len() == b.len(),
        0 <= at < a.len(),
        a[at]@.alias == b[at]@.alias,
        a[at]@.path == b[at]@.path,
        a[at].size == b[at].size,
        a[at].modified_at is Some,
        b[at].modified_at is Some,
        a[at].modified_at != b[at].modified_at,
    ensures
        fed(a) != fed(b),
{
    let front = bytes(a[at]@.alias) + seq![END_OF_TEXT] + parts_bytes(parts(a[at]@.path));
    lemma_stamp_bytes_differ(a[at].modified_at->Some_0, b[at].modified_at->Some_0);
    lemma_between_differs(
        front,
        stamp_bytes(a[at].modified_at),
        stamp_bytes(b[at].modified_at),
        stamp_bytes(a[at].size),
    );
    assert(fed(a)[at + 1] == record_bytes(a[at]@));
    assert(fed(b)[at + 1] == record_bytes(b[at]@));
}

/// The hasher is fed differently for two snapshots that are the same but
/// for the size of one file. Whether the digest differs is the hasher's to
/// say.
pub proof fn lemma_fed_shows_size(a: Seq<FileInfo>, b: Seq<FileInfo>, at: int)
    requires
        a.len() == b.len(),
        0 <= at < a.len(),
        a[at]@.alias == b[at]@.alias,
        a[at]@.path == b[at]@.path,
        a[at].modified_at == b[at].modified_at,
        a[at].size is Some,
        b[at].size is Some,
        a[at].size != b[at].size,
    ensures
        fed(a) != fed(b),
{
    let front = bytes(a[at]@.alias) + seq![END_OF_TEXT] + parts_bytes(parts(a[at]@.path))
        + stamp_bytes(a[at].modified_at);
    lemma_stamp_bytes_differ(a[at].size->Some_0, b[at].size->Some_0);
    lemma_between_differs(front, stamp_bytes(a[at].size), stamp_bytes(b[at].size), Seq::empty());
    assert(front + stamp_bytes(a[at].size) + Seq::<u8>::empty() =~= record_bytes(a[at]@));
    assert(front + stamp_bytes(b[at].size) + Seq::<u8>::empty() =~= record_bytes(b[at]@));
    assert(fed(a)[at + 1] == record_bytes(a[at]@));
    assert(fed(b)[at + 1] == record_bytes(b[at]@));
}

proof fn lemma_parts_bytes_concat(front: Seq<Part>, rest: Seq<Part>)
    ensures
        parts_bytes(front + rest) == parts_bytes(front) + parts_bytes(rest),
    decreases front.len(),
{
    if front.len() == 0 {
        assert(front + rest =~= rest);
        assert(parts_bytes(front) + parts_bytes(rest) =~= parts_bytes(rest));
    } else {
        lemma_parts_bytes_concat(front.drop_first(), rest);
        assert((front + rest).drop_first() =~= front.drop_first() + rest);
        assert((front + rest)[0] == front[0]);
        assert(parts_bytes(front + rest) =~= parts_bytes(front) + parts_bytes(rest));
    }
}

proof fn lemma_parts_bytes_single(part: Part)
    ensures
        parts_bytes(seq![part]) == part_bytes(part),
{
    let list = seq![part];
    assert(list.len() == 1 && list[0] == part);
    assert(list.drop_first().len() == 0);
    assert(parts_bytes(list.drop_first()) =~= Seq::<u8>::empty());
    assert(parts_bytes(list) =~= part_bytes(part));
}

fn push_word(buffer: &mut Vec<u8>, number: u64)
    ensures
        final(buffer)@ == old(buffer)@ + word(number),
{
    let mut encoded = u64_to_le_bytes(number);
    buffer.append(&mut encoded);
}

fn push_bytes(buffer: &mut Vec<u8>, data: &[u8], low: usize, high: usize)
    requires
        low <= high <= data.len(),
    ensures
        final(buffer)@ == old(buffer)@ + data@.subrange(low as int, high as int),
{
    let mut at: usize = low;
    while at < high
        invariant
            low <= at <= high,
            high <= data.len(),
            buffer@ == old(buffer)@ + data@.subrange(low as int, at as int),
        decreases high - at,
    {
        buffer.push(data[at]);
        at += 1;
        assert(buffer@ =~= old(buffer)@ + data@.subrange(low as int, at as int));
    }
}

/// Feeds the component that the piece of `data` from `low` up to `high`
/// stands for, if it stands for one.
fn push_piece(buffer: &mut Vec<u8>, data: &[u8], low: usize, high: usize)
    requires
        low <= high <= data.len(),
    ensures
        final(buffer)@ == old(buffer)@ + parts_bytes(
            piece_parts(data@.subrange(low as int, high as int)),
        ),
{
    let ghost piece = data@.subrange(low as int, high as int);
    let size: usize = high - low;
    proof {
        assert(piece.len() == size);
        if size >= 1 {
            assert(piece[0] == data@[low as int]);
        }
        if size >= 2 {
            assert(piece[1] == data@[low + 1]);
        }
    }
    if size == 0 || size == 1 && data[low] == DOT {
        assert(buffer@ =~= old(buffer)@ + parts_bytes(piece_parts(piece)));
    } else if size == 2 && data[low] == DOT && data[low + 1] == DOT {
        push_word(buffer, 3);
        proof {
            lemma_parts_bytes_single(Part::ParentDir);
        }
    } else {
        push_word(buffer, 4);
        push_word(buffer, size as u64);
        push_bytes(buffer, data, low, high);
        proof {
            lemma_parts_bytes_single(Part::Normal(piece));
            assert(buffer@ =~= old(buffer)@ + (word(4) + word(piece.len() as u64) + piece));
        }
    }
}

/// Feeds the components of the path `data`.
fn push_path(buffer: &mut Vec<u8>, data: &[u8])
    ensures
        final(buffer)@ == old(buffer)@ + parts_bytes(parts(data@)),
{
    let len: usize = data.len();
    let ghost path = data@;
    let ghost body = parts_from(path, body_start(path), body_start(path));
    let mut first: usize = 0;
    if len > 0 && data[0] == SEPARATOR {
        push_word(buffer, 1);
        first = 1;
        proof {
            lemma_parts_bytes_concat(seq![Part::RootDir], body);
            lemma_parts_bytes_single(Part::RootDir);
        }
    } else if len > 0 && data[0] == DOT && (len == 1 || data[1] == SEPARATOR) {
        push_word(buffer, 2);
        first = 1;
        proof {
            lemma_parts_bytes_concat(seq![Part::CurDir], body);
            lemma_parts_bytes_single(Part::CurDir);
        }
    }
    let ghost whole = old(buffer)@ + parts_bytes(parts(path));
    assert(whole =~= buffer@ + parts_bytes(body));
    let mut start: usize = first;
    let mut at: usize = first;
    while at < len
        invariant
            len == data@.len(),
            path == data@,
            start <= at <= len,
            whole == buffer@ + parts_bytes(parts_from(path, start as int, at as int)),
        decreases len - at,
    {
        if data[at] == SEPARATOR {
            let ghost before = buffer@;
            push_piece(buffer, data, start, at);
            proof {
                let piece = piece_parts(path.subrange(start as int, at as int));
                let rest = parts_from(path, at + 1, at + 1);
                lemma_parts_bytes_concat(piece, rest);
                assert(whole =~= buffer@ + parts_bytes(rest));
            }
            start = at + 1;
        }
        at += 1;
    }
    push_piece(buffer, data, start, len);
}

fn push_stamp(buffer: &mut Vec<u8>, stamp: Option<u64>)
    ensures
        final(buffer)@ == old(buffer)@ + stamp_bytes(stamp),
{
    match stamp {
        Some(value) => {
            push_word(buffer, 1);
            push_word(buffer, value);
            assert(buffer@ =~= old(buffer)@ + (word(1) + word(value)));
        },
        None => {
            push_word(buffer, 0);
        },
    }
}

impl FileInfo {
    /// Feeds the hasher what a fingerprint reads of this record, in one
    /// write.
    pub fn hash(&self, state: &mut DefaultHasher)
        ensures
            final(state)@ == old(state)@.push(record_bytes(self@)),
    {
        let mut buffer: Vec<u8> = Vec::new();
        let alias = self.alias.as_str().as_bytes();
        push_bytes(&mut buffer, alias, 0, alias.len());
        buffer.push(END_OF_TEXT);
        push_path(&mut buffer, self.path.as_str().as_bytes());
        push_stamp(&mut buffer, self.modified_at);
        push_stamp(&mut buffer, self.size);
        proof {
            assert(alias@.subrange(0, alias@.len() as int) =~= alias@);
            assert(buffer@ =~= record_bytes(self@));
        }
        state.write(buffer.as_slice());
    }
}

/// Folds a snapshot into its fingerprint.
pub fn calculate_hash(files: &Vec<FileInfo>) -> (hash: u64)
    ensures
        hash == fingerprint(files@),
{
    let mut hasher = DefaultHasher::new();
    let count = u64_to_le_bytes(files.len() as u64);
    hasher.write(count.as_slice());
    assert(hasher@ =~= fed(files@).subrange(0, 1));
    let mut i: usize = 0;
    while i < files.len()
        invariant
            i <= files@.len(),
            hasher@ == fed(files@).subrange(0, i + 1),
        decreases files@.len() - i,
    {
        files[i].hash(&mut hasher);
        i += 1;
        assert(hasher@ =~= fed(files@).subrange(0, i + 1));
    }
    assert(hasher@ =~= fed(files@));
    hasher.finish()
}

} // verus!
