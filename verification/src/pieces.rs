//! The order of paths, said by their pieces.
//!
//! Paths are compared byte by byte, with the separator in front of every
//! other byte. This module shows what that order is: cut each path at its
//! separators, and the paths stand as the lists of their pieces do, piece
//! by piece, each piece by its plain bytes.

use vstd::prelude::*;
use crate::path::SEPARATOR;
use crate::path::precedes;
use crate::path::precedes_from;

verus! {

/// Whether the bytes `a` come before the bytes `b` in the plain order of
/// byte strings: the first byte that differs decides, and a string comes
/// before every string that it starts.
pub open spec fn bytes_before(a: Seq<u8>, b: Seq<u8>) -> bool
    decreases b.len(),
{
    if b.len() == 0 {
        false
    } else if a.len() == 0 {
        true
    } else if a[0] != b[0] {
        a[0] < b[0]
    } else {
        bytes_before(a.drop_first(), b.drop_first())
    }
}

/// Whether the list `x` comes before the list `y`: the first piece that
/// differs decides, by the plain order of byte strings, and a list comes
/// before every list that it starts.
pub open spec fn pieces_before(x: Seq<Seq<u8>>, y: Seq<Seq<u8>>) -> bool
    decreases y.len(),
{
    if y.len() == 0 {
        false
    } else if x.len() == 0 {
        true
    } else if x[0] != y[0] {
        bytes_before(x[0], y[0])
    } else {
        pieces_before(x.drop_first(), y.drop_first())
    }
}

/// The pieces between the separators of `path`, from index `from` on. A
/// path without a separator is one piece; two separators side by side, or
/// one at an end, part an empty piece.
pub open spec fn pieces_from(path: Seq<u8>, from: int) -> Seq<Seq<u8>>
    decreases path.len() - from,
{
    if from < 0 || from >= path.len() {
        seq![Seq::empty()]
    } else if path[from] == SEPARATOR {
        seq![Seq::empty()] + pieces_from(path, from + 1)
    } else {
        let rest = pieces_from(path, from + 1);
        seq![seq![path[from]] + rest[0]] + rest.drop_first()
    }
}

/// The pieces between the separators of `path`.
pub open spec fn pieces(path: Seq<u8>) -> Seq<Seq<u8>> {
    pieces_from(path, 0)
}

/// A path has at least one piece, and its first piece is empty exactly if
/// the path ends there or goes on with a separator.
proof fn lemma_first_piece(path: Seq<u8>, from: int)
    requires
        0 <= from <= path.len(),
    ensures
        pieces_from(path, from).len() >= 1,
        pieces_from(path, from)[0].len() == 0 <==> (from == path.len() || path[from]
            == SEPARATOR),
        from < path.len() && path[from] != SEPARATOR ==> pieces_from(path, from)[0][0]
            == path[from],
        from < path.len() && path[from] == SEPARATOR ==> pieces_from(path, from).len() >= 2,
    decreases path.len() - from,
{
    if from < path.len() {
        lemma_first_piece(path, from + 1);
    }
}

proof fn lemma_order_from(a: Seq<u8>, b: Seq<u8>, from: int)
    requires
        0 <= from <= a.len(),
        from <= b.len(),
    ensures
        precedes_from(a, b, from) == pieces_before(pieces_from(a, from), pieces_from(b, from)),
    decreases a.len() - from,
{
    let x = pieces_from(a, from);
    let y = pieces_from(b, from);
    lemma_first_piece(a, from);
    lemma_first_piece(b, from);
    if from == b.len() {
        // `b` ends here, so nothing comes before it.
        assert(y =~= seq![Seq::<u8>::empty()]);
        assert(!precedes_from(a, b, from));
        if x[0].len() == 0 {
            assert(x[0] =~= y[0]);
            assert(y.drop_first().len() == 0);
            assert(!pieces_before(x.drop_first(), y.drop_first()));
        } else {
            assert(!bytes_before(x[0], y[0]));
        }
        assert(!pieces_before(x, y));
    } else if from == a.len() {
        // `a` ends here and `b` goes on.
        assert(x =~= seq![Seq::<u8>::empty()]);
        assert(precedes_from(a, b, from));
        if y[0].len() == 0 {
            assert(x[0] =~= y[0]);
            assert(x.drop_first().len() == 0);
            assert(y.drop_first().len() >= 1);
            assert(pieces_before(x.drop_first(), y.drop_first()));
        } else {
            assert(bytes_before(x[0], y[0]));
        }
        assert(pieces_before(x, y));
    } else if a[from] == b[from] {
        lemma_order_from(a, b, from + 1);
        let rest_a = pieces_from(a, from + 1);
        let rest_b = pieces_from(b, from + 1);
        lemma_first_piece(a, from + 1);
        lemma_first_piece(b, from + 1);
        assert(precedes_from(a, b, from) == precedes_from(a, b, from + 1));
        if a[from] == SEPARATOR {
            assert(x[0] =~= y[0]);
            assert(x.drop_first() =~= rest_a);
            assert(y.drop_first() =~= rest_b);
            assert(pieces_before(x, y) == pieces_before(rest_a, rest_b));
        } else {
            // Both first pieces start with the same byte: what decides is
            // what follows it.
            assert(x[0].drop_first() =~= rest_a[0]);
            assert(y[0].drop_first() =~= rest_b[0]);
            assert(x.drop_first() =~= rest_a.drop_first());
            assert(y.drop_first() =~= rest_b.drop_first());
            assert(x[0][0] == y[0][0]);
            if rest_a[0] == rest_b[0] {
                assert(x[0] =~= y[0]);
                assert(pieces_before(x, y) == pieces_before(x.drop_first(), y.drop_first()));
                assert(pieces_before(rest_a, rest_b) == pieces_before(
                    rest_a.drop_first(),
                    rest_b.drop_first(),
                ));
            } else {
                assert(x[0] != y[0]) by {
                    if x[0] == y[0] {
                        assert(x[0].drop_first() == y[0].drop_first());
                    }
                }
                assert(pieces_before(x, y) == bytes_before(x[0], y[0]));
                assert(bytes_before(x[0], y[0]) == bytes_before(rest_a[0], rest_b[0]));
                assert(pieces_before(rest_a, rest_b) == bytes_before(rest_a[0], rest_b[0]));
            }
        }
    } else {
        // The paths part ways at this byte.
        if a[from] == SEPARATOR {
            assert(x[0].len() == 0 && y[0].len() > 0);
            assert(bytes_before(x[0], y[0]));
        } else if b[from] == SEPARATOR {
            assert(y[0].len() == 0 && x[0].len() > 0);
            assert(!bytes_before(x[0], y[0]));
        } else {
            assert(x[0][0] == a[from] && y[0][0] == b[from]);
            assert(bytes_before(x[0], y[0]) == (a[from] < b[from]));
        }
        assert(x[0] != y[0]);
        assert(pieces_before(x, y) == bytes_before(x[0], y[0]));
    }
}

/// The order of paths is the order of the lists of their pieces: the first
/// piece that differs decides, by its plain bytes, and a path comes before
/// every path that lies below it.
pub proof fn lemma_order_is_by_pieces(a: Seq<u8>, b: Seq<u8>)
    ensures
        precedes(a, b) == pieces_before(pieces(a), pieces(b)),
{
    lemma_order_from(a, b, 0);
}

} // verus!
