//! Strings as the bytes they are stored in.
//!
//! Paths are ordered, matched and assembled byte by byte, so the contracts of
//! this crate speak of the UTF-8 encoding of a string rather than of its
//! characters.

use vstd::prelude::*;
use vstd::utf8::*;

verus! {

/// `String::push_str` appends the characters of `string` to `s` and leaves
/// what `s` held in front of them, as its documentation says.
pub assume_specification[ String::push_str ](s: &mut String, string: &str)
    ensures
        final(s)@ == old(s)@ + string@,
;

/// The UTF-8 bytes of a string, given as its characters.
pub open spec fn bytes(chars: Seq<char>) -> Seq<u8> {
    encode_utf8(chars)
}

/// Encoding a concatenation is concatenating the encodings.
pub proof fn lemma_bytes_concat(a: Seq<char>, b: Seq<char>)
    ensures
        bytes(a + b) == bytes(a) + bytes(b),
    decreases a.len(),
{
    if a.len() == 0 {
        assert(a + b =~= b);
        assert(bytes(a) + bytes(b) =~= bytes(b));
    } else {
        lemma_bytes_concat(a.drop_first(), b);
        assert((a + b).drop_first() =~= a.drop_first() + b);
        assert((a + b)[0] == a[0]);
        assert(bytes(a + b) =~= bytes(a) + bytes(b));
    }
}

/// Two strings with the same bytes are the same string.
pub proof fn lemma_bytes_injective(a: Seq<char>, b: Seq<char>)
    requires
        bytes(a) == bytes(b),
    ensures
        a == b,
{
    encode_utf8_decode_utf8(a);
    encode_utf8_decode_utf8(b);
}

/// Whether two texts are the same, character for character.
pub fn same_text(a: &str, b: &str) -> (same: bool)
    ensures
        same == (a@ == b@),
{
    let x = a.as_bytes();
    let y = b.as_bytes();
    if x.len() != y.len() {
        return false;
    }
    let mut i: usize = 0;
    while i < x.len()
        invariant
            i <= x.len(),
            x.len() == y.len(),
            x@ == bytes(a@),
            y@ == bytes(b@),
            forall|j: int| 0 <= j < i ==> x@[j] == y@[j],
        decreases x.len() - i,
    {
        if x[i] != y[i] {
            return false;
        }
        i += 1;
    }
    proof {
        assert(x@ =~= y@);
        lemma_bytes_injective(a@, b@);
    }
    true
}

} // verus!
