//! The literals of the HTTP/1.1 wire format and the mathematics of scanning
//! a byte sequence for them.

use vstd::prelude::*;

verus! {

/// The protocol version literal, `HTTP/1.1`.
pub const HTTP_VERSION: [u8; 8] = [0x48, 0x54, 0x54, 0x50, 0x2f, 0x31, 0x2e, 0x31];

/// The line terminator, carriage return then line feed.
pub const CRLF: [u8; 2] = [0x0d, 0x0a];

/// The separator between a header's name and its value.
pub const COLON_SPACE: [u8; 2] = [0x3a, 0x20];

/// The separator between the parts of a request line or a status line.
pub const SPACE: [u8; 1] = [0x20];

/// `lit` stands in `bytes` at offset `at`.
pub open spec fn occurs_at(bytes: Seq<u8>, lit: Seq<u8>, at: int) -> bool {
    0 <= at <= bytes.len() && lit.is_prefix_of(bytes.skip(at))
}

/// `lit` stands in `bytes` at offset `at` and at no smaller offset.
pub open spec fn first_occurs_at(bytes: Seq<u8>, lit: Seq<u8>, at: int) -> bool {
    occurs_at(bytes, lit, at) && forall|j: int| 0 <= j < at ==> !occurs_at(bytes, lit, j)
}

/// The smallest offset at which `lit` stands in `bytes`, if there is one.
pub open spec fn first_occurrence(bytes: Seq<u8>, lit: Seq<u8>) -> Option<int> {
    if exists|at: int| first_occurs_at(bytes, lit, at) {
        Some(choose|at: int| first_occurs_at(bytes, lit, at))
    } else {
        None
    }
}

/// `bytes` cut at the first occurrence of `lit`: what stands before it and
/// what follows it, the literal itself dropped.
pub open spec fn split_at_first(bytes: Seq<u8>, lit: Seq<u8>) -> Option<(Seq<u8>, Seq<u8>)> {
    match first_occurrence(bytes, lit) {
        Some(at) => Some((bytes.take(at), bytes.skip(at + lit.len()))),
        None => None,
    }
}

/// `lit` stands somewhere in `bytes`.
pub open spec fn contains(bytes: Seq<u8>, lit: Seq<u8>) -> bool {
    exists|at: int| occurs_at(bytes, lit, at)
}

/// An offset that is a first occurrence is the first occurrence.
pub proof fn lemma_first_occurrence_found(bytes: Seq<u8>, lit: Seq<u8>, at: int)
    requires
        first_occurs_at(bytes, lit, at),
    ensures
        first_occurrence(bytes, lit) == Some(at),
        split_at_first(bytes, lit) == Some((bytes.take(at), bytes.skip(at + lit.len()))),
{
    let chosen = choose|k: int| first_occurs_at(bytes, lit, k);
    assert(first_occurs_at(bytes, lit, chosen));
    if chosen < at {
        assert(!occurs_at(bytes, lit, chosen));
    } else if at < chosen {
        assert(!occurs_at(bytes, lit, at));
    }
}

/// Where `lit` stands nowhere, there is no first occurrence.
pub proof fn lemma_first_occurrence_absent(bytes: Seq<u8>, lit: Seq<u8>)
    requires
        forall|at: int| !occurs_at(bytes, lit, at),
    ensures
        first_occurrence(bytes, lit) is None,
        split_at_first(bytes, lit) is None,
{
}

/// What a first occurrence says of the two pieces it cuts `bytes` into.
pub proof fn lemma_split_at_first_pieces(bytes: Seq<u8>, lit: Seq<u8>)
    requires
        split_at_first(bytes, lit) is Some,
    ensures
        ({
            let (before, after) = split_at_first(bytes, lit)->0;
            &&& bytes == before + lit + after
            &&& first_occurs_at(bytes, lit, before.len() as int)
        }),
{
    let at = first_occurrence(bytes, lit)->0;
    assert(first_occurs_at(bytes, lit, at));
    let (before, after) = split_at_first(bytes, lit)->0;
    assert(bytes =~= before + lit + after);
}

/// A literal of one byte, or of two different bytes, that follows a run of
/// bytes free of it is found right behind that run.
pub proof fn lemma_split_at_first_joined(before: Seq<u8>, lit: Seq<u8>, after: Seq<u8>)
    requires
        lit.len() == 1 || (lit.len() == 2 && lit[0] != lit[1]),
        !contains(before, lit),
    ensures
        split_at_first(before + lit + after, lit) == Some((before, after)),
{
    let all = before + lit + after;
    let at = before.len() as int;
    assert(all.skip(at).subrange(0, lit.len() as int) =~= lit);
    assert forall|j: int| 0 <= j < at implies !occurs_at(all, lit, j) by {
        if occurs_at(all, lit, j) {
            let found = all.skip(j).subrange(0, lit.len() as int);
            assert(found =~= lit);
            if j + lit.len() <= at {
                assert(before.skip(j).subrange(0, lit.len() as int) =~= found);
                assert(occurs_at(before, lit, j));
            } else {
                assert(found[1] == all[j + 1]);
                assert(all[j + 1] == lit[0]);
            }
        }
    }
    lemma_first_occurrence_found(all, lit, at);
    assert(all.take(at) =~= before);
    assert(all.skip(at + lit.len()) =~= after);
}

} // verus!
