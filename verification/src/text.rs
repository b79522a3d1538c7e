//! Byte-string primitives the request parser is built on: substring search
//! as a specification, and the calls into `bstr` and `std` that split, trim
//! and decode.

use bstr::ByteSlice;
use vstd::prelude::*;
use vstd::utf8::*;

verus! {

/// `needle` occurs in `hay` starting at index `at`.
pub open spec fn occurs_at(hay: Seq<u8>, needle: Seq<u8>, at: int) -> bool {
    &&& 0 <= at
    &&& at + needle.len() <= hay.len()
    &&& hay.subrange(at, at + needle.len()) == needle
}

/// The least index at or after `from` at which `needle` occurs in `hay`.
pub open spec fn find_from(hay: Seq<u8>, needle: Seq<u8>, from: int) -> Option<int>
    decreases hay.len() + 1 - from,
{
    if from < 0 || from + needle.len() > hay.len() {
        None
    } else if occurs_at(hay, needle, from) {
        Some(from)
    } else {
        find_from(hay, needle, from + 1)
    }
}

/// The index of the first occurrence of `needle` in `hay`, if there is one.
pub open spec fn first_occurrence(hay: Seq<u8>, needle: Seq<u8>) -> Option<int> {
    find_from(hay, needle, 0)
}

/// What `find_from` returns is an occurrence, and the earliest one from `from` on.
pub proof fn lemma_find_from(hay: Seq<u8>, needle: Seq<u8>, from: int)
    requires
        0 <= from,
    ensures
        match find_from(hay, needle, from) {
            Some(at) => {
                &&& from <= at
                &&& occurs_at(hay, needle, at)
                &&& forall|j: int| from <= j < at ==> !occurs_at(hay, needle, j)
            },
            None => forall|j: int| from <= j ==> !occurs_at(hay, needle, j),
        },
    decreases hay.len() + 1 - from,
{
    if from + needle.len() > hay.len() {
    } else if occurs_at(hay, needle, from) {
    } else {
        lemma_find_from(hay, needle, from + 1);
    }
}

/// `first_occurrence` is `Some(at)` exactly when `needle` occurs at `at` and
/// nowhere before, and `None` exactly when it occurs nowhere.
pub proof fn lemma_first_occurrence(hay: Seq<u8>, needle: Seq<u8>)
    ensures
        match first_occurrence(hay, needle) {
            Some(at) => {
                &&& occurs_at(hay, needle, at)
                &&& forall|j: int| 0 <= j < at ==> !occurs_at(hay, needle, j)
            },
            None => forall|j: int| !occurs_at(hay, needle, j),
        },
{
    lemma_find_from(hay, needle, 0);
}

/// A separator that follows a prefix in which it does not start earlier is
/// the first one: the search finds it at the end of the prefix, whatever
/// comes after it.
pub proof fn lemma_first_occurrence_after_prefix(prefix: Seq<u8>, sep: Seq<u8>, rest: Seq<u8>)
    requires
        sep.len() > 0,
        forall|j: int| 0 <= j < prefix.len() ==> !occurs_at(prefix + sep, sep, j),
    ensures
        first_occurrence(prefix + sep + rest, sep) == Some(prefix.len() as int),
        (prefix + sep + rest).subrange(0, prefix.len() as int) == prefix,
        after_separator(prefix + sep + rest, sep, prefix.len() as int) == rest,
{
    let hay = prefix + sep + rest;
    let at = prefix.len() as int;
    assert(hay.subrange(at, at + sep.len()) =~= sep);
    assert(hay.subrange(0, at) =~= prefix);
    assert(hay.subrange(at + sep.len(), hay.len() as int) =~= rest);
    assert forall|j: int| 0 <= j < at implies !occurs_at(hay, sep, j) by {
        if occurs_at(hay, sep, j) {
            assert((prefix + sep).subrange(j, j + sep.len()) =~= hay.subrange(j, j + sep.len()));
            assert(occurs_at(prefix + sep, sep, j));
        }
    }
    assert(occurs_at(hay, sep, at));
    lemma_first_occurrence(hay, sep);
    let found = first_occurrence(hay, sep);
    assert(found is Some);
    assert(!(found->0 < at));
    assert(!(at < found->0));
}

/// The part of `hay` after the separator that starts at `at`.
pub open spec fn after_separator(hay: Seq<u8>, sep: Seq<u8>, at: int) -> Seq<u8> {
    hay.subrange(at + sep.len(), hay.len() as int)
}

/// `hay` cut at every occurrence of `sep`, found left to right without
/// overlap. There is always at least one piece; separators at either end, or
/// next to each other, are neighboured by empty pieces.
pub open spec fn split_pieces(hay: Seq<u8>, sep: Seq<u8>) -> Seq<Seq<u8>>
    recommends
        sep.len() > 0,
    decreases hay.len(),
    when sep.len() > 0
    via split_pieces_decreases
{
    match first_occurrence(hay, sep) {
        Some(at) => seq![hay.subrange(0, at)] + split_pieces(after_separator(hay, sep, at), sep),
        None => seq![hay],
    }
}

#[via_fn]
proof fn split_pieces_decreases(hay: Seq<u8>, sep: Seq<u8>) {
    lemma_first_occurrence(hay, sep);
}

/// A split gives at least one piece.
pub proof fn lemma_split_pieces_len(hay: Seq<u8>, sep: Seq<u8>)
    requires
        sep.len() > 0,
    ensures
        split_pieces(hay, sep).len() >= 1,
{
}

/// As `split_pieces`, but with at most `limit` pieces: the last piece holds
/// whatever remains, separators included.
pub open spec fn splitn_pieces(hay: Seq<u8>, sep: Seq<u8>, limit: nat) -> Seq<Seq<u8>>
    recommends
        sep.len() > 0,
    decreases limit,
{
    if limit == 0 {
        Seq::empty()
    } else if limit == 1 {
        seq![hay]
    } else {
        match first_occurrence(hay, sep) {
            Some(at) => seq![hay.subrange(0, at)] + splitn_pieces(
                after_separator(hay, sep, at),
                sep,
                (limit - 1) as nat,
            ),
            None => seq![hay],
        }
    }
}

/// `pieces` holds exactly the byte strings of `model`, in order.
pub open spec fn pieces_match(pieces: Seq<Vec<u8>>, model: Seq<Seq<u8>>) -> bool {
    &&& pieces.len() == model.len()
    &&& forall|i: int| 0 <= i < pieces.len() ==> (#[trigger] pieces[i])@ == model[i]
}

/// `ByteSlice::trim_start` applied to `bytes`: the input without its leading
/// run of characters that carry the Unicode `White_Space` property.
pub uninterp spec fn trimmed_start(bytes: Seq<u8>) -> Seq<u8>;

/// `String::from_utf8_lossy` applied to `bytes`: the decoded text, with
/// U+FFFD standing in for each ill-formed sequence.
pub uninterp spec fn lossy_text(bytes: Seq<u8>) -> Seq<char>;

/// The text of a request-line token: its decoding where the bytes are
/// well-formed UTF-8, its lossy decoding where they are not.
pub open spec fn token_text(bytes: Seq<u8>) -> Seq<char> {
    if valid_utf8(bytes) {
        decode_utf8(bytes)
    } else {
        lossy_text(bytes)
    }
}

/// Calls `ByteSlice::split_str`, which yields the substrings of `hay`
/// between successive non-overlapping matches of `sep`, searched left to
/// right. Trusted: the pieces are those of `split_pieces`. An empty separator
/// splits between every byte and is kept out.
#[verifier::external_body]
pub(crate) fn split_str(hay: &[u8], sep: &[u8]) -> (pieces: Vec<Vec<u8>>)
    requires
        sep@.len() > 0,
    ensures
        pieces_match(pieces@, split_pieces(hay@, sep@)),
{
    let mut pieces = Vec::new();
    for piece in hay.split_str(sep) {
        pieces.push(piece.to_vec());
    }
    pieces
}

/// Calls `ByteSlice::splitn_str`, which yields at most `limit` substrings of
/// `hay` separated by `sep`, the last one holding the remainder. Trusted:
/// the pieces are those of `splitn_pieces`.
#[verifier::external_body]
pub(crate) fn splitn_str(hay: &[u8], limit: usize, sep: &[u8]) -> (pieces: Vec<Vec<u8>>)
    requires
        sep@.len() > 0,
    ensures
        pieces_match(pieces@, splitn_pieces(hay@, sep@, limit as nat)),
{
    let mut pieces = Vec::new();
    for piece in hay.splitn_str(limit, sep) {
        pieces.push(piece.to_vec());
    }
    pieces
}

/// Calls `ByteSlice::trim_start`. Trusted: the result is a function of the
/// input bytes alone, named `trimmed_start`.
#[verifier::external_body]
pub(crate) fn trim_start(bytes: &[u8]) -> (trimmed: Vec<u8>)
    ensures
        trimmed@ == trimmed_start(bytes@),
{
    bytes.trim_start().to_vec()
}

/// Calls `String::from_utf8_lossy`. Trusted: the result is a function of the
/// input bytes alone, named `lossy_text`, and well-formed UTF-8 is decoded as
/// it stands.
#[verifier::external_body]
pub(crate) fn decode_lossy(bytes: &[u8]) -> (text: String)
    ensures
        text@ == lossy_text(bytes@),
        valid_utf8(bytes@) ==> text@ == decode_utf8(bytes@),
{
    String::from_utf8_lossy(bytes).into_owned()
}

/// Calls `String::from_utf8`. Trusted: it succeeds exactly on well-formed
/// UTF-8, and the string it returns is the decoding of the bytes.
#[verifier::external_body]
pub(crate) fn decode_strict(bytes: Vec<u8>) -> (text: Option<String>)
    ensures
        text is Some <==> valid_utf8(bytes@),
        text matches Some(t) ==> t@ == decode_utf8(bytes@),
{
    match String::from_utf8(bytes) {
        Ok(text) => Some(text),
        Err(_) => None,
    }
}

} // verus!
