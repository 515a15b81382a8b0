//! Scans over the linearized buffer: finding the first UTF-8 leading byte,
//! finding the start of the first complete line, and splitting text into
//! lines, together with the lemmas that justify the scans.
use vstd::prelude::*;

verus! {

use vstd::utf8::{
    decode_utf8, is_char_boundary, is_char_boundary_iff_is_leading_byte,
    is_char_boundary_start_end_of_seq, is_leading_byte_width_1, is_leading_byte_width_2,
    is_leading_byte_width_3, is_leading_byte_width_4, valid_utf8, valid_utf8_split,
};

/// True when the byte matches one of the four UTF-8 leading-byte bit
/// patterns (`0xxxxxxx`, `110xxxxx`, `1110xxxx`, `11110xxx`).
pub open spec fn is_utf8_leader(b: u8) -> bool {
    ||| is_leading_byte_width_1(b)
    ||| is_leading_byte_width_2(b)
    ||| is_leading_byte_width_3(b)
    ||| is_leading_byte_width_4(b)
}

/// Index of the first leading byte, or the length when there is none.
pub open spec fn first_leader_index(s: Seq<u8>) -> int
    decreases s.len(),
{
    if s.len() == 0 {
        0
    } else if is_utf8_leader(s[0]) {
        0
    } else {
        1 + first_leader_index(s.drop_first())
    }
}

/// Index of the first line-feed byte, or the length when there is none.
pub open spec fn first_newline_index(s: Seq<u8>) -> int
    decreases s.len(),
{
    if s.len() == 0 {
        0
    } else if s[0] == 10u8 {
        0
    } else {
        1 + first_newline_index(s.drop_first())
    }
}

pub proof fn lemma_first_leader_index_bounds(s: Seq<u8>)
    ensures
        0 <= first_leader_index(s) <= s.len(),
        first_leader_index(s) < s.len() ==> is_utf8_leader(s[first_leader_index(s)]),
        forall|j: int| 0 <= j < first_leader_index(s) ==> !is_utf8_leader(s[j]),
    decreases s.len(),
{
    if s.len() > 0 && !is_utf8_leader(s[0]) {
        lemma_first_leader_index_bounds(s.drop_first());
        assert forall|j: int| 0 <= j < first_leader_index(s) implies !is_utf8_leader(s[j]) by {
            if j > 0 {
                assert(s[j] == s.drop_first()[j - 1]);
            }
        }
    }
}

/// The scan is determined: an index with no leading byte before it, and a
/// leading byte (or the end) at it, is the first leader index.
pub proof fn lemma_first_leader_index_at(s: Seq<u8>, i: int)
    requires
        0 <= i <= s.len(),
        forall|j: int| 0 <= j < i ==> !is_utf8_leader(s[j]),
        i < s.len() ==> is_utf8_leader(s[i]),
    ensures
        first_leader_index(s) == i,
    decreases s.len(),
{
    if s.len() > 0 && i > 0 {
        assert(forall|j: int| 0 <= j < i - 1 ==> s.drop_first()[j] == s[j + 1]);
        lemma_first_leader_index_at(s.drop_first(), i - 1);
    }
}

pub proof fn lemma_first_newline_index_bounds(s: Seq<u8>)
    ensures
        0 <= first_newline_index(s) <= s.len(),
        first_newline_index(s) < s.len() ==> s[first_newline_index(s)] == 10u8,
        forall|j: int| 0 <= j < first_newline_index(s) ==> s[j] != 10u8,
    decreases s.len(),
{
    if s.len() > 0 && s[0] != 10u8 {
        lemma_first_newline_index_bounds(s.drop_first());
        assert forall|j: int| 0 <= j < first_newline_index(s) implies s[j] != 10u8 by {
            if j > 0 {
                assert(s[j] == s.drop_first()[j - 1]);
            }
        }
    }
}

pub proof fn lemma_first_newline_index_at(s: Seq<u8>, i: int)
    requires
        0 <= i <= s.len(),
        forall|j: int| 0 <= j < i ==> s[j] != 10u8,
        i < s.len() ==> s[i] == 10u8,
    ensures
        first_newline_index(s) == i,
    decreases s.len(),
{
    if s.len() > 0 && i > 0 {
        assert(forall|j: int| 0 <= j < i - 1 ==> s.drop_first()[j] == s[j + 1]);
        lemma_first_newline_index_at(s.drop_first(), i - 1);
    }
}

/// The tail from the first leading byte onward: the bytes `extract` returns.
pub open spec fn extract_suffix(s: Seq<u8>) -> Seq<u8> {
    s.subrange(first_leader_index(s), s.len() as int)
}

/// The text a byte sequence holds: its UTF-8 decoding when it is valid, and
/// empty text otherwise.
pub open spec fn text_of(bytes: Seq<u8>) -> Seq<char> {
    if valid_utf8(bytes) {
        decode_utf8(bytes)
    } else {
        Seq::empty()
    }
}

/// Index of the first byte after the first line feed: the first index that
/// is known to begin a complete line. When no line feed occurs before the
/// last position, there is no such index and the whole length is returned.
pub open spec fn first_line_start(s: Seq<u8>) -> int {
    let k = first_newline_index(s);
    if 0 <= k < s.len() {
        k + 1
    } else {
        s.len() as int
    }
}

/// The tail from the first complete line onward: the bytes `extract_lines`
/// splits.
pub open spec fn lines_suffix(s: Seq<u8>) -> Seq<u8> {
    s.subrange(first_line_start(s), s.len() as int)
}

/// A line with one trailing carriage return removed, as happens to a line
/// that was terminated by a line feed.
pub open spec fn strip_cr(l: Seq<u8>) -> Seq<u8> {
    if l.len() > 0 && l.last() == 13u8 {
        l.drop_last()
    } else {
        l
    }
}

/// Splits a byte sequence on line-feed bytes: each produced line excludes
/// its terminating line feed and a trailing carriage return before it; an
/// unterminated final segment is produced as it stands, and a terminating
/// line feed at the very end does not produce an empty final line.
pub open spec fn split_lines(s: Seq<u8>) -> Seq<Seq<u8>>
    decreases s.len(),
    via split_lines_decreases
{
    if s.len() == 0 {
        Seq::empty()
    } else {
        let k = first_newline_index(s);
        if k == s.len() {
            seq![s]
        } else {
            seq![strip_cr(s.subrange(0, k))] + split_lines(s.subrange(k + 1, s.len() as int))
        }
    }
}

#[via_fn]
proof fn split_lines_decreases(s: Seq<u8>) {
    lemma_first_newline_index_bounds(s);
}

/// In well-formed UTF-8 text, scanning any tail for its first leading byte
/// finds a character boundary of the whole text, and the bytes from there on
/// are themselves well-formed UTF-8.
pub proof fn lemma_scan_finds_boundary(s: Seq<u8>, m: int)
    requires
        valid_utf8(s),
        0 <= m <= s.len(),
    ensures
        ({
            let w = s.subrange(m, s.len() as int);
            let f = first_leader_index(w);
            &&& 0 <= f <= w.len()
            &&& is_char_boundary(s, m + f)
            &&& extract_suffix(w) == s.subrange(m + f, s.len() as int)
            &&& valid_utf8(extract_suffix(w))
        }),
{
    let w = s.subrange(m, s.len() as int);
    let f = first_leader_index(w);
    lemma_first_leader_index_bounds(w);
    if m + f == s.len() {
        is_char_boundary_start_end_of_seq(s);
        assert(extract_suffix(w) =~= s.subrange(m + f, s.len() as int));
        assert(extract_suffix(w) =~= Seq::<u8>::empty());
    } else {
        assert(is_utf8_leader(s[m + f]));
        is_char_boundary_iff_is_leading_byte(s, m + f);
        assert(extract_suffix(w) =~= s.subrange(m + f, s.len() as int));
        valid_utf8_split(s, m + f);
    }
}

} // verus!
