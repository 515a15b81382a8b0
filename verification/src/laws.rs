//! The general guarantees of the buffer, stated over the model and proved:
//! what extraction returns when the writes fit, what it returns once they
//! overflow, what a clear leaves behind, and that extraction is idempotent.
use vstd::prelude::*;

verus! {

use crate::ring::{
    SENTINEL, all_sentinel, concat_bytes, lemma_ring_content, lemma_ring_write_rotated,
    lemma_rotate_zero, ring_is_empty, ring_write, ring_write_all, seq_rotate_left, shift_in,
};
use crate::scan::{
    extract_suffix, first_leader_index, is_utf8_leader, lemma_first_leader_index_at,
    lemma_scan_finds_boundary, text_of,
};
use vstd::utf8::{
    decode_utf8, decode_utf8_encode_utf8, decode_utf8_split, encode_utf8, is_char_boundary,
    is_char_boundary_iff_is_leading_byte, is_char_boundary_start_end_of_seq, valid_first_scalar,
    valid_utf8, valid_utf8_concat, valid_utf8_last,
};

/// The concatenation of the text that a sequence of writes carries, in
/// order.
pub open spec fn concat_chars(ws: Seq<Seq<u8>>) -> Seq<char>
    decreases ws.len(),
{
    if ws.len() == 0 {
        Seq::empty()
    } else {
        decode_utf8(ws[0]) + concat_chars(ws.drop_first())
    }
}

/// The concatenation of well-formed UTF-8 writes is well-formed, and
/// decodes to the concatenation of the texts written.
pub proof fn lemma_concat_text(ws: Seq<Seq<u8>>)
    requires
        forall|k: int| 0 <= k < ws.len() ==> valid_utf8(#[trigger] ws[k]),
    ensures
        valid_utf8(concat_bytes(ws)),
        decode_utf8(concat_bytes(ws)) == concat_chars(ws),
    decreases ws.len(),
{
    if ws.len() > 0 {
        let a = ws[0];
        assert(forall|k: int|
            0 <= k < ws.drop_first().len() ==> #[trigger] ws.drop_first()[k] == ws[k + 1]);
        lemma_concat_text(ws.drop_first());
        let b = concat_bytes(ws.drop_first());
        valid_utf8_concat(a, b);
        let c = a + b;
        let al = a.len() as int;
        if al == c.len() {
            is_char_boundary_start_end_of_seq(c);
        } else {
            assert(b.len() > 0);
            assert(valid_first_scalar(b));
            assert(c[al] == b[0]);
            is_char_boundary_iff_is_leading_byte(c, al);
        }
        decode_utf8_split(c, al);
        assert(c.subrange(0, al) =~= a);
        assert(c.subrange(al, c.len() as int) =~= b);
    }
}

/// Law: over every sequence of writes whose total byte length is at most
/// the capacity, extraction after a clear returns exactly the concatenation
/// of all written text, in order, unmodified.
pub proof fn lemma_extract_returns_all_written(cap: nat, ws: Seq<Seq<u8>>)
    requires
        forall|k: int| 0 <= k < ws.len() ==> valid_utf8(#[trigger] ws[k]),
        concat_bytes(ws).len() <= cap,
    ensures
        ({
            let (st, p) = ring_write_all(all_sentinel(cap), 0, ws);
            text_of(extract_suffix(seq_rotate_left(st, p))) == concat_chars(ws)
        }),
{
    lemma_ring_content(cap, ws);
    lemma_concat_text(ws);
    let (st, p) = ring_write_all(all_sentinel(cap), 0, ws);
    let c = concat_bytes(ws);
    let rot = seq_rotate_left(st, p);
    let pad = (cap - c.len()) as nat;
    assert(rot =~= all_sentinel(pad) + c);
    assert forall|j: int| 0 <= j < pad implies !is_utf8_leader(rot[j]) by {
        assert(rot[j] == SENTINEL);
    }
    if c.len() > 0 {
        assert(valid_first_scalar(c));
        assert(is_utf8_leader(rot[pad as int]));
    }
    lemma_first_leader_index_at(rot, pad as int);
    assert(extract_suffix(rot) =~= c);
}

/// Law: once the total written length exceeds the capacity, extraction
/// after a clear returns a suffix of the written text: its encoding is a
/// tail of the concatenated written bytes, beginning at a character
/// boundary of that text, and at most the capacity long.
pub proof fn lemma_extract_returns_recent_suffix(cap: nat, ws: Seq<Seq<u8>>)
    requires
        forall|k: int| 0 <= k < ws.len() ==> valid_utf8(#[trigger] ws[k]),
        concat_bytes(ws).len() > cap,
    ensures
        ({
            let (st, p) = ring_write_all(all_sentinel(cap), 0, ws);
            let c = concat_bytes(ws);
            let r = text_of(extract_suffix(seq_rotate_left(st, p)));
            exists|k: int|
                {
                    &&& 0 <= k <= c.len()
                    &&& is_char_boundary(c, k)
                    &&& encode_utf8(r) == c.subrange(k, c.len() as int)
                    &&& c.len() - k <= cap
                }
        }),
{
    lemma_ring_content(cap, ws);
    lemma_concat_text(ws);
    let (st, p) = ring_write_all(all_sentinel(cap), 0, ws);
    let c = concat_bytes(ws);
    let rot = seq_rotate_left(st, p);
    let m = c.len() - cap;
    assert(rot =~= c.subrange(m as int, c.len() as int));
    lemma_scan_finds_boundary(c, m as int);
    let f = first_leader_index(rot);
    let k = m + f;
    let suf = extract_suffix(rot);
    assert(suf == c.subrange(k as int, c.len() as int));
    assert(valid_utf8(suf));
    decode_utf8_encode_utf8(suf);
    assert({
        &&& 0 <= k <= c.len()
        &&& is_char_boundary(c, k as int)
        &&& encode_utf8(text_of(extract_suffix(rot))) == c.subrange(k as int, c.len() as int)
        &&& c.len() - k <= cap
    });
}

/// Law: a clear followed immediately by an extraction returns empty text.
pub proof fn lemma_clear_then_extract_empty(cap: nat)
    ensures
        text_of(extract_suffix(seq_rotate_left(all_sentinel(cap), 0))) == Seq::<char>::empty(),
{
    lemma_rotate_zero(all_sentinel(cap));
    let s = all_sentinel(cap);
    assert(forall|j: int| 0 <= j < cap ==> !is_utf8_leader(#[trigger] s[j]));
    lemma_first_leader_index_at(s, cap as int);
    assert(extract_suffix(s) =~= Seq::<u8>::empty());
}

/// Law: after a clear followed by any sequence of writes of well-formed
/// text into a buffer of positive capacity, the constant-time emptiness
/// test holds exactly when not a single byte has been written.
pub proof fn lemma_is_empty_iff_nothing_written(cap: nat, ws: Seq<Seq<u8>>)
    requires
        cap > 0,
        forall|k: int| 0 <= k < ws.len() ==> valid_utf8(#[trigger] ws[k]),
    ensures
        ({
            let (st, p) = ring_write_all(all_sentinel(cap), 0, ws);
            ring_is_empty(st, p) <==> concat_bytes(ws).len() == 0
        }),
{
    lemma_ring_content(cap, ws);
    lemma_concat_text(ws);
    let (st, p) = ring_write_all(all_sentinel(cap), 0, ws);
    let c = concat_bytes(ws);
    let t = c.len() as int;
    let n = cap as int;
    if t == 0 {
        vstd::arithmetic::div_mod::lemma_small_mod(0nat, cap);
        lemma_rotate_zero(st);
        assert(st =~= all_sentinel(cap));
        assert(st.last() == SENTINEL);
    } else {
        if p == 0 {
            if t < n {
                vstd::arithmetic::div_mod::lemma_small_mod(c.len(), cap);
                assert(false);
            }
            lemma_rotate_zero(st);
            assert(st == (all_sentinel(cap) + c).skip(t));
            assert(st.last() == c.last());
            valid_utf8_last(c);
            assert(c.last() != SENTINEL);
        }
    }
}

/// Law: a write of exactly one capacity of well-formed text is reproduced
/// by the following extraction exactly, in order, whatever the buffer held
/// and wherever its cursor stood beforehand.
pub proof fn lemma_exact_capacity_round_trip(s: Seq<u8>, p: int, w: Seq<u8>)
    requires
        valid_utf8(w),
        w.len() == s.len(),
        if s.len() == 0 {
            p == 0
        } else {
            0 <= p < s.len()
        },
    ensures
        ({
            let (s2, p2) = ring_write(s, p, w);
            text_of(extract_suffix(seq_rotate_left(s2, p2))) == decode_utf8(w)
        }),
{
    let (s2, p2) = ring_write(s, p, w);
    if s.len() == 0 {
        crate::ring::lemma_ring_write_empty_storage(s, p, w);
        lemma_rotate_zero(s);
        assert(seq_rotate_left(s2, p2) =~= w);
        lemma_first_leader_index_at(w, 0);
        assert(extract_suffix(w) =~= w);
    } else {
        lemma_ring_write_rotated(s, p, w);
        assert(shift_in(seq_rotate_left(s, p), w) =~= w);
        assert(valid_first_scalar(w));
        lemma_first_leader_index_at(w, 0);
        assert(extract_suffix(w) =~= w);
    }
}

/// Law: extracting twice in a row without an intervening write returns the
/// same text both times, because rotating with the cursor at zero changes
/// nothing.
pub proof fn lemma_extract_idempotent(s: Seq<u8>, p: int)
    requires
        0 <= p <= s.len(),
    ensures
        ({
            let once = seq_rotate_left(s, p);
            &&& seq_rotate_left(once, 0) == once
            &&& text_of(extract_suffix(seq_rotate_left(once, 0))) == text_of(extract_suffix(once))
        }),
{
    lemma_rotate_zero(seq_rotate_left(s, p));
}

} // verus!
