//! Mathematical model of the circular byte buffer: the cleared storage, the
//! effect of circular writes, and the left rotation that linearizes the
//! content into chronological order.
use vstd::prelude::*;

verus! {

/// Byte used to fill cleared storage. It is never a leading byte of any
/// well-formed UTF-8 encoding, so a scan for a leading byte skips it.
pub const SENTINEL: u8 = 0xff;

/// Storage of a buffer of capacity `n` immediately after a clear.
pub open spec fn all_sentinel(n: nat) -> Seq<u8> {
    Seq::new(n, |i: int| SENTINEL)
}

/// The storage rotated left by `p` slots. When `p` is the write cursor, this
/// is the circular content in chronological order: the byte about to be
/// overwritten next comes first, the most recently written byte comes last.
pub open spec fn seq_rotate_left(s: Seq<u8>, p: int) -> Seq<u8>
    recommends
        0 <= p <= s.len(),
{
    s.subrange(p, s.len() as int) + s.subrange(0, p)
}

/// One byte stored at the cursor, which then advances, wrapping modulo the
/// capacity. Zero-capacity storage is left untouched.
pub open spec fn ring_write_one(s: Seq<u8>, p: int, b: u8) -> (Seq<u8>, int) {
    if s.len() == 0 {
        (s, p)
    } else {
        (s.update(p, b), (p + 1) % (s.len() as int))
    }
}

/// A whole byte sequence appended at the cursor, one byte at a time.
pub open spec fn ring_write(s: Seq<u8>, p: int, bs: Seq<u8>) -> (Seq<u8>, int)
    decreases bs.len(),
{
    if bs.len() == 0 {
        (s, p)
    } else {
        let (s1, p1) = ring_write_one(s, p, bs[0]);
        ring_write(s1, p1, bs.drop_first())
    }
}

/// A sequence of writes applied in order.
pub open spec fn ring_write_all(s: Seq<u8>, p: int, ws: Seq<Seq<u8>>) -> (Seq<u8>, int)
    decreases ws.len(),
{
    if ws.len() == 0 {
        (s, p)
    } else {
        let (s1, p1) = ring_write(s, p, ws[0]);
        ring_write_all(s1, p1, ws.drop_first())
    }
}

/// The concatenation of a sequence of byte sequences, in order.
pub open spec fn concat_bytes(ws: Seq<Seq<u8>>) -> Seq<u8>
    decreases ws.len(),
{
    if ws.len() == 0 {
        Seq::empty()
    } else {
        ws[0] + concat_bytes(ws.drop_first())
    }
}

/// The constant-time emptiness test: the cursor is at the start and the last
/// slot still holds the sentinel. Any write that laps the buffer passes
/// through the last slot, so a non-sentinel last byte means data was written.
pub open spec fn ring_is_empty(s: Seq<u8>, p: int) -> bool {
    p == 0 && (s.len() == 0 || s.last() == SENTINEL)
}

/// The last `r.len()` bytes of `r + bs`: what a full circular buffer holding
/// `r` (in chronological order) holds after `bs` is written through it.
pub open spec fn shift_in(r: Seq<u8>, bs: Seq<u8>) -> Seq<u8> {
    (r + bs).skip(bs.len() as int)
}

/// Writing one byte more extends the write of the preceding bytes.
pub proof fn lemma_ring_write_snoc(s: Seq<u8>, p: int, xs: Seq<u8>, b: u8)
    ensures
        ring_write(s, p, xs.push(b)) == ring_write_one(
            ring_write(s, p, xs).0,
            ring_write(s, p, xs).1,
            b,
        ),
    decreases xs.len(),
{
    let ys = xs.push(b);
    if xs.len() == 0 {
        assert(ys.len() == 1);
        assert(ys[0] == b);
        assert(ys.drop_first() =~= Seq::<u8>::empty());
        let (s1, p1) = ring_write_one(s, p, b);
        assert(ring_write(s, p, ys) == ring_write(s1, p1, ys.drop_first()));
        assert(ring_write(s1, p1, ys.drop_first()) == (s1, p1));
        assert(ring_write(s, p, xs) == (s, p));
    } else {
        assert(ys[0] == xs[0]);
        assert(ys.drop_first() =~= xs.drop_first().push(b));
        let (s1, p1) = ring_write_one(s, p, xs[0]);
        lemma_ring_write_snoc(s1, p1, xs.drop_first(), b);
        assert(ring_write(s, p, ys) == ring_write(s1, p1, ys.drop_first()));
        assert(ring_write(s, p, xs) == ring_write(s1, p1, xs.drop_first()));
    }
}

/// Rotating by zero slots changes nothing.
pub proof fn lemma_rotate_zero(s: Seq<u8>)
    ensures
        seq_rotate_left(s, 0) == s,
{
    assert(seq_rotate_left(s, 0) =~= s);
}

/// Writes into zero-capacity storage have no effect.
pub proof fn lemma_ring_write_empty_storage(s: Seq<u8>, p: int, bs: Seq<u8>)
    requires
        s.len() == 0,
    ensures
        ring_write(s, p, bs) == (s, p),
    decreases bs.len(),
{
    if bs.len() > 0 {
        lemma_ring_write_empty_storage(s, p, bs.drop_first());
    }
}

proof fn lemma_ring_write_all_empty_storage(s: Seq<u8>, p: int, ws: Seq<Seq<u8>>)
    requires
        s.len() == 0,
    ensures
        ring_write_all(s, p, ws) == (s, p),
    decreases ws.len(),
{
    if ws.len() > 0 {
        lemma_ring_write_empty_storage(s, p, ws[0]);
        lemma_ring_write_all_empty_storage(s, p, ws.drop_first());
    }
}

/// Writing one byte shifts the chronological view left by one and appends
/// the byte at the end.
proof fn lemma_ring_write_one_rotated(s: Seq<u8>, p: int, b: u8)
    requires
        s.len() > 0,
        0 <= p < s.len(),
    ensures
        ({
            let (s1, p1) = ring_write_one(s, p, b);
            &&& s1.len() == s.len()
            &&& 0 <= p1 < s.len()
            &&& seq_rotate_left(s1, p1) == seq_rotate_left(s, p).skip(1).push(b)
        }),
{
    let n = s.len() as int;
    let s1 = s.update(p, b);
    let p1 = (p + 1) % n;
    if p + 1 < n {
        vstd::arithmetic::div_mod::lemma_small_mod((p + 1) as nat, n as nat);
        assert(p1 == p + 1);
    } else {
        vstd::arithmetic::div_mod::lemma_mod_self_0(n);
        assert(p1 == 0);
    }
    assert(seq_rotate_left(s1, p1) =~= seq_rotate_left(s, p).skip(1).push(b));
}

/// Shifting a buffer through two byte sequences in turn is shifting it
/// through their concatenation.
proof fn lemma_shift_in_concat(r: Seq<u8>, a: Seq<u8>, b: Seq<u8>)
    ensures
        shift_in(shift_in(r, a), b) == shift_in(r, a + b),
{
    assert(shift_in(shift_in(r, a), b) =~= shift_in(r, a + b));
}

/// Writing a byte sequence shifts the chronological view: the result is the
/// last `capacity` bytes of the old view followed by the written bytes.
pub proof fn lemma_ring_write_rotated(s: Seq<u8>, p: int, bs: Seq<u8>)
    requires
        s.len() > 0,
        0 <= p < s.len(),
    ensures
        ({
            let (s2, p2) = ring_write(s, p, bs);
            &&& s2.len() == s.len()
            &&& 0 <= p2 < s.len()
            &&& p2 == (p + bs.len()) % (s.len() as int)
            &&& seq_rotate_left(s2, p2) == shift_in(seq_rotate_left(s, p), bs)
        }),
    decreases bs.len(),
{
    let n = s.len() as int;
    if bs.len() == 0 {
        vstd::arithmetic::div_mod::lemma_small_mod(p as nat, n as nat);
        assert(shift_in(seq_rotate_left(s, p), bs) =~= seq_rotate_left(s, p));
    } else {
        let (s1, p1) = ring_write_one(s, p, bs[0]);
        lemma_ring_write_one_rotated(s, p, bs[0]);
        lemma_ring_write_rotated(s1, p1, bs.drop_first());
        let one = seq![bs[0]];
        assert(seq_rotate_left(s, p).skip(1).push(bs[0]) =~= shift_in(
            seq_rotate_left(s, p),
            one,
        ));
        lemma_shift_in_concat(seq_rotate_left(s, p), one, bs.drop_first());
        assert(one + bs.drop_first() =~= bs);
        // cursor arithmetic: ((p + 1) % n + (bs.len() - 1)) % n == (p + bs.len()) % n
        let rest: int = bs.len() - 1;
        assert((p1 + rest) % n == (p + bs.len()) % n) by {
            vstd::arithmetic::div_mod::lemma_add_mod_noop(p1, rest, n);
            vstd::arithmetic::div_mod::lemma_add_mod_noop(p + 1, rest, n);
            vstd::arithmetic::div_mod::lemma_small_mod(p1 as nat, n as nat);
        }
    }
}

/// A sequence of writes shifts the chronological view by its concatenation.
pub proof fn lemma_ring_write_all_rotated(s: Seq<u8>, p: int, ws: Seq<Seq<u8>>)
    requires
        s.len() > 0,
        0 <= p < s.len(),
    ensures
        ({
            let (s2, p2) = ring_write_all(s, p, ws);
            let c = concat_bytes(ws);
            &&& s2.len() == s.len()
            &&& 0 <= p2 < s.len()
            &&& p2 == (p + c.len()) % (s.len() as int)
            &&& seq_rotate_left(s2, p2) == shift_in(seq_rotate_left(s, p), c)
        }),
    decreases ws.len(),
{
    let n = s.len() as int;
    if ws.len() == 0 {
        vstd::arithmetic::div_mod::lemma_small_mod(p as nat, n as nat);
        assert(shift_in(seq_rotate_left(s, p), concat_bytes(ws)) =~= seq_rotate_left(s, p));
    } else {
        let (s1, p1) = ring_write(s, p, ws[0]);
        lemma_ring_write_rotated(s, p, ws[0]);
        lemma_ring_write_all_rotated(s1, p1, ws.drop_first());
        lemma_shift_in_concat(seq_rotate_left(s, p), ws[0], concat_bytes(ws.drop_first()));
        let crest: int = concat_bytes(ws.drop_first()).len() as int;
        assert((p1 + crest) % n == (p + concat_bytes(ws).len()) % n) by {
            vstd::arithmetic::div_mod::lemma_add_mod_noop(p1, crest, n);
            vstd::arithmetic::div_mod::lemma_add_mod_noop(p + ws[0].len(), crest, n);
            vstd::arithmetic::div_mod::lemma_small_mod(p1 as nat, n as nat);
        }
    }
}

/// The state of a buffer of capacity `cap` after a clear followed by the
/// writes `ws`: the cursor sits at the total length modulo the capacity, and
/// the chronological view is the last `cap` bytes of the cleared storage
/// followed by everything written.
pub proof fn lemma_ring_content(cap: nat, ws: Seq<Seq<u8>>)
    ensures
        ({
            let (st, p) = ring_write_all(all_sentinel(cap), 0, ws);
            let c = concat_bytes(ws);
            &&& st.len() == cap
            &&& p == if cap == 0 { 0int } else { (c.len() as int) % (cap as int) }
            &&& 0 <= p
            &&& (cap > 0 ==> p < cap)
            &&& seq_rotate_left(st, p) == (all_sentinel(cap) + c).skip(c.len() as int)
        }),
{
    let c = concat_bytes(ws);
    if cap == 0 {
        lemma_ring_write_all_empty_storage(all_sentinel(cap), 0, ws);
        assert(seq_rotate_left(all_sentinel(cap), 0) =~= (all_sentinel(cap) + c).skip(
            c.len() as int,
        ));
    } else {
        lemma_ring_write_all_rotated(all_sentinel(cap), 0, ws);
        lemma_rotate_zero(all_sentinel(cap));
    }
}

} // verus!
