//! A fixed-capacity ring buffer for recording UTF-8 log text, in the manner
//! of a capped in-memory `dmesg`: text is appended circularly into storage
//! that never grows, old bytes are silently overwritten once the capacity
//! is exhausted, and the most recent text is recovered as one string or as
//! a sequence of complete lines, trimmed at the single spot where the wrap
//! seam can tear a multi-byte character or a line.
pub mod laws;
pub mod ring;
pub mod scan;

use vstd::prelude::*;

verus! {

use crate::ring::{
    SENTINEL, all_sentinel, lemma_ring_write_empty_storage, lemma_ring_write_snoc, ring_is_empty,
    ring_write, seq_rotate_left,
};
use crate::scan::{
    extract_suffix, first_leader_index, first_line_start, is_utf8_leader,
    lemma_first_leader_index_at, lemma_first_leader_index_bounds, lemma_first_newline_index_at,
    lines_suffix, split_lines, strip_cr, text_of,
};
use vstd::utf8::{decode_utf8, encode_utf8, valid_utf8};

/// Reverses `v[lo..hi]` in place by swapping from both ends.
fn reverse_range(v: &mut Vec<u8>, lo: usize, hi: usize)
    requires
        lo <= hi,
        hi <= old(v)@.len(),
    ensures
        final(v)@.len() == old(v)@.len(),
        forall|k: int| lo <= k < hi ==> final(v)@[k] == old(v)@[hi - 1 - (k - lo)],
        forall|k: int| 0 <= k < lo ==> final(v)@[k] == old(v)@[k],
        forall|k: int| hi <= k < old(v)@.len() ==> final(v)@[k] == old(v)@[k],
{
    let mut l = lo;
    let mut r = hi;
    while r - l > 1
        invariant
            lo <= l <= r <= hi <= v@.len(),
            l - lo == hi - r,
            v@.len() == old(v)@.len(),
            forall|k: int| lo <= k < l ==> v@[k] == old(v)@[hi - 1 - (k - lo)],
            forall|k: int| r <= k < hi ==> v@[k] == old(v)@[hi - 1 - (k - lo)],
            forall|k: int| l <= k < r ==> v@[k] == old(v)@[k],
            forall|k: int| 0 <= k < lo ==> v@[k] == old(v)@[k],
            forall|k: int| hi <= k < v@.len() ==> v@[k] == old(v)@[k],
        decreases r - l,
    {
        let a = v[l];
        let b = v[r - 1];
        v[l] = b;
        v[r - 1] = a;
        l += 1;
        r -= 1;
    }
}

/// True when the byte matches one of the four UTF-8 leading-byte bit
/// patterns.
fn byte_is_leader(b: u8) -> (r: bool)
    ensures
        r == is_utf8_leader(b),
{
    proof {
        vstd::utf8::utf8_byte_ranges_bitwise(b);
    }
    b & 0b1000_0000 == 0b0000_0000 || b & 0b1110_0000 == 0b1100_0000 || b & 0b1111_0000
        == 0b1110_0000 || b & 0b1111_1000 == 0b1111_0000
}

/// Scans forward for the first UTF-8 leading byte.
fn find_leader(buf: &Vec<u8>) -> (i: usize)
    ensures
        i as int == first_leader_index(buf@),
        i <= buf@.len(),
{
    let n = buf.len();
    let mut i: usize = 0;
    while i < n
        invariant
            i <= n,
            n == buf@.len(),
            forall|j: int| 0 <= j < i ==> !is_utf8_leader(buf@[j]),
        decreases n - i,
    {
        if byte_is_leader(buf[i]) {
            proof {
                lemma_first_leader_index_at(buf@, i as int);
            }
            return i;
        }
        i += 1;
    }
    proof {
        lemma_first_leader_index_at(buf@, n as int);
    }
    n
}

/// Scans forward for the first index preceded by a line-feed byte: the
/// first index known to begin a complete line. Returns the length when no
/// line feed occurs.
fn find_line_start(buf: &Vec<u8>) -> (i: usize)
    ensures
        i as int == first_line_start(buf@),
        i <= buf@.len(),
{
    let n = buf.len();
    let mut k: usize = 0;
    while k < n
        invariant
            k <= n,
            n == buf@.len(),
            forall|j: int| 0 <= j < k ==> buf@[j] != 10u8,
        decreases n - k,
    {
        if buf[k] == 10u8 {
            proof {
                lemma_first_newline_index_at(buf@, k as int);
            }
            return k + 1;
        }
        k += 1;
    }
    proof {
        lemma_first_newline_index_at(buf@, n as int);
    }
    n
}

/// Relies on core::str::from_utf8: it returns `Ok` exactly when the bytes
/// are well-formed UTF-8, and the string slice it returns then is the very
/// bytes it was given, viewed as the text they encode.
#[verifier::external_body]
fn bytes_to_str(v: &[u8]) -> (r: Option<&str>)
    ensures
        r is Some <==> valid_utf8(v@),
        r is Some ==> r.unwrap()@ == decode_utf8(v@),
{
    core::str::from_utf8(v).ok()
}

/// The text a byte slice holds: its decoding when it is well-formed UTF-8,
/// and the empty string otherwise.
fn slice_to_text(v: &[u8]) -> (r: String)
    ensures
        r@ == text_of(v@),
{
    match bytes_to_str(v) {
        Some(t) => t.to_owned(),
        None => String::new(),
    }
}

/// A ring buffer that stores UTF-8 text.
pub struct LogBuffer {
    buffer: Vec<u8>,
    position: usize,
}

impl LogBuffer {
    /// The bytes currently held, in storage order (not chronological order).
    pub closed spec fn bytes(&self) -> Seq<u8> {
        self.buffer@
    }

    /// The write cursor: the index of the next slot to be written.
    pub closed spec fn pos(&self) -> nat {
        self.position as nat
    }

    /// The fixed capacity: the length of the backing storage.
    pub open spec fn capacity(&self) -> nat {
        self.bytes().len()
    }

    /// The cursor stays inside the storage; it is zero when there is none.
    pub open spec fn wf(&self) -> bool {
        if self.capacity() == 0 {
            self.pos() == 0
        } else {
            self.pos() < self.capacity()
        }
    }

    /// Creates a new ring buffer, backed by `storage`.
    ///
    /// The buffer is cleared after creation.
    pub fn new(storage: Vec<u8>) -> (r: LogBuffer)
        ensures
            r.wf(),
            r.capacity() == storage@.len(),
            r.bytes() == all_sentinel(storage@.len()),
            r.pos() == 0,
    {
        let mut buffer = LogBuffer { buffer: storage, position: 0 };
        buffer.clear();
        buffer
    }

    /// Creates a new ring buffer, backed by `storage`.
    ///
    /// The buffer is *not* cleared after creation, and contains whatever is
    /// in `storage`. The `clear()` method should be called before use.
    pub fn uninitialized(storage: Vec<u8>) -> (r: LogBuffer)
        ensures
            r.wf(),
            r.capacity() == storage@.len(),
            r.bytes() == storage@,
            r.pos() == 0,
    {
        LogBuffer { buffer: storage, position: 0 }
    }

    /// Clears the buffer: the cursor returns to the start and every byte of
    /// the storage is overwritten with the sentinel.
    ///
    /// Only the text written after clearing will be read out by a future
    /// extraction. This function takes O(n) time where n is buffer length.
    pub fn clear(&mut self)
        ensures
            final(self).wf(),
            final(self).capacity() == old(self).capacity(),
            final(self).bytes() == all_sentinel(old(self).capacity()),
            final(self).pos() == 0,
    {
        self.position = 0;
        let n = self.buffer.len();
        let mut i: usize = 0;
        while i < n
            invariant
                i <= n,
                self.position == 0,
                self.buffer@.len() == n,
                forall|j: int| 0 <= j < i ==> self.buffer@[j] == SENTINEL,
            decreases n - i,
        {
            self.buffer[i] = SENTINEL;
            i += 1;
        }
        assert(self.buffer@ =~= all_sentinel(old(self).capacity()));
    }

    /// Appends `s` to the ring buffer, starting at the cursor and wrapping
    /// around to the start whenever the end of the storage is reached. Bytes
    /// written more than one capacity ago are overwritten. No error is
    /// raised regardless of length; on zero-capacity storage this is a
    /// no-op.
    ///
    /// This function takes O(n) time where n is the length of `s`.
    pub fn write_str(&mut self, s: &str)
        requires
            old(self).wf(),
        ensures
            final(self).wf(),
            final(self).capacity() == old(self).capacity(),
            final(self).bytes() == ring_write(
                old(self).bytes(),
                old(self).pos() as int,
                encode_utf8(s@),
            ).0,
            final(self).pos() == ring_write(
                old(self).bytes(),
                old(self).pos() as int,
                encode_utf8(s@),
            ).1,
    {
        let bytes: &[u8] = s.as_bytes();
        let n = self.buffer.len();
        if n == 0 {
            proof {
                lemma_ring_write_empty_storage(
                    self.buffer@,
                    self.position as int,
                    encode_utf8(s@),
                );
            }
            return ;
        }
        let m = bytes.len();
        let mut i: usize = 0;
        while i < m
            invariant
                i <= m,
                m == bytes@.len(),
                n == self.buffer@.len(),
                n > 0,
                self.position < n,
                self.buffer@ == ring_write(
                    old(self).bytes(),
                    old(self).pos() as int,
                    bytes@.take(i as int),
                ).0,
                self.position as int == ring_write(
                    old(self).bytes(),
                    old(self).pos() as int,
                    bytes@.take(i as int),
                ).1,
            decreases m - i,
        {
            proof {
                lemma_ring_write_snoc(
                    old(self).bytes(),
                    old(self).pos() as int,
                    bytes@.take(i as int),
                    bytes@[i as int],
                );
                assert(bytes@.take(i + 1) =~= bytes@.take(i as int).push(bytes@[i as int]));
            }
            let b = bytes[i];
            self.buffer[self.position] = b;
            self.position = (self.position + 1) % n;
            i += 1;
        }
        proof {
            assert(bytes@.take(m as int) =~= bytes@);
        }
    }

    /// Rotates the storage in place so that its circular content becomes
    /// contiguous in chronological order, and resets the cursor to zero.
    /// The rotation is done with three in-place reversals: O(n) time and
    /// O(1) extra space.
    fn rotate(&mut self)
        requires
            old(self).wf(),
        ensures
            final(self).wf(),
            final(self).capacity() == old(self).capacity(),
            final(self).bytes() == seq_rotate_left(old(self).bytes(), old(self).pos() as int),
            final(self).pos() == 0,
    {
        let n = self.buffer.len();
        let p = self.position;
        reverse_range(&mut self.buffer, 0, p);
        reverse_range(&mut self.buffer, p, n);
        reverse_range(&mut self.buffer, 0, n);
        self.position = 0;
        proof {
            let a = old(self).bytes();
            let pi = p as int;
            let ni = n as int;
            assert forall|i: int| 0 <= i < ni implies self.buffer@[i] == seq_rotate_left(
                a,
                pi,
            )[i] by {
                if ni - 1 - i >= pi {
                    assert(self.buffer@[i] == a[i + pi]);
                } else {
                    assert(self.buffer@[i] == a[i + pi - ni]);
                }
            }
            assert(self.buffer@ =~= seq_rotate_left(a, pi));
        }
    }

    /// Extracts the contents of the ring buffer as one string, excluding any
    /// partially overwritten UTF-8 code unit sequence at the beginning: the
    /// buffer is linearized in place, and the text from the first leading
    /// byte to the end is returned. Sentinel bytes and torn continuation
    /// bytes fail every leading-byte pattern and are skipped.
    ///
    /// This function takes O(n) time where n is buffer length.
    pub fn extract(&mut self) -> (r: String)
        requires
            old(self).wf(),
        ensures
            final(self).wf(),
            final(self).capacity() == old(self).capacity(),
            final(self).bytes() == seq_rotate_left(old(self).bytes(), old(self).pos() as int),
            final(self).pos() == 0,
            r@ == text_of(
                extract_suffix(seq_rotate_left(old(self).bytes(), old(self).pos() as int)),
            ),
    {
        self.rotate();
        let i = find_leader(&self.buffer);
        proof {
            lemma_first_leader_index_bounds(self.buffer@);
        }
        let tail: &[u8] = vstd::slice::slice_subrange(self.buffer.as_slice(), i, self.buffer.len());
        proof {
            assert(tail@ =~= extract_suffix(self.buffer@));
        }
        slice_to_text(tail)
    }

    /// Extracts the contents of the ring buffer as its complete lines,
    /// excluding any partially overwritten line at the beginning: the buffer
    /// is linearized in place, the scan starts after the first line feed,
    /// and the text from there on is split on line feeds. Each produced
    /// line excludes its terminating line feed and a trailing carriage
    /// return before it.
    ///
    /// The first line written to the ring buffer after clearing it should
    /// start with `'\n'`, or it will be treated as partially overwritten
    /// and lost.
    ///
    /// This function takes O(n) time where n is buffer length.
    pub fn extract_lines(&mut self) -> (r: Vec<String>)
        requires
            old(self).wf(),
        ensures
            final(self).wf(),
            final(self).capacity() == old(self).capacity(),
            final(self).bytes() == seq_rotate_left(old(self).bytes(), old(self).pos() as int),
            final(self).pos() == 0,
            ({
                let lines = split_lines(
                    lines_suffix(seq_rotate_left(old(self).bytes(), old(self).pos() as int)),
                );
                &&& r@.len() == lines.len()
                &&& forall|q: int| 0 <= q < lines.len() ==> r@[q]@ == text_of(lines[q])
            }),
    {
        self.rotate();
        let n = self.buffer.len();
        let start = find_line_start(&self.buffer);
        let ghost full = self.buffer@.subrange(start as int, n as int);
        proof {
            assert(full == lines_suffix(self.buffer@));
        }
        let mut result: Vec<String> = Vec::new();
        let ghost mut done: Seq<Seq<u8>> = Seq::empty();
        let mut ls: usize = start;
        let mut j: usize = start;
        while j < n
            invariant
                start <= ls <= j <= n,
                n == self.buffer@.len(),
                forall|t: int| ls <= t < j ==> self.buffer@[t] != 10u8,
                split_lines(full) == done + split_lines(
                    self.buffer@.subrange(ls as int, n as int),
                ),
                result@.len() == done.len(),
                forall|q: int| 0 <= q < done.len() ==> result@[q]@ == text_of(done[q]),
            decreases n - j,
        {
            if self.buffer[j] == 10u8 {
                let end = if j > ls && self.buffer[j - 1] == 13u8 {
                    j - 1
                } else {
                    j
                };
                let line: &[u8] = vstd::slice::slice_subrange(self.buffer.as_slice(), ls, end);
                let t = slice_to_text(line);
                proof {
                    let rem = self.buffer@.subrange(ls as int, n as int);
                    let k: int = j - ls;
                    assert forall|x: int| 0 <= x < k implies rem[x] != 10u8 by {
                        assert(rem[x] == self.buffer@[ls + x]);
                    }
                    assert(rem[k] == 10u8);
                    lemma_first_newline_index_at(rem, k);
                    assert(strip_cr(rem.subrange(0, k)) =~= self.buffer@.subrange(
                        ls as int,
                        end as int,
                    ));
                    assert(rem.subrange(k + 1, rem.len() as int) =~= self.buffer@.subrange(
                        j + 1,
                        n as int,
                    ));
                    assert(split_lines(rem) == seq![strip_cr(rem.subrange(0, k))] + split_lines(
                        rem.subrange(k + 1, rem.len() as int),
                    ));
                    done = done.push(self.buffer@.subrange(ls as int, end as int));
                }
                result.push(t);
                ls = j + 1;
            }
            j += 1;
        }
        if ls < n {
            let line: &[u8] = vstd::slice::slice_subrange(self.buffer.as_slice(), ls, n);
            let t = slice_to_text(line);
            proof {
                let rem = self.buffer@.subrange(ls as int, n as int);
                assert forall|x: int| 0 <= x < rem.len() implies rem[x] != 10u8 by {
                    assert(rem[x] == self.buffer@[ls + x]);
                }
                lemma_first_newline_index_at(rem, rem.len() as int);
                assert(split_lines(rem) == seq![rem]);
                done = done.push(rem);
            }
            result.push(t);
        } else {
            proof {
                assert(self.buffer@.subrange(ls as int, n as int) =~= Seq::<u8>::empty());
            }
        }
        proof {
            assert(split_lines(full) =~= done);
        }
        result
    }

    /// Checks whether the ring buffer is empty: the cursor is at the start
    /// and the last slot still holds the sentinel.
    ///
    /// This function takes O(1) time.
    pub fn is_empty(&self) -> (r: bool)
        ensures
            r == ring_is_empty(self.bytes(), self.pos() as int),
    {
        let n = self.buffer.len();
        self.position == 0 && (n == 0 || self.buffer[n - 1] == SENTINEL)
    }
}

} // verus!
