//! The checksummed format: `LEN(4, big endian) PAYLOAD(LEN) CHECKSUM(4, big endian)`,
//! where the checksum is the sum of the payload bytes modulo 2^32.
//!
//! A frame whose checksum does not match empties the whole buffer.
use vstd::prelude::*;

use crate::bytes::{copy_range, drop_front};
use crate::frame::{decode_all, Frame, FrameBuilder, Step};

verus! {

/// The largest payload whose byte sum always fits in 32 bits.
pub const MAX_PAYLOAD: usize = 16_843_009;

/// The sum of the bytes of `p`.
pub open spec fn byte_sum(p: Seq<u8>) -> nat
    decreases p.len(),
{
    if p.len() == 0 {
        0
    } else {
        byte_sum(p.drop_last()) + p.last() as nat
    }
}

/// The checksum of payload `p`.
pub open spec fn checksum_of(p: Seq<u8>) -> u32 {
    (byte_sum(p) % 0x1_0000_0000) as u32
}

/// `x` as four bytes, most significant first.
pub open spec fn be32(x: u32) -> Seq<u8> {
    seq![(x >> 24u32) as u8, (x >> 16u32) as u8, (x >> 8u32) as u8, x as u8]
}

/// The four bytes of `buf` at `at`, read most significant first.
pub open spec fn read_be32(buf: Seq<u8>, at: int) -> u32 {
    ((buf[at] as u32) << 24u32) | ((buf[at + 1] as u32) << 16u32) | ((buf[at + 2] as u32)
        << 8u32) | (buf[at + 3] as u32)
}

/// The encoding of payload `p`.
pub open spec fn checksum32_encoding(p: Seq<u8>) -> Seq<u8> {
    be32(p.len() as u32) + p + be32(checksum_of(p))
}

/// One decode attempt on `buf`.
pub open spec fn checksum32_step(buf: Seq<u8>) -> Step {
    if buf.len() < 4 {
        Step::Incomplete
    } else {
        let n = read_be32(buf, 0) as int;
        if buf.len() < n + 8 {
            Step::Incomplete
        } else if read_be32(buf, n + 4) != checksum_of(buf.subrange(4, n + 4)) {
            Step::Skip { dropped: buf.len() }
        } else {
            Step::Frame { payload: buf.subrange(4, n + 4), consumed: (n + 8) as nat }
        }
    }
}

/// A message in the checksummed format.
#[derive(Clone)]
pub struct Checksum32Frame {
    payload_len: usize,
    payload: Vec<u8>,
    checksum: u32,
}

/// Recognises frames in the checksummed format.
#[derive(Clone)]
pub struct Checksum32FrameBuilder;

proof fn lemma_be32_read(x: u32)
    ensures
        read_be32(be32(x), 0) == x,
{
    let b = be32(x);
    let (b0, b1, b2, b3) = (b[0], b[1], b[2], b[3]);
    assert(b0 == (x >> 24u32) as u8 && b1 == (x >> 16u32) as u8 && b2 == (x >> 8u32) as u8 && b3
        == x as u8);
    assert((((((x >> 24u32) as u8) as u32) << 24u32) | ((((x >> 16u32) as u8) as u32) << 16u32)
        | ((((x >> 8u32) as u8) as u32) << 8u32) | ((x as u8) as u32)) == x) by (bit_vector);
}

proof fn lemma_be32_bytes(s: Seq<u8>, at: int)
    requires
        0 <= at,
        at + 4 <= s.len(),
    ensures
        be32(read_be32(s, at)) == s.subrange(at, at + 4),
{
    let (a, b, c, d) = (s[at], s[at + 1], s[at + 2], s[at + 3]);
    let x = read_be32(s, at);
    assert(x == ((a as u32) << 24u32) | ((b as u32) << 16u32) | ((c as u32) << 8u32) | (d as u32));
    assert((x >> 24u32) as u8 == a && (x >> 16u32) as u8 == b && (x >> 8u32) as u8 == c && x as u8
        == d) by (bit_vector)
        requires
            x == ((a as u32) << 24u32) | ((b as u32) << 16u32) | ((c as u32) << 8u32) | (d as u32),
    ;
    assert(be32(x) =~= s.subrange(at, at + 4));
}

/// A frame holds exactly the encoding of its payload.
pub proof fn lemma_wire_is_encoding(f: Checksum32Frame)
    requires
        f.wf(),
    ensures
        f.wire() == checksum32_encoding(f.payload_view()),
        f.payload_view().len() <= 0xFFFF_FFFF,
{
}

proof fn lemma_byte_sum_bound(p: Seq<u8>)
    ensures
        byte_sum(p) <= 255 * p.len(),
    decreases p.len(),
{
    if p.len() > 0 {
        lemma_byte_sum_bound(p.drop_last());
    }
}

proof fn lemma_byte_sum_push(p: Seq<u8>, i: int)
    requires
        0 <= i < p.len(),
    ensures
        byte_sum(p.take(i + 1)) == byte_sum(p.take(i)) + p[i] as nat,
{
    assert(p.take(i + 1).drop_last() =~= p.take(i));
}

/// Sums `s[lo..hi]` modulo 2^32.
fn sum_range(s: &[u8], lo: usize, hi: usize) -> (r: u32)
    requires
        lo <= hi <= s@.len(),
        hi - lo <= 0xFFFF_FFFF,
    ensures
        r == checksum_of(s@.subrange(lo as int, hi as int)),
{
    let ghost p = s@.subrange(lo as int, hi as int);
    let mut total: u64 = 0;
    let mut i: usize = lo;
    while i < hi
        invariant
            lo <= i <= hi <= s@.len(),
            hi - lo <= 0xFFFF_FFFF,
            p == s@.subrange(lo as int, hi as int),
            total as nat == byte_sum(p.take(i - lo)),
        decreases hi - i,
    {
        proof {
            lemma_byte_sum_bound(p.take(i - lo));
            lemma_byte_sum_push(p, i - lo);
        }
        total = total + s[i] as u64;
        i = i + 1;
    }
    assert(p.take(hi - lo) =~= p);
    (total % 0x1_0000_0000) as u32
}

/// Writes `x` as four bytes, most significant first.
fn push_be32(buf: &mut Vec<u8>, x: u32)
    ensures
        final(buf)@ == old(buf)@ + be32(x),
{
    buf.push((x >> 24u32) as u8);
    buf.push((x >> 16u32) as u8);
    buf.push((x >> 8u32) as u8);
    buf.push(x as u8);
    assert(buf@ =~= old(buf)@ + be32(x));
}

/// Reads four bytes of `buf` at `at`, most significant first.
fn get_be32(buf: &Vec<u8>, at: usize) -> (r: u32)
    requires
        at + 4 <= buf.len(),
    ensures
        r == read_be32(buf@, at as int),
{
    ((buf[at] as u32) << 24u32) | ((buf[at + 1] as u32) << 16u32) | ((buf[at + 2] as u32) << 8u32)
        | (buf[at + 3] as u32)
}

impl Checksum32Frame {
    /// Creates a frame carrying `buf`.
    pub fn new(buf: &[u8]) -> (r: Checksum32Frame)
        requires
            buf@.len() <= MAX_PAYLOAD,
        ensures
            r.wf(),
            r.payload_view() == buf@,
            r.wire() == checksum32_encoding(buf@),
    {
        let len = buf.len();
        let checksum = sum_range(buf, 0, len);
        let payload = copy_range(buf, 0, len);
        assert(buf@.subrange(0, len as int) =~= buf@);
        Checksum32Frame { payload_len: len, payload, checksum }
    }
}

impl Frame for Checksum32Frame {
    closed spec fn wf(&self) -> bool {
        &&& self.payload@.len() == self.payload_len
        &&& self.payload_len <= 0xFFFF_FFFF
        &&& self.payload_len + 8 <= usize::MAX
        &&& self.checksum == checksum_of(self.payload@)
    }

    closed spec fn wire(&self) -> Seq<u8> {
        checksum32_encoding(self.payload@)
    }

    closed spec fn payload_view(&self) -> Seq<u8> {
        self.payload@
    }

    fn to_bytes(&self) -> (r: Vec<u8>) {
        let mut buf: Vec<u8> = Vec::with_capacity(self.payload_len + 8);
        push_be32(&mut buf, self.payload_len as u32);
        let mut i: usize = 0;
        while i < self.payload_len
            invariant
                self.wf(),
                i <= self.payload_len,
                buf@ == be32(self.payload_len as u32) + self.payload@.take(i as int),
            decreases self.payload_len - i,
        {
            buf.push(self.payload[i]);
            i = i + 1;
            assert(self.payload@.take(i as int) =~= self.payload@.take((i - 1) as int).push(
                self.payload@[i - 1],
            ));
        }
        assert(self.payload@.take(i as int) =~= self.payload@);
        push_be32(&mut buf, self.checksum);
        buf
    }

    fn payload(&self) -> (r: Vec<u8>) {
        copy_range(self.payload.as_slice(), 0, self.payload_len)
    }

    fn len_as_vec(&self) -> (r: usize) {
        self.payload_len + 8
    }
}

impl FrameBuilder for Checksum32FrameBuilder {
    type Output = Checksum32Frame;

    open spec fn step(buf: Seq<u8>) -> Step {
        checksum32_step(buf)
    }

    proof fn lemma_step_in_bounds(buf: Seq<u8>) {
    }

    open spec fn decoded_from(buf: Seq<u8>, f: Checksum32Frame) -> bool {
        f.wire().len() <= buf.len() && f.wire() == buf.take(f.wire().len() as int)
    }

    proof fn lemma_decodes_own_encoding(f: Checksum32Frame, rest: Seq<u8>) {
        let p = f.payload@;
        let n = p.len() as int;
        let w = f.wire() + rest;
        lemma_be32_read(n as u32);
        lemma_be32_read(checksum_of(p));
        assert(w.subrange(0, 4) =~= be32(n as u32));
        assert(read_be32(w, 0) == read_be32(w.subrange(0, 4), 0));
        assert(w.subrange(n + 4, n + 8) =~= be32(checksum_of(p)));
        assert(read_be32(w, n + 4) == read_be32(w.subrange(n + 4, n + 8), 0));
        assert(w.subrange(4, n + 4) =~= p);
    }

    proof fn lemma_waits_on_partial_encoding(f: Checksum32Frame, k: nat) {
        let p = f.payload@;
        let n = p.len() as int;
        let q = f.wire().take(k as int);
        lemma_be32_read(n as u32);
        if k >= 4 {
            assert(q.subrange(0, 4) =~= be32(n as u32));
            assert(read_be32(q, 0) == read_be32(q.subrange(0, 4), 0));
        }
    }

    fn from_bytes(buf: &mut Vec<u8>) -> (r: Option<Checksum32Frame>) {
        if buf.len() < 8 {
            return None;
        }
        let n = get_be32(buf, 0) as usize;
        if buf.len() - 8 < n {
            return None;
        }
        let checksum = sum_range(buf.as_slice(), 4, n + 4);
        if get_be32(buf, n + 4) != checksum {
            *buf = Vec::new();
            assert(buf@ =~= old(buf)@.skip(old(buf)@.len() as int));
            return None;
        }
        let payload = copy_range(buf.as_slice(), 4, n + 4);
        proof {
            let b = old(buf)@;
            lemma_be32_bytes(b, 0);
            lemma_be32_bytes(b, n + 4);
            assert(checksum32_encoding(payload@) =~= b.take(n + 8));
        }
        drop_front(buf, n + 8);
        Some(Checksum32Frame { payload_len: n, payload, checksum })
    }
}

proof fn lemma_byte_sum_update(p: Seq<u8>, i: int, v: u8)
    requires
        0 <= i < p.len(),
    ensures
        byte_sum(p.update(i, v)) + p[i] as nat == byte_sum(p) + v as nat,
    decreases p.len(),
{
    let q = p.update(i, v);
    if i == p.len() - 1 {
        assert(q.drop_last() =~= p.drop_last());
    } else {
        assert(q.drop_last() =~= p.drop_last().update(i, v));
        lemma_byte_sum_update(p.drop_last(), i, v);
    }
}

/// Changing one payload byte of an encoded frame makes its checksum fail: the
/// changed bytes yield no frame, and they are discarded together with whatever
/// follows them in the buffer.
pub proof fn lemma_corrupt_payload_dropped(p: Seq<u8>, i: int, v: u8, rest: Seq<u8>)
    requires
        p.len() <= MAX_PAYLOAD,
        0 <= i < p.len(),
        v != p[i],
    ensures
        decode_all::<Checksum32FrameBuilder>(checksum32_encoding(p).update(4 + i, v) + rest) == (
            Seq::<Seq<u8>>::empty(),
            Seq::<u8>::empty(),
        ),
{
    let n = p.len() as int;
    let w = checksum32_encoding(p);
    let w2 = w.update(4 + i, v) + rest;
    lemma_be32_read(n as u32);
    lemma_be32_read(checksum_of(p));
    assert(w2.subrange(0, 4) =~= be32(n as u32));
    assert(read_be32(w2, 0) == read_be32(w2.subrange(0, 4), 0));
    assert(w2.subrange(n + 4, n + 8) =~= be32(checksum_of(p)));
    assert(read_be32(w2, n + 4) == read_be32(w2.subrange(n + 4, n + 8), 0));
    let changed = p.update(i, v);
    assert(w2.subrange(4, n + 4) =~= changed);
    lemma_byte_sum_update(p, i, v);
    lemma_byte_sum_bound(p);
    lemma_byte_sum_bound(changed);
    assert(byte_sum(p) < 0x1_0000_0000 && byte_sum(changed) < 0x1_0000_0000) by (nonlinear_arith)
        requires
            byte_sum(p) <= 255 * p.len(),
            byte_sum(changed) <= 255 * changed.len(),
            changed.len() == p.len(),
            p.len() <= 16_843_009,
    ;
    assert(checksum_of(changed) != checksum_of(p));
    assert(checksum32_step(w2) == Step::Skip { dropped: w2.len() });
    assert(w2.skip(w2.len() as int) =~= Seq::<u8>::empty());
    assert(decode_all::<Checksum32FrameBuilder>(Seq::<u8>::empty()) == (
        Seq::<Seq<u8>>::empty(),
        Seq::<u8>::empty(),
    ));
}

} // verus!
