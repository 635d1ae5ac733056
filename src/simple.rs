//! The guarded format: `START(1) LEN(2, big endian) PAYLOAD(LEN) END(1)`.
//!
//! A buffer whose first byte is not `START`, or whose frame is not closed by
//! `END`, is discarded up to the next `START` byte after its first byte, or
//! entirely if it holds none.
use vstd::prelude::*;

use crate::bytes::{copy_range, drop_front};
use crate::frame::{decode_all, lemma_coalesced_delivery, payloads, wires, Frame, FrameBuilder, Step};

verus! {

/// Marks the start of a frame.
pub const START: u8 = 0x01;

/// Marks the end of a frame.
pub const END: u8 = 0x17;

/// The largest payload the 16-bit length field can describe.
pub const MAX_PAYLOAD: usize = 65535;

/// The encoding of payload `p`.
pub open spec fn simple_encoding(p: Seq<u8>) -> Seq<u8> {
    seq![START, (p.len() / 256) as u8, (p.len() % 256) as u8] + p + seq![END]
}

/// The length field of a buffer of at least three bytes.
pub open spec fn declared_len(buf: Seq<u8>) -> nat {
    buf[1] as nat * 256 + buf[2] as nat
}

/// The index of the first `START` byte of `buf` at or after `i`, or the length
/// of `buf` if there is none.
pub open spec fn next_start(buf: Seq<u8>, i: int) -> int
    decreases buf.len() - i,
{
    if i < 0 || i >= buf.len() {
        buf.len() as int
    } else if buf[i] == START {
        i
    } else {
        next_start(buf, i + 1)
    }
}

/// One decode attempt on `buf`. A buffer that does not start a well-formed
/// frame loses everything before its next `START` byte after the first, or
/// everything if there is none.
pub open spec fn simple_step(buf: Seq<u8>) -> Step {
    if buf.len() == 0 {
        Step::Incomplete
    } else if buf[0] != START {
        Step::Skip { dropped: next_start(buf, 1) as nat }
    } else if buf.len() < 3 {
        Step::Incomplete
    } else {
        let n = declared_len(buf) as int;
        if buf.len() < n + 4 {
            Step::Incomplete
        } else if buf[n + 3] != END {
            Step::Skip { dropped: next_start(buf, 1) as nat }
        } else {
            Step::Frame { payload: buf.subrange(3, n + 3), consumed: (n + 4) as nat }
        }
    }
}

/// A message in the guarded format.
#[derive(Clone)]
pub struct SimpleFrame {
    payload_len: u16,
    payload: Vec<u8>,
}

/// Recognises frames in the guarded format.
#[derive(Clone)]
pub struct SimpleFrameBuilder;

/// Encodes `slice` as one frame.
pub fn from_slice(slice: &[u8]) -> (r: Vec<u8>)
    requires
        slice@.len() <= MAX_PAYLOAD,
    ensures
        r@ == simple_encoding(slice@),
{
    let len = slice.len();
    let mut buf: Vec<u8> = Vec::with_capacity(len + 4);
    buf.push(START);
    buf.push((len / 256) as u8);
    buf.push((len % 256) as u8);
    let mut i: usize = 0;
    while i < len
        invariant
            len == slice@.len(),
            i <= len,
            buf@ == seq![START, (len / 256) as u8, (len % 256) as u8] + slice@.take(i as int),
        decreases len - i,
    {
        buf.push(slice[i]);
        i = i + 1;
        assert(slice@.take(i as int) =~= slice@.take((i - 1) as int).push(slice@[i - 1]));
    }
    buf.push(END);
    assert(slice@.take(len as int) =~= slice@);
    assert(buf@ =~= simple_encoding(slice@));
    buf
}

proof fn lemma_len_bytes(n: nat)
    requires
        n <= 65535,
    ensures
        ((n / 256) as u8) as nat * 256 + ((n % 256) as u8) as nat == n,
{
    assert(n / 256 < 256) by (nonlinear_arith)
        requires
            n <= 65535,
    ;
}

/// `next_start` lands on a `START` byte, or at the end, and skips only bytes
/// that are not `START`.
pub proof fn lemma_next_start(buf: Seq<u8>, i: int)
    requires
        0 <= i <= buf.len(),
    ensures
        i <= next_start(buf, i) <= buf.len(),
        next_start(buf, i) < buf.len() ==> buf[next_start(buf, i)] == START,
        forall|j: int| i <= j < next_start(buf, i) ==> buf[j] != START,
    decreases buf.len() - i,
{
    if i < buf.len() && buf[i] != START {
        lemma_next_start(buf, i + 1);
    }
}

proof fn lemma_next_start_past(buf: Seq<u8>, i: int, m: int)
    requires
        0 <= i <= m <= buf.len(),
        forall|j: int| i <= j < m ==> buf[j] != START,
    ensures
        next_start(buf, i) == next_start(buf, m),
    decreases m - i,
{
    if i < m {
        lemma_next_start_past(buf, i + 1, m);
    }
}

proof fn lemma_next_start_shift(g: Seq<u8>, x: Seq<u8>, k: int)
    requires
        0 <= k <= x.len(),
    ensures
        next_start(g + x, g.len() + k) == g.len() + next_start(x, k),
    decreases x.len() - k,
{
    if k < x.len() {
        assert((g + x)[g.len() + k] == x[k]);
        if x[k] != START {
            lemma_next_start_shift(g, x, k + 1);
        }
    }
}

/// Discards the front of `buf` up to its next `START` byte after the first.
fn skip_to_start(buf: &mut Vec<u8>)
    requires
        old(buf)@.len() >= 1,
    ensures
        1 <= next_start(old(buf)@, 1) <= old(buf)@.len(),
        final(buf)@ == old(buf)@.skip(next_start(old(buf)@, 1)),
{
    let ghost b = buf@;
    proof {
        lemma_next_start(b, 1);
    }
    let len = buf.len();
    let mut i: usize = 1;
    while i < len && buf[i] != START
        invariant
            b == buf@,
            len == b.len(),
            1 <= i <= len,
            next_start(b, i as int) == next_start(b, 1),
        decreases len - i,
    {
        i = i + 1;
    }
    drop_front(buf, i);
}

/// A frame holds exactly the encoding of its payload.
pub proof fn lemma_wire_is_encoding(f: SimpleFrame)
    requires
        f.wf(),
    ensures
        f.wire() == simple_encoding(f.payload_view()),
        f.payload_view().len() <= MAX_PAYLOAD,
{
}

impl SimpleFrame {
    /// Creates a frame carrying `buf`.
    pub fn new(buf: &[u8]) -> (r: SimpleFrame)
        requires
            buf@.len() <= MAX_PAYLOAD,
        ensures
            r.wf(),
            r.payload_view() == buf@,
            r.wire() == simple_encoding(buf@),
    {
        SimpleFrame { payload_len: buf.len() as u16, payload: copy_range(buf, 0, buf.len()) }
    }
}

impl Frame for SimpleFrame {
    closed spec fn wf(&self) -> bool {
        self.payload@.len() == self.payload_len as nat
    }

    closed spec fn wire(&self) -> Seq<u8> {
        simple_encoding(self.payload@)
    }

    closed spec fn payload_view(&self) -> Seq<u8> {
        self.payload@
    }

    fn to_bytes(&self) -> (r: Vec<u8>) {
        from_slice(self.payload.as_slice())
    }

    fn payload(&self) -> (r: Vec<u8>) {
        copy_range(self.payload.as_slice(), 0, self.payload.len())
    }

    fn len_as_vec(&self) -> (r: usize) {
        self.payload_len as usize + 4
    }
}

impl FrameBuilder for SimpleFrameBuilder {
    type Output = SimpleFrame;

    open spec fn step(buf: Seq<u8>) -> Step {
        simple_step(buf)
    }

    proof fn lemma_step_in_bounds(buf: Seq<u8>) {
        if buf.len() > 0 {
            lemma_next_start(buf, 1);
        }
    }

    open spec fn decoded_from(buf: Seq<u8>, f: SimpleFrame) -> bool {
        f.wire().len() <= buf.len() && f.wire() == buf.take(f.wire().len() as int)
    }

    proof fn lemma_decodes_own_encoding(f: SimpleFrame, rest: Seq<u8>) {
        let p = f.payload@;
        let n = p.len() as int;
        let w = f.wire() + rest;
        lemma_len_bytes(p.len());
        assert(w[0] == START);
        assert(declared_len(w) == n);
        assert(w[n + 3] == END);
        assert(w.subrange(3, n + 3) =~= p);
    }

    proof fn lemma_waits_on_partial_encoding(f: SimpleFrame, k: nat) {
        let p = f.payload@;
        let n = p.len();
        let q = f.wire().take(k as int);
        lemma_len_bytes(n);
        if k >= 3 {
            assert(q[1] == f.wire()[1] && q[2] == f.wire()[2]);
            assert(declared_len(q) == n);
        }
    }

    fn from_bytes(buf: &mut Vec<u8>) -> (r: Option<SimpleFrame>) {
        if buf.len() == 0 {
            return None;
        }
        if buf[0] != START {
            skip_to_start(buf);
            return None;
        }
        if buf.len() < 3 {
            return None;
        }
        let n: usize = buf[1] as usize * 256 + buf[2] as usize;
        if buf.len() < n + 4 {
            return None;
        }
        if buf[n + 3] != END {
            skip_to_start(buf);
            return None;
        }
        let payload = copy_range(buf.as_slice(), 3, n + 3);
        proof {
            let b = old(buf)@;
            let (b1, b2) = (b[1] as int, b[2] as int);
            let v = b1 * 256 + b2;
            assert(v / 256 == b1 && v % 256 == b2) by (nonlinear_arith)
                requires
                    0 <= b1 < 256,
                    0 <= b2 < 256,
                    v == b1 * 256 + b2,
            ;
            assert(simple_encoding(payload@) =~= b.take(n + 4));
        }
        drop_front(buf, n + 4);
        Some(SimpleFrame { payload_len: n as u16, payload })
    }
}

/// Leading bytes none of which is `START` are discarded, and decoding then goes
/// on exactly as if they had never arrived.
pub proof fn lemma_skips_to_start(g: Seq<u8>, x: Seq<u8>)
    requires
        forall|i: int| 0 <= i < g.len() ==> g[i] != START,
    ensures
        decode_all::<SimpleFrameBuilder>(g + x) == decode_all::<SimpleFrameBuilder>(x),
{
    let b = g + x;
    if g.len() == 0 {
        assert(b =~= x);
    } else {
        assert(b[0] == g[0]);
        assert forall|j: int| 1 <= j < g.len() implies b[j] != START by {
            assert(b[j] == g[j]);
        }
        lemma_next_start_past(b, 1, g.len() as int);
        lemma_next_start_shift(g, x, 0);
        lemma_next_start(x, 0);
        let k = next_start(x, 0);
        assert(simple_step(b) == Step::Skip { dropped: (g.len() + k) as nat });
        assert(b.skip(g.len() + k) =~= x.skip(k));
        if k > 0 {
            assert(x[0] != START);
            assert(next_start(x, 0) == next_start(x, 1));
            assert(simple_step(x) == Step::Skip { dropped: k as nat });
        } else {
            assert(x.skip(0) =~= x);
        }
    }
}

/// Garbage without a start byte ahead of well-formed frames yields no frame of
/// its own: exactly the frames that follow it are decoded, in order.
pub proof fn lemma_resync_recovers(g: Seq<u8>, fs: Seq<SimpleFrame>)
    requires
        forall|i: int| 0 <= i < g.len() ==> g[i] != START,
        forall|i: int| 0 <= i < fs.len() ==> (#[trigger] fs[i]).wf(),
    ensures
        decode_all::<SimpleFrameBuilder>(g + wires(fs)) == (payloads(fs), Seq::<u8>::empty()),
{
    lemma_skips_to_start(g, wires(fs));
    lemma_coalesced_delivery::<SimpleFrameBuilder>(fs);
}

} // verus!
