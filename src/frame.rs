//! The contract between a stream and a wire format.
//!
//! A `Frame` is one complete message as it travels on the wire; a `FrameBuilder`
//! recognises one frame at the front of a receive buffer. Each format describes a
//! single decode attempt by its `step` model, and the stream engine's behaviour is
//! stated in terms of `decode_all`, which iterates that model.
use vstd::prelude::*;

verus! {

/// What one decode attempt does with the front of a receive buffer.
pub enum Step {
    /// A complete frame with this payload occupies the first `consumed` bytes.
    Frame { payload: Seq<u8>, consumed: nat },
    /// More bytes are needed; the buffer is left as it is.
    Incomplete,
    /// The front of the buffer is corrupt; its first `dropped` bytes are discarded.
    Skip { dropped: nat },
    /// The front of the buffer cannot start a frame; the buffer is left as it is.
    Rejected,
}

/// Consumption and discarding always make progress and stay inside the buffer.
pub open spec fn step_in_bounds(s: Step, len: nat) -> bool {
    match s {
        Step::Frame { consumed, .. } => 0 < consumed <= len,
        Step::Skip { dropped } => 0 < dropped <= len,
        _ => true,
    }
}

/// A message that can be written to a stream.
pub trait Frame: Sized {
    /// The frame's fields agree with each other and its encoding fits in memory.
    spec fn wf(&self) -> bool;

    /// The exact bytes that `to_bytes` produces.
    spec fn wire(&self) -> Seq<u8>;

    /// The application payload, after any format-specific transform.
    spec fn payload_view(&self) -> Seq<u8>;

    /// Serialises the frame for sending.
    fn to_bytes(&self) -> (r: Vec<u8>)
        requires
            self.wf(),
        ensures
            r@ == self.wire(),
    ;

    /// Returns the payload data section of the frame.
    fn payload(&self) -> (r: Vec<u8>)
        requires
            self.wf(),
        ensures
            r@ == self.payload_view(),
    ;

    /// Returns the number of bytes `to_bytes` would produce.
    fn len_as_vec(&self) -> (r: usize)
        requires
            self.wf(),
        ensures
            r == self.wire().len(),
    ;
}

/// Whether `from_bytes` did what `s` describes, going from `before` to `after`.
pub open spec fn decoded_as<F: Frame>(s: Step, before: Seq<u8>, after: Seq<u8>, r: Option<F>) -> bool {
    match s {
        Step::Frame { payload, consumed } => {
            &&& r is Some
            &&& r->0.wf()
            &&& r->0.payload_view() == payload
            &&& after == before.skip(consumed as int)
        },
        Step::Skip { dropped } => r is None && after == before.skip(dropped as int),
        _ => r is None && after == before,
    }
}

/// A wire format: recognises one frame at the front of a buffer.
pub trait FrameBuilder {
    type Output: Frame;

    /// The model of one decode attempt on a buffer holding `buf`.
    spec fn step(buf: Seq<u8>) -> Step;

    /// A decode attempt never reaches past the end of the buffer.
    proof fn lemma_step_in_bounds(buf: Seq<u8>)
        ensures
            step_in_bounds(Self::step(buf), buf.len()),
    ;

    /// A buffer that starts with the encoding of a frame decodes to that frame's
    /// payload and consumes exactly the encoded length, whatever follows.
    proof fn lemma_decodes_own_encoding(f: Self::Output, rest: Seq<u8>)
        requires
            f.wf(),
        ensures
            Self::step(f.wire() + rest) == (Step::Frame {
                payload: f.payload_view(),
                consumed: f.wire().len(),
            }),
    ;

    /// A buffer that holds only part of a frame's encoding asks for more bytes.
    proof fn lemma_waits_on_partial_encoding(f: Self::Output, n: nat)
        requires
            f.wf(),
            n < f.wire().len(),
        ensures
            Self::step(f.wire().take(n as int)) == Step::Incomplete,
    ;

    /// What a frame decoded from the front of `buf` holds besides its payload:
    /// the format's header fields, as read from `buf`.
    spec fn decoded_from(buf: Seq<u8>, f: Self::Output) -> bool;

    /// Makes one decode attempt at the front of `buf`, removing what it consumes
    /// or discards.
    fn from_bytes(buf: &mut Vec<u8>) -> (r: Option<Self::Output>)
        ensures
            decoded_as(Self::step(old(buf)@), old(buf)@, final(buf)@, r),
            r is Some ==> Self::decoded_from(old(buf)@, r->0),
    ;
}

/// Repeated decode attempts on `buf` until one of them neither yields a frame nor
/// discards bytes: the payloads found, in order, and the bytes left.
pub open spec fn decode_all<FB: FrameBuilder>(buf: Seq<u8>) -> (Seq<Seq<u8>>, Seq<u8>)
    decreases buf.len(),
{
    match FB::step(buf) {
        Step::Frame { payload, consumed } => if 0 < consumed <= buf.len() {
            let (ps, rest) = decode_all::<FB>(buf.skip(consumed as int));
            (seq![payload] + ps, rest)
        } else {
            (seq![], buf)
        },
        Step::Skip { dropped } => if 0 < dropped <= buf.len() {
            decode_all::<FB>(buf.skip(dropped as int))
        } else {
            (seq![], buf)
        },
        _ => (seq![], buf),
    }
}

/// Repeated decode attempts on `buf` until the first frame: its payload, if one
/// was found, and the bytes left.
pub open spec fn decode_first<FB: FrameBuilder>(buf: Seq<u8>) -> (Option<Seq<u8>>, Seq<u8>)
    decreases buf.len(),
{
    match FB::step(buf) {
        Step::Frame { payload, consumed } => if 0 < consumed <= buf.len() {
            (Some(payload), buf.skip(consumed as int))
        } else {
            (None, buf)
        },
        Step::Skip { dropped } => if 0 < dropped <= buf.len() {
            decode_first::<FB>(buf.skip(dropped as int))
        } else {
            (None, buf)
        },
        _ => (None, buf),
    }
}

/// The buffers, in order, at whose front `decode_all` finds its frames.
pub open spec fn frame_starts<FB: FrameBuilder>(buf: Seq<u8>) -> Seq<Seq<u8>>
    decreases buf.len(),
{
    match FB::step(buf) {
        Step::Frame { consumed, .. } => if 0 < consumed <= buf.len() {
            seq![buf] + frame_starts::<FB>(buf.skip(consumed as int))
        } else {
            seq![]
        },
        Step::Skip { dropped } => if 0 < dropped <= buf.len() {
            frame_starts::<FB>(buf.skip(dropped as int))
        } else {
            seq![]
        },
        _ => seq![],
    }
}

/// The buffer at whose front `decode_first` finds its frame, if it finds one.
pub open spec fn first_start<FB: FrameBuilder>(buf: Seq<u8>) -> Seq<u8>
    decreases buf.len(),
{
    match FB::step(buf) {
        Step::Skip { dropped } => if 0 < dropped <= buf.len() {
            first_start::<FB>(buf.skip(dropped as int))
        } else {
            buf
        },
        _ => buf,
    }
}

/// The payloads of a sequence of frames.
pub open spec fn payloads<F: Frame>(fs: Seq<F>) -> Seq<Seq<u8>> {
    fs.map_values(|f: F| f.payload_view())
}

/// The concatenated encodings of a sequence of frames.
pub open spec fn wires<F: Frame>(fs: Seq<F>) -> Seq<u8>
    decreases fs.len(),
{
    if fs.len() == 0 {
        seq![]
    } else {
        fs[0].wire() + wires(fs.drop_first())
    }
}

/// The encodings of a sequence of frames, cut after frame `j`.
pub proof fn lemma_wires_split<F: Frame>(fs: Seq<F>, j: int)
    requires
        0 <= j <= fs.len(),
    ensures
        wires(fs) == wires(fs.take(j)) + wires(fs.skip(j)),
    decreases fs.len(),
{
    if j == 0 {
        assert(fs.take(0) =~= Seq::<F>::empty());
        assert(fs.skip(0) =~= fs);
        assert(wires(fs) =~= Seq::<u8>::empty() + wires(fs));
    } else {
        let t = fs.drop_first();
        lemma_wires_split(t, j - 1);
        assert(fs.take(j).drop_first() =~= t.take(j - 1));
        assert(fs.skip(j) =~= t.skip(j - 1));
        assert(fs.take(j)[0] == fs[0]);
        assert(wires(fs) =~= wires(fs.take(j)) + wires(fs.skip(j)));
    }
}

/// Decoding a prefix `x` of the encodings of frames `fs` yields the payloads of
/// the first `j` frames, the ones `x` holds whole, and leaves the part of the
/// next frame that `x` holds.
pub proof fn lemma_decode_prefix<FB: FrameBuilder>(fs: Seq<FB::Output>, x: Seq<u8>) -> (j: int)
    requires
        forall|i: int| 0 <= i < fs.len() ==> (#[trigger] fs[i]).wf(),
        x.len() <= wires(fs).len(),
        x == wires(fs).take(x.len() as int),
    ensures
        0 <= j <= fs.len(),
        decode_all::<FB>(x).0 == payloads(fs.take(j)),
        x == wires(fs.take(j)) + decode_all::<FB>(x).1,
        j < fs.len() ==> decode_all::<FB>(x).1.len() < fs[j].wire().len(),
        j == fs.len() ==> decode_all::<FB>(x).1.len() == 0,
    decreases fs.len(),
{
    assert(fs.take(0) =~= Seq::<FB::Output>::empty());
    assert(payloads(fs.take(0)) =~= Seq::<Seq<u8>>::empty());
    if fs.len() == 0 {
        assert(x =~= Seq::<u8>::empty());
        assert(x =~= wires(fs.take(0)) + decode_all::<FB>(x).1);
        0
    } else {
        let w0 = fs[0].wire();
        let t = fs.drop_first();
        if x.len() < w0.len() {
            assert(x =~= w0.take(x.len() as int));
            FB::lemma_waits_on_partial_encoding(fs[0], x.len());
            assert(x =~= wires(fs.take(0)) + decode_all::<FB>(x).1);
            0
        } else {
            let x2 = x.skip(w0.len() as int);
            assert(x =~= w0 + x2);
            FB::lemma_decodes_own_encoding(fs[0], x2);
            FB::lemma_step_in_bounds(x);
            assert(x2 =~= wires(t).take(x2.len() as int));
            assert forall|i: int| 0 <= i < t.len() implies (#[trigger] t[i]).wf() by {
                assert(t[i] == fs[i + 1]);
            }
            let j2 = lemma_decode_prefix::<FB>(t, x2);
            let k = j2 + 1;
            assert(fs.take(k)[0] == fs[0]);
            assert(fs.take(k).drop_first() =~= t.take(j2));
            assert(payloads(fs.take(k)) =~= seq![fs[0].payload_view()] + payloads(t.take(j2)));
            assert(x =~= wires(fs.take(k)) + decode_all::<FB>(x).1);
            k
        }
    }
}

/// Frames that arrive together, encoded back to back, all decode in one pass,
/// in their order, and nothing is left over.
pub proof fn lemma_coalesced_delivery<FB: FrameBuilder>(fs: Seq<FB::Output>)
    requires
        forall|i: int| 0 <= i < fs.len() ==> (#[trigger] fs[i]).wf(),
    ensures
        decode_all::<FB>(wires(fs)) == (payloads(fs), Seq::<u8>::empty()),
{
    let x = wires(fs);
    assert(x =~= wires(fs).take(x.len() as int));
    let j = lemma_decode_prefix::<FB>(fs, x);
    lemma_wires_split(fs, j);
    let a = wires(fs.take(j));
    let r = decode_all::<FB>(x).1;
    assert((a + r).skip(a.len() as int) =~= r);
    assert((a + wires(fs.skip(j))).skip(a.len() as int) =~= wires(fs.skip(j)));
    if j < fs.len() {
        let s = fs.skip(j);
        assert(s[0] == fs[j]);
        assert(wires(s) == s[0].wire() + wires(s.drop_first()));
        assert(false);
    }
    assert(fs.take(fs.len() as int) =~= fs);
    assert(r =~= Seq::<u8>::empty());
}

} // verus!
