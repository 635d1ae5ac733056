//! The buffering engine of a framed stream.
//!
//! A `Plain` owns the channel, a receive buffer and a transmit buffer. The
//! channel's own reads and writes happen outside; the engine is told what they
//! returned and decides what follows:
//!
//! - bytes read are appended to the receive buffer by `receive`;
//! - `next_frame` (blocking receive) and `frames` (non-blocking receive) decode
//!   from the front of the receive buffer;
//! - `queue` appends a frame's encoding to the transmit buffer, `pending` shows
//!   what to offer to the channel, and `written` accounts for what it accepted.
use vstd::prelude::*;

use core::marker::PhantomData;

use crate::bytes::{append_bytes, drop_front};
use crate::error::StreamError;
use crate::frame::{
    decode_all, decode_first, first_start, frame_starts, lemma_decode_prefix, lemma_wires_split,
    payloads, wires, Frame, FrameBuilder,
};

verus! {

/// The size of one read from the channel.
pub const BUF_SIZE: usize = 1024;

/// A framed stream over channel `S` in the wire format of `FB`.
pub struct Plain<S, FB> {
    inner: S,
    rx_buf: Vec<u8>,
    tx_buf: Vec<u8>,
    phantom: PhantomData<FB>,
}

/// Payloads delivered, and bytes left, when the chunks `cs` arrive one at a time
/// on a receive buffer holding `rx`, each arrival followed by a non-blocking
/// receive.
pub open spec fn feed<FB: FrameBuilder>(rx: Seq<u8>, cs: Seq<Seq<u8>>) -> (Seq<Seq<u8>>, Seq<u8>)
    decreases cs.len(),
{
    if cs.len() == 0 {
        (seq![], rx)
    } else {
        let (ps, rest) = decode_all::<FB>(rx + cs[0]);
        let (qs, left) = feed::<FB>(rest, cs.drop_first());
        (ps + qs, left)
    }
}

/// The chunks `cs` joined in order.
pub open spec fn flatten(cs: Seq<Seq<u8>>) -> Seq<u8>
    decreases cs.len(),
{
    if cs.len() == 0 {
        seq![]
    } else {
        cs[0] + flatten(cs.drop_first())
    }
}

/// The transmit buffer after the channel accepted `n` of its bytes.
pub open spec fn after_write(tx: Seq<u8>, n: nat) -> Seq<u8> {
    tx.skip(n as int)
}

proof fn lemma_feed_rest<FB: FrameBuilder>(fs: Seq<FB::Output>, q: Seq<u8>, cs: Seq<Seq<u8>>)
    requires
        forall|i: int| 0 <= i < fs.len() ==> (#[trigger] fs[i]).wf(),
        q + flatten(cs) == wires(fs),
        fs.len() > 0 ==> q.len() < fs[0].wire().len(),
    ensures
        feed::<FB>(q, cs) == (payloads(fs), Seq::<u8>::empty()),
    decreases cs.len(),
{
    if cs.len() == 0 {
        assert(q + flatten(cs) =~= q);
        if fs.len() > 0 {
            assert(wires(fs) == fs[0].wire() + wires(fs.drop_first()));
            assert(false);
        }
        assert(payloads(fs) =~= Seq::<Seq<u8>>::empty());
    } else {
        let x = q + cs[0];
        let rest = cs.drop_first();
        assert(q + flatten(cs) =~= x + flatten(rest));
        assert(x =~= wires(fs).take(x.len() as int));
        let j = lemma_decode_prefix::<FB>(fs, x);
        let r = decode_all::<FB>(x).1;
        lemma_wires_split(fs, j);
        let a = wires(fs.take(j));
        assert(a + (r + flatten(rest)) =~= x + flatten(rest));
        assert((a + (r + flatten(rest))).skip(a.len() as int) =~= r + flatten(rest));
        assert((a + wires(fs.skip(j))).skip(a.len() as int) =~= wires(fs.skip(j)));
        let s = fs.skip(j);
        assert forall|i: int| 0 <= i < s.len() implies (#[trigger] s[i]).wf() by {
            assert(s[i] == fs[i + j]);
        }
        if s.len() > 0 {
            assert(s[0] == fs[j]);
        }
        lemma_feed_rest::<FB>(s, r, rest);
        assert(payloads(fs.take(j)) + payloads(s) =~= payloads(fs));
    }
}

/// However the encodings of some frames are cut into chunks, feeding the
/// chunks one at a time, each followed by a non-blocking receive, yields the
/// frames' payloads in their order and leaves nothing behind.
pub proof fn lemma_partial_delivery<FB: FrameBuilder>(fs: Seq<FB::Output>, cs: Seq<Seq<u8>>)
    requires
        forall|i: int| 0 <= i < fs.len() ==> (#[trigger] fs[i]).wf(),
        flatten(cs) == wires(fs),
    ensures
        feed::<FB>(Seq::<u8>::empty(), cs) == (payloads(fs), Seq::<u8>::empty()),
{
    if fs.len() > 0 {
        FB::lemma_decodes_own_encoding(fs[0], Seq::<u8>::empty());
        FB::lemma_step_in_bounds(fs[0].wire() + Seq::<u8>::empty());
        assert(fs[0].wire() + Seq::<u8>::empty() =~= fs[0].wire());
    }
    assert(Seq::<u8>::empty() + flatten(cs) =~= flatten(cs));
    lemma_feed_rest::<FB>(fs, Seq::<u8>::empty(), cs);
}

/// When a write accepts only the first `n` pending bytes, the bytes offered
/// next begin with the rest of them, byte for byte, ahead of anything queued
/// meanwhile.
pub proof fn lemma_backpressure(tx: Seq<u8>, n: nat, queued: Seq<u8>)
    requires
        n < tx.len(),
    ensures
        (after_write(tx, n) + queued).len() == tx.len() - n + queued.len(),
        forall|i: int|
            0 <= i < tx.len() - n ==> #[trigger] (after_write(tx, n) + queued)[i] == tx[n + i],
        forall|i: int|
            0 <= i < queued.len() ==> #[trigger] (after_write(tx, n) + queued)[tx.len() - n + i]
                == queued[i],
{
}

impl<S, FB: FrameBuilder> Plain<S, FB> {
    /// Bytes received and not yet decoded, oldest first.
    pub closed spec fn rx(&self) -> Seq<u8> {
        self.rx_buf@
    }

    /// Bytes queued and not yet accepted by the channel, oldest first.
    pub closed spec fn tx(&self) -> Seq<u8> {
        self.tx_buf@
    }

    /// The channel.
    pub closed spec fn channel(&self) -> S {
        self.inner
    }

    /// Wraps a connected channel, with both buffers empty.
    pub fn new(stream: S) -> (r: Self)
        ensures
            r.rx() == Seq::<u8>::empty(),
            r.tx() == Seq::<u8>::empty(),
            r.channel() == stream,
    {
        Plain {
            inner: stream,
            rx_buf: Vec::with_capacity(BUF_SIZE),
            tx_buf: Vec::with_capacity(BUF_SIZE),
            phantom: PhantomData,
        }
    }

    /// Lends the channel for a read or a write; the buffers are not touched.
    pub fn channel_mut(&mut self) -> (r: &mut S)
        ensures
            *r == old(self).channel(),
            final(self).channel() == *final(r),
            final(self).rx() == old(self).rx(),
            final(self).tx() == old(self).tx(),
    {
        &mut self.inner
    }

    /// Shows the channel.
    pub fn channel_ref(&self) -> (r: &S)
        ensures
            *r == self.channel(),
    {
        &self.inner
    }

    /// Takes in what one read from the channel returned. An empty read means
    /// the peer closed the channel.
    pub fn receive(&mut self, chunk: &[u8]) -> (r: Result<(), StreamError>)
        ensures
            final(self).tx() == old(self).tx(),
            final(self).channel() == old(self).channel(),
            chunk@.len() == 0 ==> r == Err::<(), StreamError>(StreamError::UnexpectedEof)
                && final(self).rx() == old(self).rx(),
            chunk@.len() > 0 ==> r is Ok && final(self).rx() == old(self).rx() + chunk@,
    {
        if chunk.len() == 0 {
            return Err(StreamError::UnexpectedEof);
        }
        append_bytes(&mut self.rx_buf, chunk);
        Ok(())
    }

    /// Decodes until the first frame, discarding corrupt bytes on the way
    /// (blocking receive). `None` means more bytes must be read first.
    pub fn next_frame(&mut self) -> (r: Option<FB::Output>)
        ensures
            final(self).tx() == old(self).tx(),
            final(self).channel() == old(self).channel(),
            final(self).rx() == decode_first::<FB>(old(self).rx()).1,
            match decode_first::<FB>(old(self).rx()).0 {
                Some(p) => {
                    &&& r is Some
                    &&& r->0.wf()
                    &&& r->0.payload_view() == p
                    &&& FB::decoded_from(first_start::<FB>(old(self).rx()), r->0)
                },
                None => r is None,
            },
    {
        loop
            invariant
                self.tx() == old(self).tx(),
                self.channel() == old(self).channel(),
                decode_first::<FB>(old(self).rx()) == decode_first::<FB>(self.rx()),
                first_start::<FB>(old(self).rx()) == first_start::<FB>(self.rx()),
            decreases self.rx_buf@.len(),
        {
            let ghost before = self.rx_buf@;
            let len_before = self.rx_buf.len();
            proof {
                FB::lemma_step_in_bounds(before);
            }
            match FB::from_bytes(&mut self.rx_buf) {
                Some(f) => {
                    return Some(f);
                },
                None => {
                    if self.rx_buf.len() == len_before {
                        return None;
                    }
                },
            }
        }
    }

    /// Decodes every complete frame in the receive buffer, oldest first
    /// (non-blocking receive). No frame at all is reported as `WouldBlock`.
    pub fn frames(&mut self) -> (r: Result<Vec<FB::Output>, StreamError>)
        ensures
            final(self).tx() == old(self).tx(),
            final(self).channel() == old(self).channel(),
            final(self).rx() == decode_all::<FB>(old(self).rx()).1,
            match r {
                Ok(v) => {
                    &&& payloads(v@) == decode_all::<FB>(old(self).rx()).0
                    &&& v@.len() > 0
                    &&& forall|i: int| 0 <= i < v@.len() ==> (#[trigger] v@[i]).wf()
                    &&& frame_starts::<FB>(old(self).rx()).len() == v@.len()
                    &&& forall|i: int|
                        0 <= i < v@.len() ==> FB::decoded_from(
                            #[trigger] frame_starts::<FB>(old(self).rx())[i],
                            v@[i],
                        )
                },
                Err(e) => e == StreamError::WouldBlock && decode_all::<FB>(old(self).rx()).0.len()
                    == 0,
            },
    {
        let mut out: Vec<FB::Output> = Vec::new();
        let ghost mut starts: Seq<Seq<u8>> = seq![];
        loop
            invariant
                self.tx() == old(self).tx(),
                self.channel() == old(self).channel(),
                decode_all::<FB>(old(self).rx()).0 == payloads(out@) + decode_all::<FB>(
                    self.rx(),
                ).0,
                decode_all::<FB>(old(self).rx()).1 == decode_all::<FB>(self.rx()).1,
                forall|i: int| 0 <= i < out@.len() ==> (#[trigger] out@[i]).wf(),
                frame_starts::<FB>(old(self).rx()) == starts + frame_starts::<FB>(self.rx()),
                starts.len() == out@.len(),
                forall|i: int|
                    0 <= i < out@.len() ==> FB::decoded_from(#[trigger] starts[i], out@[i]),
            ensures
                self.tx() == old(self).tx(),
                self.channel() == old(self).channel(),
                decode_all::<FB>(old(self).rx()).0 == payloads(out@),
                decode_all::<FB>(old(self).rx()).1 == self.rx(),
                forall|i: int| 0 <= i < out@.len() ==> (#[trigger] out@[i]).wf(),
                frame_starts::<FB>(old(self).rx()) == starts,
                starts.len() == out@.len(),
                forall|i: int|
                    0 <= i < out@.len() ==> FB::decoded_from(#[trigger] starts[i], out@[i]),
            decreases self.rx_buf@.len(),
        {
            let ghost before = self.rx_buf@;
            let ghost out_before = out@;
            let ghost starts_before = starts;
            let len_before = self.rx_buf.len();
            proof {
                FB::lemma_step_in_bounds(before);
            }
            match FB::from_bytes(&mut self.rx_buf) {
                Some(f) => {
                    out.push(f);
                    proof {
                        starts = starts.push(before);
                        assert(starts_before + frame_starts::<FB>(before) =~= starts
                            + frame_starts::<FB>(self.rx()));
                        assert forall|i: int| 0 <= i < out@.len() implies FB::decoded_from(
                            #[trigger] starts[i],
                            out@[i],
                        ) by {
                            if i < out_before.len() {
                                assert(starts[i] == starts_before[i]);
                                assert(out@[i] == out_before[i]);
                            }
                        }
                    }
                    assert(payloads(out@) =~= payloads(out_before) + seq![f.payload_view()]);
                    assert(payloads(out@) + decode_all::<FB>(self.rx()).0 =~= payloads(out_before)
                        + decode_all::<FB>(before).0);
                },
                None => {
                    if self.rx_buf.len() == len_before {
                        assert(decode_all::<FB>(before) == (Seq::<Seq<u8>>::empty(), before));
                        assert(frame_starts::<FB>(before) =~= Seq::<Seq<u8>>::empty());
                        assert(starts + frame_starts::<FB>(self.rx()) =~= starts);
                        assert(payloads(out@) + decode_all::<FB>(self.rx()).0 =~= payloads(out@));
                        break ;
                    }
                },
            }
        }
        if out.len() == 0 {
            return Err(StreamError::WouldBlock);
        }
        Ok(out)
    }

    /// Appends the encoding of `frame` to the transmit buffer, behind anything
    /// still waiting there.
    pub fn queue<F: Frame>(&mut self, frame: &F)
        requires
            frame.wf(),
        ensures
            final(self).tx() == old(self).tx() + frame.wire(),
            final(self).rx() == old(self).rx(),
            final(self).channel() == old(self).channel(),
    {
        let bytes = frame.to_bytes();
        append_bytes(&mut self.tx_buf, bytes.as_slice());
    }

    /// The bytes to offer to the channel next.
    pub fn pending(&self) -> (r: &[u8])
        ensures
            r@ == self.tx(),
    {
        self.tx_buf.as_slice()
    }

    /// Takes in how many of the pending bytes one write accepted (non-blocking
    /// send). What was not accepted stays, in order, at the front of the
    /// transmit buffer. Accepting nothing of a non-empty buffer is fatal.
    pub fn written(&mut self, n: usize) -> (r: Result<(), StreamError>)
        requires
            n <= old(self).tx().len(),
        ensures
            final(self).rx() == old(self).rx(),
            final(self).channel() == old(self).channel(),
            n == 0 && old(self).tx().len() > 0 ==> r == Err::<(), StreamError>(
                StreamError::WriteZero,
            ) && final(self).tx() == old(self).tx(),
            !(n == 0 && old(self).tx().len() > 0) ==> final(self).tx() == after_write(
                old(self).tx(),
                n as nat,
            ) && (r is Ok <==> n == old(self).tx().len()) && (r is Err ==> r == Err::<
                (),
                StreamError,
            >(StreamError::WouldBlock)),
    {
        if n == 0 && self.tx_buf.len() > 0 {
            return Err(StreamError::WriteZero);
        }
        drop_front(&mut self.tx_buf, n);
        if self.tx_buf.len() > 0 {
            return Err(StreamError::WouldBlock);
        }
        Ok(())
    }
}

} // verus!
