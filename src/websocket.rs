//! WebSocket frames (RFC 6455), encoded and decoded as single complete frames.
//!
//! Layout: `FIN+OPCODE(1) MASK+LEN7(1) [EXT-LEN(2 or 8)] [MASK-KEY(4)] PAYLOAD`.
//! A length up to 125 is written in the seven bits; 126 announces a 16-bit
//! length and 127 a 64-bit one. A frame whose opcode is not one of the six
//! known ones is rejected and left in the buffer.
use vstd::prelude::*;

use crate::bytes::{copy_range, drop_front};
use crate::frame::{decoded_as, Frame, FrameBuilder, Step};

verus! {

/// Whether a frame carries control information or application data.
#[derive(Clone, Copy, PartialEq, Eq, Structural, Debug)]
pub enum FrameType {
    Control,
    Data,
}

/// The operation a frame performs.
#[derive(Clone, Copy, PartialEq, Eq, Structural, Debug)]
pub enum OpType {
    Continuation,
    Text,
    Binary,
    Close,
    Ping,
    Pong,
}

/// The four opcode bits of `op`.
pub open spec fn op_code_of(op: OpType) -> u8 {
    match op {
        OpType::Continuation => 0x0,
        OpType::Text => 0x1,
        OpType::Binary => 0x2,
        OpType::Close => 0x8,
        OpType::Ping => 0x9,
        OpType::Pong => 0xA,
    }
}

/// The operation whose opcode is `c`, if any.
pub open spec fn op_of_code(c: u8) -> Option<OpType> {
    if c == 0x0 {
        Some(OpType::Continuation)
    } else if c == 0x1 {
        Some(OpType::Text)
    } else if c == 0x2 {
        Some(OpType::Binary)
    } else if c == 0x8 {
        Some(OpType::Close)
    } else if c == 0x9 {
        Some(OpType::Ping)
    } else if c == 0xA {
        Some(OpType::Pong)
    } else {
        None
    }
}

/// Close, ping and pong are control frames; the others carry data.
pub open spec fn frame_type_of(op: OpType) -> FrameType {
    match op {
        OpType::Close | OpType::Ping | OpType::Pong => FrameType::Control,
        _ => FrameType::Data,
    }
}

/// The seven-bit length field for a payload of `n` bytes.
pub open spec fn length_class(n: u64) -> u8 {
    if n <= 125 {
        n as u8
    } else if n <= 0xFFFF {
        126
    } else {
        127
    }
}

/// `n` as eight bytes, most significant first.
pub open spec fn be64(n: u64) -> Seq<u8> {
    seq![
        (n >> 56u64) as u8,
        (n >> 48u64) as u8,
        (n >> 40u64) as u8,
        (n >> 32u64) as u8,
        (n >> 24u64) as u8,
        (n >> 16u64) as u8,
        (n >> 8u64) as u8,
        n as u8,
    ]
}

/// The extended length bytes that follow the seven-bit field.
pub open spec fn extended_len(n: u64) -> Seq<u8> {
    if n <= 125 {
        seq![]
    } else if n <= 0xFFFF {
        seq![(n >> 8u64) as u8, n as u8]
    } else {
        be64(n)
    }
}

/// The top bit of the second byte.
pub open spec fn mask_bit(masked: bool) -> u8 {
    if masked {
        0x80
    } else {
        0
    }
}

/// The bytes of a frame with operation `op`, the mask flag, the masking key and
/// the payload data as stored (masked if `masked`).
pub open spec fn ws_encoding(op: OpType, masked: bool, key: Seq<u8>, data: Seq<u8>) -> Seq<u8> {
    seq![0x80u8 | op_code_of(op), mask_bit(masked) | length_class(data.len() as u64)]
        + extended_len(data.len() as u64) + (if masked {
        key
    } else {
        seq![]
    }) + data
}

/// `data` with each byte XORed with the key byte at its position modulo four.
pub open spec fn unmask(data: Seq<u8>, key: Seq<u8>) -> Seq<u8> {
    Seq::new(data.len(), |i: int| data[i] ^ key[i % 4])
}

/// The size of the fixed and extended length header announced by byte `b1`.
pub open spec fn header_len(b1: u8) -> int {
    let l = b1 & 0x7F;
    if l <= 125 {
        2
    } else if l == 126 {
        4
    } else {
        10
    }
}

/// Two bytes of `buf` at `at`, most significant first.
pub open spec fn read_be16(buf: Seq<u8>, at: int) -> u64 {
    ((buf[at] as u64) << 8u64) | (buf[at + 1] as u64)
}

/// Eight bytes of `buf` at `at`, most significant first.
pub open spec fn read_be64(buf: Seq<u8>, at: int) -> u64 {
    ((buf[at] as u64) << 56u64) | ((buf[at + 1] as u64) << 48u64) | ((buf[at + 2] as u64) << 40u64)
        | ((buf[at + 3] as u64) << 32u64) | ((buf[at + 4] as u64) << 24u64) | ((buf[at + 5] as u64)
        << 16u64) | ((buf[at + 6] as u64) << 8u64) | (buf[at + 7] as u64)
}

/// The payload length announced by a buffer holding a whole length header.
pub open spec fn declared_len(buf: Seq<u8>) -> u64 {
    let l = buf[1] & 0x7F;
    if l <= 125 {
        l as u64
    } else if l == 126 {
        read_be16(buf, 2)
    } else {
        read_be64(buf, 2)
    }
}

/// One decode attempt on `buf`.
pub open spec fn ws_step(buf: Seq<u8>) -> Step {
    if buf.len() < 2 {
        Step::Incomplete
    } else if op_of_code(buf[0] & 0x0F) is None {
        Step::Rejected
    } else {
        let h = header_len(buf[1]);
        if buf.len() < h {
            Step::Incomplete
        } else {
            let masked = buf[1] & 0x80 != 0;
            let off = h + if masked {
                4int
            } else {
                0int
            };
            let n = declared_len(buf) as int;
            if buf.len() < off + n {
                Step::Incomplete
            } else {
                let data = buf.subrange(off, off + n);
                Step::Frame {
                    payload: if masked {
                        unmask(data, buf.subrange(h, h + 4))
                    } else {
                        data
                    },
                    consumed: (off + n) as nat,
                }
            }
        }
    }
}

#[derive(Clone)]
struct Header {
    op_type: OpType,
    mask: bool,
    payload_len: u64,
    masking_key: [u8; 4],
}

/// A WebSocket frame.
#[derive(Clone)]
pub struct WebSocketFrame {
    frame_type: FrameType,
    header: Header,
    payload: Vec<u8>,
}

/// Recognises WebSocket frames.
#[derive(Clone)]
pub struct WebSocketFrameBuilder;

fn op_code(op: OpType) -> (r: u8)
    ensures
        r == op_code_of(op),
{
    match op {
        OpType::Continuation => 0x0,
        OpType::Text => 0x1,
        OpType::Binary => 0x2,
        OpType::Close => 0x8,
        OpType::Ping => 0x9,
        OpType::Pong => 0xA,
    }
}

fn op_from_code(c: u8) -> (r: Option<OpType>)
    ensures
        r == op_of_code(c),
{
    if c == 0x0 {
        Some(OpType::Continuation)
    } else if c == 0x1 {
        Some(OpType::Text)
    } else if c == 0x2 {
        Some(OpType::Binary)
    } else if c == 0x8 {
        Some(OpType::Close)
    } else if c == 0x9 {
        Some(OpType::Ping)
    } else if c == 0xA {
        Some(OpType::Pong)
    } else {
        None
    }
}

fn frame_type_for(op: OpType) -> (r: FrameType)
    ensures
        r == frame_type_of(op),
{
    match op {
        OpType::Close | OpType::Ping | OpType::Pong => FrameType::Control,
        _ => FrameType::Data,
    }
}

proof fn lemma_first_byte(op: OpType)
    ensures
        op_of_code((0x80u8 | op_code_of(op)) & 0x0F) == Some(op),
{
    let c = op_code_of(op);
    assert(c <= 15);
    assert((0x80u8 | c) & 0x0F == c) by (bit_vector)
        requires
            c <= 15,
    ;
}

proof fn lemma_second_byte(masked: bool, n: u64)
    ensures
        ((mask_bit(masked) | length_class(n)) & 0x80 != 0) == masked,
        (mask_bit(masked) | length_class(n)) & 0x7F == length_class(n),
{
    let c = length_class(n);
    assert(c <= 127);
    if masked {
        assert((0x80u8 | c) & 0x80 != 0 && (0x80u8 | c) & 0x7F == c) by (bit_vector)
            requires
                c <= 127,
        ;
    } else {
        assert((0u8 | c) & 0x80 == 0 && (0u8 | c) & 0x7F == c) by (bit_vector)
            requires
                c <= 127,
        ;
    }
}

proof fn lemma_be16_read(n: u64)
    requires
        n <= 0xFFFF,
    ensures
        read_be16(seq![(n >> 8u64) as u8, n as u8], 0) == n,
{
    let s = seq![(n >> 8u64) as u8, n as u8];
    assert(s[0] == (n >> 8u64) as u8 && s[1] == n as u8);
    assert((((((n >> 8u64) as u8) as u64) << 8u64) | ((n as u8) as u64)) == n) by (bit_vector)
        requires
            n <= 0xFFFF,
    ;
}

proof fn lemma_be64_read(n: u64)
    ensures
        read_be64(be64(n), 0) == n,
{
    let s = be64(n);
    assert(s[0] == (n >> 56u64) as u8 && s[1] == (n >> 48u64) as u8 && s[2] == (n >> 40u64) as u8
        && s[3] == (n >> 32u64) as u8 && s[4] == (n >> 24u64) as u8 && s[5] == (n >> 16u64) as u8
        && s[6] == (n >> 8u64) as u8 && s[7] == n as u8);
    assert((((((n >> 56u64) as u8) as u64) << 56u64) | ((((n >> 48u64) as u8) as u64) << 48u64)
        | ((((n >> 40u64) as u8) as u64) << 40u64) | ((((n >> 32u64) as u8) as u64) << 32u64)
        | ((((n >> 24u64) as u8) as u64) << 24u64) | ((((n >> 16u64) as u8) as u64) << 16u64)
        | ((((n >> 8u64) as u8) as u64) << 8u64) | ((n as u8) as u64)) == n) by (bit_vector);
}

/// The header of an encoding reads back as the operation, mask flag and length
/// it was written with, whatever follows it.
proof fn lemma_header_reads_back(op: OpType, masked: bool, n: u64, w: Seq<u8>)
    requires
        w.len() >= 2 + extended_len(n).len(),
        w[0] == 0x80u8 | op_code_of(op),
        w[1] == mask_bit(masked) | length_class(n),
        w.subrange(2, 2 + extended_len(n).len() as int) == extended_len(n),
    ensures
        op_of_code(w[0] & 0x0F) == Some(op),
        (w[1] & 0x80 != 0) == masked,
        header_len(w[1]) == 2 + extended_len(n).len(),
        declared_len(w) == n,
{
    lemma_first_byte(op);
    lemma_second_byte(masked, n);
    let e = extended_len(n);
    if n <= 125 {
    } else if n <= 0xFFFF {
        lemma_be16_read(n);
        assert(w[2] == e[0] && w[3] == e[1]);
        assert(read_be16(w, 2) == read_be16(e, 0));
    } else {
        lemma_be64_read(n);
        assert(w[2] == e[0] && w[3] == e[1] && w[4] == e[2] && w[5] == e[3] && w[6] == e[4] && w[7]
            == e[5] && w[8] == e[6] && w[9] == e[7]);
        assert(read_be64(w, 2) == read_be64(e, 0));
    }
}

impl WebSocketFrame {
    /// Creates an unmasked frame carrying `buf`.
    pub fn new(buf: &[u8], frame_type: FrameType, op_type: OpType) -> (r: WebSocketFrame)
        requires
            buf@.len() + 14 <= usize::MAX,
        ensures
            r.wf(),
            r.payload_view() == buf@,
            r.op() == op_type,
            r.kind() == frame_type,
            !r.masked(),
            r.data() == buf@,
            r.key() == seq![0u8, 0u8, 0u8, 0u8],
            r.wire() == ws_encoding(op_type, false, seq![0u8, 0u8, 0u8, 0u8], buf@),
    {
        let data = copy_range(buf, 0, buf.len());
        let r = WebSocketFrame {
            frame_type,
            header: Header {
                op_type,
                mask: false,
                payload_len: buf.len() as u64,
                masking_key: [0u8; 4],
            },
            payload: data,
        };
        assert(buf@.subrange(0, buf@.len() as int) =~= buf@);
        assert(r.header.masking_key@ =~= seq![0u8, 0u8, 0u8, 0u8]);
        r
    }

    /// The frame's operation.
    pub closed spec fn op(&self) -> OpType {
        self.header.op_type
    }

    /// The frame's type, as given at construction or implied by its opcode.
    pub closed spec fn kind(&self) -> FrameType {
        self.frame_type
    }

    /// Whether the stored payload is masked.
    pub closed spec fn masked(&self) -> bool {
        self.header.mask
    }

    /// The masking key.
    pub closed spec fn key(&self) -> Seq<u8> {
        self.header.masking_key@
    }

    /// The payload data as stored.
    pub closed spec fn data(&self) -> Seq<u8> {
        self.payload@
    }

    /// Returns the frame's operation.
    pub fn op_type(&self) -> (r: OpType)
        ensures
            r == self.op(),
    {
        self.header.op_type
    }

    /// Returns the frame's type.
    pub fn frame_type(&self) -> (r: FrameType)
        ensures
            r == self.kind(),
    {
        self.frame_type
    }

    /// Returns whether the stored payload is masked.
    pub fn is_masked(&self) -> (r: bool)
        ensures
            r == self.masked(),
    {
        self.header.mask
    }

    /// Returns the stored payload XORed with the masking key.
    pub fn payload_unmasked(&self) -> (r: Vec<u8>)
        ensures
            r@ == unmask(self.data(), self.key()),
    {
        let len = self.payload.len();
        let mut buf: Vec<u8> = Vec::with_capacity(len);
        let mut x: usize = 0;
        while x < len
            invariant
                len == self.payload@.len(),
                x <= len,
                buf@ =~= unmask(self.payload@.take(x as int), self.header.masking_key@),
            decreases len - x,
        {
            buf.push(self.payload[x] ^ self.header.masking_key[x % 4]);
            x = x + 1;
        }
        assert(self.payload@.take(len as int) =~= self.payload@);
        buf
    }
}

impl Frame for WebSocketFrame {
    closed spec fn wf(&self) -> bool {
        &&& self.payload@.len() == self.header.payload_len
        &&& self.wire().len() <= usize::MAX
    }

    closed spec fn wire(&self) -> Seq<u8> {
        ws_encoding(self.header.op_type, self.header.mask, self.header.masking_key@, self.payload@)
    }

    closed spec fn payload_view(&self) -> Seq<u8> {
        if self.header.mask {
            unmask(self.payload@, self.header.masking_key@)
        } else {
            self.payload@
        }
    }

    fn to_bytes(&self) -> (r: Vec<u8>) {
        let n = self.header.payload_len;
        let mut buf: Vec<u8> = Vec::with_capacity(self.len_as_vec());
        buf.push(0x80u8 | op_code(self.header.op_type));
        let top: u8 = if self.header.mask {
            0x80
        } else {
            0
        };
        let class: u8 = if n <= 125 {
            n as u8
        } else if n <= 0xFFFF {
            126
        } else {
            127
        };
        buf.push(top | class);
        if n > 125 && n <= 0xFFFF {
            buf.push((n >> 8u64) as u8);
            buf.push(n as u8);
        } else if n > 0xFFFF {
            buf.push((n >> 56u64) as u8);
            buf.push((n >> 48u64) as u8);
            buf.push((n >> 40u64) as u8);
            buf.push((n >> 32u64) as u8);
            buf.push((n >> 24u64) as u8);
            buf.push((n >> 16u64) as u8);
            buf.push((n >> 8u64) as u8);
            buf.push(n as u8);
        }
        if self.header.mask {
            buf.push(self.header.masking_key[0]);
            buf.push(self.header.masking_key[1]);
            buf.push(self.header.masking_key[2]);
            buf.push(self.header.masking_key[3]);
        }
        let ghost head = buf@;
        assert(head =~= seq![0x80u8 | op_code_of(self.header.op_type), mask_bit(self.header.mask)
            | length_class(n)] + extended_len(n) + (if self.header.mask {
            self.header.masking_key@
        } else {
            seq![]
        }));
        let len = self.payload.len();
        let mut i: usize = 0;
        while i < len
            invariant
                len == self.payload@.len(),
                i <= len,
                buf@ == head + self.payload@.take(i as int),
            decreases len - i,
        {
            buf.push(self.payload[i]);
            i = i + 1;
            assert(self.payload@.take(i as int) =~= self.payload@.take((i - 1) as int).push(
                self.payload@[i - 1],
            ));
        }
        assert(self.payload@.take(len as int) =~= self.payload@);
        buf
    }

    fn payload(&self) -> (r: Vec<u8>) {
        if self.header.mask {
            self.payload_unmasked()
        } else {
            copy_range(self.payload.as_slice(), 0, self.payload.len())
        }
    }

    fn len_as_vec(&self) -> (r: usize) {
        let n = self.header.payload_len;
        let mut len: usize = 2;
        if n > 125 && n <= 0xFFFF {
            len = len + 2;
        } else if n > 0xFFFF {
            len = len + 8;
        }
        if self.header.mask {
            len = len + 4;
        }
        len + self.payload.len()
    }
}

/// The header fields of a frame decoded from `b`: its operation and frame type
/// follow the opcode, its mask flag and key are the ones on the wire, and its
/// stored data is the payload as it was on the wire.
pub open spec fn decoded_fields(b: Seq<u8>, f: WebSocketFrame) -> bool {
    let h = header_len(b[1]);
    let masked = b[1] & 0x80 != 0;
    let off = h + if masked {
        4int
    } else {
        0int
    };
    &&& op_of_code(b[0] & 0x0F) == Some(f.op())
    &&& f.kind() == frame_type_of(f.op())
    &&& f.masked() == masked
    &&& masked ==> f.key() == b.subrange(h, h + 4)
    &&& f.data() == b.subrange(off, off + declared_len(b) as int)
    &&& f.wire() == ws_encoding(f.op(), f.masked(), f.key(), f.data())
}

/// A frame holds the encoding of its header fields and stored data; its
/// payload is that data, unmasked if it is masked.
pub proof fn lemma_wire_is_encoding(f: WebSocketFrame)
    ensures
        f.wire() == ws_encoding(f.op(), f.masked(), f.key(), f.data()),
        f.payload_view() == if f.masked() {
            unmask(f.data(), f.key())
        } else {
            f.data()
        },
        f.key().len() == 4,
{
}

impl WebSocketFrameBuilder {
    /// Makes one decode attempt at the front of `buf`; a frame found carries
    /// the header fields read from the wire.
    pub fn decode(buf: &mut Vec<u8>) -> (r: Option<WebSocketFrame>)
        ensures
            decoded_as(ws_step(old(buf)@), old(buf)@, final(buf)@, r),
            r is Some ==> decoded_fields(old(buf)@, r->0),
    {
        if buf.len() < 2 {
            return None;
        }
        let op = match op_from_code(buf[0] & 0x0F) {
            Some(op) => op,
            None => return None,
        };
        let b1 = buf[1];
        let masked = b1 & 0x80 != 0;
        let l7 = b1 & 0x7F;
        let h: usize = if l7 <= 125 {
            2
        } else if l7 == 126 {
            4
        } else {
            10
        };
        if buf.len() < h {
            return None;
        }
        let n: u64 = if l7 <= 125 {
            l7 as u64
        } else if l7 == 126 {
            let (hi, lo) = (buf[2], buf[3]);
            let v = ((hi as u64) << 8u64) | (lo as u64);
            assert(v <= 0xFFFF) by (bit_vector)
                requires
                    v == ((hi as u64) << 8u64) | (lo as u64),
            ;
            v
        } else {
            ((buf[2] as u64) << 56u64) | ((buf[3] as u64) << 48u64) | ((buf[4] as u64) << 40u64) | ((
            buf[5] as u64) << 32u64) | ((buf[6] as u64) << 24u64) | ((buf[7] as u64) << 16u64) | ((
            buf[8] as u64) << 8u64) | (buf[9] as u64)
        };
        let off: usize = if masked {
            h + 4
        } else {
            h
        };
        if buf.len() < off || ((buf.len() - off) as u64) < n {
            return None;
        }
        let end: usize = off + n as usize;
        let key: [u8; 4] = if masked {
            [buf[h], buf[h + 1], buf[h + 2], buf[h + 3]]
        } else {
            [0u8; 4]
        };
        let data = copy_range(buf.as_slice(), off, end);
        proof {
            if masked {
                assert(key@ =~= old(buf)@.subrange(h as int, h + 4));
            }
        }
        drop_front(buf, end);
        assert(extended_len(n).len() <= header_len(b1) - 2);
        Some(
            WebSocketFrame {
                frame_type: frame_type_for(op),
                header: Header { op_type: op, mask: masked, payload_len: n, masking_key: key },
                payload: data,
            },
        )
    }
}

impl FrameBuilder for WebSocketFrameBuilder {
    type Output = WebSocketFrame;

    open spec fn step(buf: Seq<u8>) -> Step {
        ws_step(buf)
    }

    proof fn lemma_step_in_bounds(buf: Seq<u8>) {
    }

    open spec fn decoded_from(buf: Seq<u8>, f: WebSocketFrame) -> bool {
        decoded_fields(buf, f)
    }

    proof fn lemma_decodes_own_encoding(f: WebSocketFrame, rest: Seq<u8>) {
        let op = f.header.op_type;
        let masked = f.header.mask;
        let key = f.header.masking_key@;
        let data = f.payload@;
        let n = data.len() as u64;
        let w = f.wire() + rest;
        let e = extended_len(n);
        let h = 2 + e.len() as int;
        assert(w.subrange(2, h) =~= e);
        lemma_header_reads_back(op, masked, n, w);
        let off = h + if masked {
            4int
        } else {
            0int
        };
        assert(w.subrange(off, off + data.len()) =~= data);
        if masked {
            assert(w.subrange(h, h + 4) =~= key);
        }
    }

    proof fn lemma_waits_on_partial_encoding(f: WebSocketFrame, k: nat) {
        let op = f.header.op_type;
        let masked = f.header.mask;
        let n = f.payload@.len() as u64;
        let w = f.wire();
        let q = w.take(k as int);
        let e = extended_len(n);
        let h = 2 + e.len();
        if k >= 2 {
            lemma_first_byte(op);
            lemma_second_byte(masked, n);
            assert(q[0] == w[0] && q[1] == w[1]);
            if k >= h {
                assert(q.subrange(2, h as int) =~= e);
                lemma_header_reads_back(op, masked, n, q);
            }
        }
    }

    fn from_bytes(buf: &mut Vec<u8>) -> (r: Option<WebSocketFrame>) {
        WebSocketFrameBuilder::decode(buf)
    }
}

} // verus!
