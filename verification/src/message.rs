//! The messages exchanged with the relay.
//!
//! An outbound message asks the relay to send a datagram to `dst`; an inbound
//! message hands over a datagram that the relay received from `src`. Both are
//! laid out alike: the address (see [`crate::addr`]), then the datagram as a
//! byte string, that is its length as a variable-length integer of the width
//! of `usize` followed by its bytes. A reader ignores whatever follows the
//! message in its input.

use vstd::prelude::*;
use crate::addr::{
    address_decoding, address_encoding, lemma_address_roundtrip, lemma_small_powers, read_address,
    write_address, SocketAddr, SocketAddrView,
};
use crate::varint::{
    is_shortest_leb128, leb128_value, lemma_shortest_leb128_unique,
    lemma_varint_encoding_is_shortest_leb128, lemma_varint_decoding_bound, lemma_varint_roundtrip,
    read_varint, varint_decoding, varint_encoding, write_varint, WireError,
};

verus! {

/// A datagram to be sent to `dst`.
#[derive(Debug, PartialEq, Eq)]
pub struct OutboundMessage {
    pub dst: SocketAddr,
    pub content: Vec<u8>,
}

/// A datagram received from `src`.
#[derive(Debug, PartialEq, Eq)]
pub struct InboundMessage {
    pub src: SocketAddr,
    pub content: Vec<u8>,
}

/// How many bytes a length may take, as a variable-length integer of the
/// width of `usize`.
pub open spec fn length_budget() -> nat {
    if usize::BITS == 64 {
        10
    } else {
        5
    }
}

/// The largest final byte of a length that takes all of [`length_budget`].
pub open spec fn length_last_max() -> u8 {
    if usize::BITS == 64 {
        1
    } else {
        15
    }
}

/// The bytes of a message with address `addr` and datagram `content`.
pub open spec fn message_encoding(addr: SocketAddrView, content: Seq<u8>) -> Seq<u8> {
    address_encoding(addr) + varint_encoding(content.len()) + content
}

/// What the reader makes of `s` as a message: its address and datagram, or
/// why the read fails.
pub open spec fn message_decoding(s: Seq<u8>) -> Result<(SocketAddrView, Seq<u8>), WireError> {
    match address_decoding(s) {
        Err(e) => Err(e),
        Ok((a, n)) => {
            let t = s.subrange(n as int, s.len() as int);
            match varint_decoding(t, length_budget(), length_last_max()) {
                Err(e) => Err(e),
                Ok((len, m)) => {
                    if t.len() - m < len {
                        Err(WireError::UnexpectedEnd)
                    } else {
                        Ok((a, t.subrange(m as int, (m + len) as int)))
                    }
                },
            }
        },
    }
}

/// Reading the bytes of a message whose address is well formed, followed by
/// anything, gives back the datagram unchanged and the address as the wire
/// carries it (an IPv6 address without flow information and scope id).
pub proof fn lemma_message_roundtrip(addr: SocketAddrView, content: Seq<u8>, rest: Seq<u8>)
    requires
        addr.wf(),
        content.len() <= usize::MAX,
    ensures
        message_decoding(message_encoding(addr, content) + rest) == Ok::<
            (SocketAddrView, Seq<u8>),
            WireError,
        >((addr.on_the_wire(), content)),
{
    let s = message_encoding(addr, content) + rest;
    let after = varint_encoding(content.len()) + content + rest;
    assert(s =~= address_encoding(addr) + after);
    lemma_address_roundtrip(addr, after);
    let n = address_encoding(addr).len();
    let t = s.subrange(n as int, s.len() as int);
    assert(t =~= after);
    lemma_small_powers();
    assert(varint_encoding(content.len()) + content + rest =~= varint_encoding(content.len()) + (
    content + rest));
    lemma_varint_roundtrip(content.len(), content + rest, length_budget(), length_last_max());
    let m = varint_encoding(content.len()).len();
    assert(t.subrange(m as int, (m + content.len()) as int) =~= content);
}

/// The layout of a message on the wire: the bytes of its address, then the
/// length of the datagram as a shortest base-128 number, then the datagram
/// as it is.
pub proof fn lemma_message_layout(addr: SocketAddrView, content: Seq<u8>)
    ensures
        ({
            let e = message_encoding(addr, content);
            let h = address_encoding(addr).len();
            let digits = e.subrange(h as int, e.len() - content.len());
            &&& h + content.len() < e.len()
            &&& e.subrange(0, h as int) == address_encoding(addr)
            &&& is_shortest_leb128(digits)
            &&& leb128_value(digits) == content.len()
            &&& e.subrange(e.len() - content.len(), e.len() as int) == content
        }),
{
    let e = message_encoding(addr, content);
    let h = address_encoding(addr).len();
    lemma_varint_encoding_is_shortest_leb128(content.len());
    let d = varint_encoding(content.len());
    assert(e.subrange(0, h as int) =~= address_encoding(addr));
    assert(e.subrange(h as int, e.len() - content.len()) =~= d);
    assert(e.subrange(e.len() - content.len(), e.len() as int) =~= content);
}

/// Reading the bytes of a well-formed address, then a datagram length `L`
/// as a shortest base-128 number, then `L` bytes, followed by anything,
/// gives back the address as the wire carries it and exactly those `L`
/// bytes.
pub proof fn lemma_read_message_layout(
    addr: SocketAddrView,
    digits: Seq<u8>,
    content: Seq<u8>,
    rest: Seq<u8>,
)
    requires
        addr.wf(),
        is_shortest_leb128(digits),
        leb128_value(digits) == content.len(),
        content.len() <= usize::MAX,
    ensures
        message_decoding(address_encoding(addr) + digits + content + rest) == Ok::<
            (SocketAddrView, Seq<u8>),
            WireError,
        >((addr.on_the_wire(), content)),
{
    lemma_shortest_leb128_unique(digits);
    assert(address_encoding(addr) + digits + content + rest =~= message_encoding(addr, content)
        + rest);
    lemma_message_roundtrip(addr, content, rest);
}

/// A message whose datagram is cut short, that is whose length says more
/// bytes than follow, is refused for want of input.
pub proof fn lemma_read_message_cut_short(
    addr: SocketAddrView,
    digits: Seq<u8>,
    part: Seq<u8>,
)
    requires
        addr.wf(),
        is_shortest_leb128(digits),
        part.len() < leb128_value(digits) <= usize::MAX,
    ensures
        message_decoding(address_encoding(addr) + digits + part) == Err::<
            (SocketAddrView, Seq<u8>),
            WireError,
        >(WireError::UnexpectedEnd),
{
    let len = leb128_value(digits);
    lemma_shortest_leb128_unique(digits);
    let s = address_encoding(addr) + digits + part;
    assert(s =~= address_encoding(addr) + (digits + part));
    lemma_address_roundtrip(addr, digits + part);
    let n = address_encoding(addr).len();
    let t = s.subrange(n as int, s.len() as int);
    assert(t =~= digits + part);
    lemma_small_powers();
    lemma_varint_roundtrip(len, part, length_budget(), length_last_max());
}

/// Whatever the reader accepts has a well-formed address as the wire carries
/// it: octets of the right length, and no IPv6 flow information or scope id.
pub proof fn lemma_decoded_address_on_the_wire(s: Seq<u8>)
    ensures
        message_decoding(s) matches Ok((a, c)) ==> a.wf() && a.on_the_wire() == a,
{
}

/// The bytes of a message for `addr` and `content`.
fn encode_message(addr: &SocketAddr, content: &[u8]) -> (out: Vec<u8>)
    ensures
        out@ == message_encoding(addr@, content@),
{
    let mut out: Vec<u8> = Vec::new();
    write_address(&mut out, addr);
    write_varint(&mut out, content.len() as u64);
    let ghost mid = out@;
    for i in 0..content.len()
        invariant
            out@ == mid + content@.subrange(0, i as int),
    {
        out.push(content[i]);
        assert(content@.subrange(0, i + 1) =~= content@.subrange(0, i as int).push(content@[i as int]));
    }
    assert(content@.subrange(0, content@.len() as int) =~= content@);
    out
}

/// Reads a message from `s`.
fn decode_message(s: &[u8]) -> (r: Result<(SocketAddr, Vec<u8>), WireError>)
    ensures
        match message_decoding(s@) {
            Ok((a, c)) => r matches Ok((b, d)) && b@ == a && d@ == c,
            Err(e) => r == Err::<(SocketAddr, Vec<u8>), WireError>(e),
        },
{
    assert(s@.subrange(0, s@.len() as int) =~= s@);
    let (addr, p) = match read_address(s, 0) {
        Ok(t) => t,
        Err(e) => {
            return Err(e);
        },
    };
    let ghost t = s@.subrange(p as int, s@.len() as int);
    proof {
        lemma_small_powers();
        lemma_varint_decoding_bound(t, length_budget(), length_last_max());
    }
    let (budget, last_max): (u8, u8) = if usize::BITS == 64 {
        (10, 1)
    } else {
        (5, 15)
    };
    let (len, q) = match read_varint(s, p, budget, last_max) {
        Ok(r) => r,
        Err(e) => {
            return Err(e);
        },
    };
    if ((s.len() - q) as u64) < len {
        return Err(WireError::UnexpectedEnd);
    }
    let len = len as usize;
    let mut content: Vec<u8> = Vec::new();
    for i in 0..len
        invariant
            q + len <= s@.len(),
            s@.len() <= usize::MAX,
            content@ == s@.subrange(q as int, q + i),
    {
        content.push(s[q + i]);
        assert(s@.subrange(q as int, q + i + 1) =~= s@.subrange(q as int, q + i).push(s@[q + i]));
    }
    proof {
        assert(t.subrange((q - p) as int, (q - p) + len) =~= s@.subrange(q as int, q + len));
    }
    Ok((addr, content))
}

impl OutboundMessage {
    /// Reads an outbound message from the start of `bytes`.
    pub fn from_bytes(bytes: &[u8]) -> (r: Result<Self, WireError>)
        ensures
            match message_decoding(bytes@) {
                Ok((a, c)) => r matches Ok(m) && m.dst@ == a && m.content@ == c,
                Err(e) => r == Err::<Self, WireError>(e),
            },
    {
        match decode_message(bytes) {
            Ok((dst, content)) => Ok(OutboundMessage { dst, content }),
            Err(e) => Err(e),
        }
    }

    /// The bytes of this message.
    pub fn to_vec(&self) -> (r: Result<Vec<u8>, WireError>)
        ensures
            r matches Ok(v) && v@ == message_encoding(self.dst@, self.content@),
    {
        Ok(encode_message(&self.dst, self.content.as_slice()))
    }
}

impl InboundMessage {
    /// Reads an inbound message from the start of `bytes`.
    pub fn from_bytes(bytes: &[u8]) -> (r: Result<Self, WireError>)
        ensures
            match message_decoding(bytes@) {
                Ok((a, c)) => r matches Ok(m) && m.src@ == a && m.content@ == c,
                Err(e) => r == Err::<Self, WireError>(e),
            },
    {
        match decode_message(bytes) {
            Ok((src, content)) => Ok(InboundMessage { src, content }),
            Err(e) => Err(e),
        }
    }

    /// The bytes of this message.
    pub fn to_vec(&self) -> (r: Result<Vec<u8>, WireError>)
        ensures
            r matches Ok(v) && v@ == message_encoding(self.src@, self.content@),
    {
        Ok(encode_message(&self.src, self.content.as_slice()))
    }
}

} // verus!
