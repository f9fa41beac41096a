//! Socket addresses and their place in the wire format.
//!
//! An address is written as a tag (0 for IPv4, 1 for IPv6, as a 32-bit
//! variable-length integer), the raw octets of the IP address (4 or 16), and
//! the port as a 16-bit variable-length integer. The IPv6 flow information and
//! scope id are not written; a decoded IPv6 address has both at zero.

use vstd::prelude::*;
use crate::varint::{
    is_shortest_leb128, leb128_value, lemma_shortest_leb128_unique,
    lemma_varint_encoding_is_shortest_leb128, lemma_varint_decoding_bound, lemma_varint_roundtrip,
    pow128, read_varint, varint_decoding, varint_encoding, write_varint, WireError,
};

verus! {

/// An IPv4 or IPv6 socket address.
#[allow(inconsistent_fields)]
#[derive(Debug, Clone, Copy, PartialEq, Eq)]
pub enum SocketAddr {
    /// An IPv4 address and port.
    V4 { ip: [u8; 4], port: u16 },
    /// An IPv6 address and port, with flow information and scope id.
    V6 { ip: [u8; 16], port: u16, flowinfo: u32, scope_id: u32 },
}

/// The mathematical model of a [`SocketAddr`]: the octets as a sequence.
pub enum SocketAddrView {
    V4 { ip: Seq<u8>, port: u16 },
    V6 { ip: Seq<u8>, port: u16, flowinfo: u32, scope_id: u32 },
}

impl View for SocketAddr {
    type V = SocketAddrView;

    open spec fn view(&self) -> SocketAddrView {
        match *self {
            SocketAddr::V4 { ip, port } => SocketAddrView::V4 { ip: ip@, port },
            SocketAddr::V6 { ip, port, flowinfo, scope_id } => SocketAddrView::V6 {
                ip: ip@,
                port,
                flowinfo,
                scope_id,
            },
        }
    }
}

impl SocketAddrView {
    /// The octets have the length of their address family.
    pub open spec fn wf(self) -> bool {
        match self {
            SocketAddrView::V4 { ip, .. } => ip.len() == 4,
            SocketAddrView::V6 { ip, .. } => ip.len() == 16,
        }
    }

    /// The address as it comes out of the wire format: an IPv6 address loses
    /// its flow information and scope id.
    pub open spec fn on_the_wire(self) -> SocketAddrView {
        match self {
            SocketAddrView::V4 { ip, port } => SocketAddrView::V4 { ip, port },
            SocketAddrView::V6 { ip, port, .. } => SocketAddrView::V6 {
                ip,
                port,
                flowinfo: 0,
                scope_id: 0,
            },
        }
    }
}

/// The bytes that represent `a` in the wire format.
pub open spec fn address_encoding(a: SocketAddrView) -> Seq<u8> {
    match a {
        SocketAddrView::V4 { ip, port } => varint_encoding(0) + ip + varint_encoding(port as nat),
        SocketAddrView::V6 { ip, port, .. } => varint_encoding(1) + ip + varint_encoding(
            port as nat,
        ),
    }
}

/// What the reader makes of the start of `s` as an address: the address and
/// the number of bytes it occupies, or why the read fails.
pub open spec fn address_decoding(s: Seq<u8>) -> Result<(SocketAddrView, nat), WireError> {
    match varint_decoding(s, 5, 15) {
        Err(e) => Err(e),
        Ok((tag, n)) => {
            if tag != 0 && tag != 1 {
                Err(WireError::UnknownAddressKind)
            } else {
                let k: nat = if tag == 0 {
                    4
                } else {
                    16
                };
                if s.len() < n + k {
                    Err(WireError::UnexpectedEnd)
                } else {
                    match varint_decoding(s.subrange((n + k) as int, s.len() as int), 3, 3) {
                        Err(e) => Err(e),
                        Ok((port, m)) => {
                            let ip = s.subrange(n as int, (n + k) as int);
                            let a = if tag == 0 {
                                SocketAddrView::V4 { ip, port: port as u16 }
                            } else {
                                SocketAddrView::V6 { ip, port: port as u16, flowinfo: 0, scope_id: 0 }
                            };
                            Ok((a, n + k + m))
                        },
                    }
                }
            }
        },
    }
}

pub proof fn lemma_small_powers()
    ensures
        pow128(0) == 1,
        pow128(1) == 128,
        pow128(2) == 16384,
        pow128(3) == 2097152,
        pow128(4) == 268435456,
        pow128(9) == 0x8000_0000_0000_0000,
{
    reveal_with_fuel(pow128, 10);
}

/// Reading the encoding of a well-formed address, followed by anything,
/// gives back the address as the wire carries it, and stops at the end of
/// the encoding.
pub proof fn lemma_address_roundtrip(a: SocketAddrView, rest: Seq<u8>)
    requires
        a.wf(),
    ensures
        address_decoding(address_encoding(a) + rest) == Ok::<(SocketAddrView, nat), WireError>(
            (a.on_the_wire(), address_encoding(a).len()),
        ),
{
    lemma_small_powers();
    let (tag, ip, port): (nat, Seq<u8>, u16) = match a {
        SocketAddrView::V4 { ip, port } => (0, ip, port),
        SocketAddrView::V6 { ip, port, .. } => (1, ip, port),
    };
    let s = address_encoding(a) + rest;
    let tail = ip + varint_encoding(port as nat) + rest;
    assert(s =~= varint_encoding(tag) + tail);
    lemma_varint_roundtrip(tag, tail, 5, 15);
    assert(varint_encoding(tag).len() == 1);
    let k: nat = if tag == 0 {
        4
    } else {
        16
    };
    assert(s.subrange(1, (1 + k) as int) =~= ip);
    assert(s.subrange((1 + k) as int, s.len() as int) =~= varint_encoding(port as nat) + rest);
    lemma_varint_roundtrip(port as nat, rest, 3, 3);
}

/// The layout of an address on the wire: the tag byte (0 for IPv4, 1 for
/// IPv6), the octets as they are, then the port as a shortest base-128
/// number.
pub proof fn lemma_address_layout(a: SocketAddrView)
    requires
        a.wf(),
    ensures
        ({
            let e = address_encoding(a);
            match a {
                SocketAddrView::V4 { ip, port } => {
                    &&& e.len() > 5
                    &&& e[0] == 0
                    &&& e.subrange(1, 5) == ip
                    &&& is_shortest_leb128(e.subrange(5, e.len() as int))
                    &&& leb128_value(e.subrange(5, e.len() as int)) == port
                },
                SocketAddrView::V6 { ip, port, .. } => {
                    &&& e.len() > 17
                    &&& e[0] == 1
                    &&& e.subrange(1, 17) == ip
                    &&& is_shortest_leb128(e.subrange(17, e.len() as int))
                    &&& leb128_value(e.subrange(17, e.len() as int)) == port
                },
            }
        }),
{
    let e = address_encoding(a);
    let (ip, port): (Seq<u8>, u16) = match a {
        SocketAddrView::V4 { ip, port } => (ip, port),
        SocketAddrView::V6 { ip, port, .. } => (ip, port),
    };
    let k = 1 + ip.len();
    lemma_varint_encoding_is_shortest_leb128(port as nat);
    lemma_varint_encoding_is_shortest_leb128(0);
    lemma_varint_encoding_is_shortest_leb128(1);
    assert(varint_encoding(0) =~= seq![0u8]);
    assert(varint_encoding(1) =~= seq![1u8]);
    assert(e.subrange(1, k as int) =~= ip);
    assert(e.subrange(k as int, e.len() as int) =~= varint_encoding(port as nat));
}

/// Reading an IPv4 address laid out on the wire (tag 0, four octets, the
/// port as a shortest base-128 number), followed by anything, gives back
/// those octets and that port.
pub proof fn lemma_read_ipv4_layout(ip: Seq<u8>, port: u16, digits: Seq<u8>, rest: Seq<u8>)
    requires
        ip.len() == 4,
        is_shortest_leb128(digits),
        leb128_value(digits) == port,
    ensures
        address_decoding(seq![0u8] + ip + digits + rest) == Ok::<(SocketAddrView, nat), WireError>(
            (SocketAddrView::V4 { ip, port }, 5 + digits.len()),
        ),
{
    lemma_shortest_leb128_unique(digits);
    let a = SocketAddrView::V4 { ip, port };
    assert(varint_encoding(0) =~= seq![0u8]);
    assert(seq![0u8] + ip + digits + rest =~= address_encoding(a) + rest);
    lemma_address_roundtrip(a, rest);
}

/// Reading an IPv6 address laid out on the wire (tag 1, sixteen octets, the
/// port as a shortest base-128 number), followed by anything, gives back
/// those octets and that port, with no flow information or scope id.
pub proof fn lemma_read_ipv6_layout(ip: Seq<u8>, port: u16, digits: Seq<u8>, rest: Seq<u8>)
    requires
        ip.len() == 16,
        is_shortest_leb128(digits),
        leb128_value(digits) == port,
    ensures
        address_decoding(seq![1u8] + ip + digits + rest) == Ok::<(SocketAddrView, nat), WireError>(
            (SocketAddrView::V6 { ip, port, flowinfo: 0, scope_id: 0 }, 17 + digits.len()),
        ),
{
    lemma_shortest_leb128_unique(digits);
    let a = SocketAddrView::V6 { ip, port, flowinfo: 0, scope_id: 0 };
    assert(varint_encoding(1) =~= seq![1u8]);
    assert(seq![1u8] + ip + digits + rest =~= address_encoding(a) + rest);
    lemma_address_roundtrip(a, rest);
}

/// A tag other than 0 and 1 (within the 32 bits of a tag) is refused as an
/// unknown kind of address, whatever follows it.
pub proof fn lemma_read_unknown_tag(digits: Seq<u8>, rest: Seq<u8>)
    requires
        is_shortest_leb128(digits),
        2 <= leb128_value(digits) < 0x1_0000_0000,
    ensures
        address_decoding(digits + rest) == Err::<(SocketAddrView, nat), WireError>(
            WireError::UnknownAddressKind,
        ),
{
    lemma_small_powers();
    lemma_shortest_leb128_unique(digits);
    lemma_varint_roundtrip(leb128_value(digits), rest, 5, 15);
}

/// An address whose octets are cut short is refused for want of input.
pub proof fn lemma_read_address_cut_short(part: Seq<u8>)
    ensures
        part.len() < 4 ==> address_decoding(seq![0u8] + part) == Err::<(SocketAddrView, nat), WireError>(
            WireError::UnexpectedEnd,
        ),
        part.len() < 16 ==> address_decoding(seq![1u8] + part) == Err::<(SocketAddrView, nat), WireError>(
            WireError::UnexpectedEnd,
        ),
{
    lemma_small_powers();
    assert(varint_encoding(0) =~= seq![0u8]);
    assert(varint_encoding(1) =~= seq![1u8]);
    lemma_varint_roundtrip(0, part, 5, 15);
    lemma_varint_roundtrip(1, part, 5, 15);
}

/// Appends the encoding of `a` to `out`.
pub fn write_address(out: &mut Vec<u8>, a: &SocketAddr)
    ensures
        final(out)@ == old(out)@ + address_encoding(a@),
{
    let ghost start = out@;
    match a {
        SocketAddr::V4 { ip, port } => {
            write_varint(out, 0);
            let ghost mid = out@;
            for i in 0..4
                invariant
                    out@ == mid + ip@.subrange(0, i as int),
            {
                out.push(ip[i]);
                assert(ip@.subrange(0, i + 1) =~= ip@.subrange(0, i as int).push(ip@[i as int]));
            }
            assert(ip@.subrange(0, 4) =~= ip@);
            write_varint(out, *port as u64);
        },
        SocketAddr::V6 { ip, port, .. } => {
            write_varint(out, 1);
            let ghost mid = out@;
            for i in 0..16
                invariant
                    out@ == mid + ip@.subrange(0, i as int),
            {
                out.push(ip[i]);
                assert(ip@.subrange(0, i + 1) =~= ip@.subrange(0, i as int).push(ip@[i as int]));
            }
            assert(ip@.subrange(0, 16) =~= ip@);
            write_varint(out, *port as u64);
        },
    }
    assert(out@ =~= start + address_encoding(a@));
}

/// Reads an address at position `pos` of `s`; on success returns it and the
/// position just after it.
pub fn read_address(s: &[u8], pos: usize) -> (r: Result<(SocketAddr, usize), WireError>)
    requires
        pos <= s@.len(),
    ensures
        match address_decoding(s@.subrange(pos as int, s@.len() as int)) {
            Ok((a, n)) => r matches Ok((b, end)) && b@ == a && end == pos + n,
            Err(e) => r == Err::<(SocketAddr, usize), WireError>(e),
        },
        r matches Ok((_, end)) ==> pos <= end <= s@.len(),
{
    let ghost rest = s@.subrange(pos as int, s@.len() as int);
    proof {
        lemma_small_powers();
        lemma_varint_decoding_bound(rest, 5, 15);
    }
    let (tag, p) = match read_varint(s, pos, 5, 15) {
        Ok(t) => t,
        Err(e) => {
            return Err(e);
        },
    };
    if tag != 0 && tag != 1 {
        return Err(WireError::UnknownAddressKind);
    }
    let k: usize = if tag == 0 {
        4
    } else {
        16
    };
    if s.len() - p < k {
        return Err(WireError::UnexpectedEnd);
    }
    let q = p + k;
    proof {
        assert(rest.subrange((p - pos) + k, rest.len() as int) =~= s@.subrange(q as int, s@.len() as int));
        lemma_varint_decoding_bound(s@.subrange(q as int, s@.len() as int), 3, 3);
    }
    assert(s@.subrange(q as int, s@.len() as int).len() == s@.len() - q);
    let (port, end) = match read_varint(s, q, 3, 3) {
        Ok(t) => t,
        Err(e) => {
            return Err(e);
        },
    };
    let ghost ip_seq = rest.subrange((p - pos) as int, (p - pos) + k);
    if tag == 0 {
        let mut ip: [u8; 4] = [0u8; 4];
        for i in 0..4
            invariant
                p + 4 <= s@.len(),
                s@.len() <= usize::MAX,
                ip@.len() == 4,
                forall|j: int| 0 <= j < i ==> ip@[j] == s@[p + j],
        {
            ip[i] = s[p + i];
        }
        proof {
            assert(ip@ =~= ip_seq);
        }
        Ok((SocketAddr::V4 { ip, port: port as u16 }, end))
    } else {
        let mut ip: [u8; 16] = [0u8; 16];
        for i in 0..16
            invariant
                p + 16 <= s@.len(),
                s@.len() <= usize::MAX,
                ip@.len() == 16,
                forall|j: int| 0 <= j < i ==> ip@[j] == s@[p + j],
        {
            ip[i] = s[p + i];
        }
        proof {
            assert(ip@ =~= ip_seq);
        }
        Ok((SocketAddr::V6 { ip, port: port as u16, flowinfo: 0, scope_id: 0 }, end))
    }
}

} // verus!
