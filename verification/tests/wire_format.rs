use bytes::Bytes;
use quinn_wasm::{InboundMessage, OutboundMessage, SocketAddr, WireError};

// The wire format writes a socket address as its variant index (a 32-bit
// varint), its octets and its port; postcard writes the tuples below the same
// way, which lets these tests hold the codec to postcard itself.
type V4Fields = (u32, [u8; 4], u16, Bytes);
type V6Fields = (u32, [u8; 16], u16, Bytes);

fn v4(a: u8, b: u8, c: u8, d: u8, port: u16) -> SocketAddr {
    SocketAddr::V4 { ip: [a, b, c, d], port }
}

fn v6(ip: [u8; 16], port: u16) -> SocketAddr {
    SocketAddr::V6 { ip, port, flowinfo: 0, scope_id: 0 }
}

fn postcard_bytes(addr: &SocketAddr, content: &[u8]) -> Vec<u8> {
    let content = Bytes::copy_from_slice(content);
    match *addr {
        SocketAddr::V4 { ip, port } => postcard::to_stdvec(&(0u32, ip, port, content)).unwrap(),
        SocketAddr::V6 { ip, port, .. } => postcard::to_stdvec(&(1u32, ip, port, content)).unwrap(),
    }
}

/// What postcard reads from `bytes`, taking the address as the tag says.
fn postcard_read(bytes: &[u8]) -> Result<(SocketAddr, Vec<u8>), postcard::Error> {
    let (tag, _) = postcard::take_from_bytes::<u32>(bytes)?;
    if tag == 0 {
        let (_, ip, port, content) = postcard::from_bytes::<V4Fields>(bytes)?;
        Ok((SocketAddr::V4 { ip, port }, content.to_vec()))
    } else {
        let (_, ip, port, content) = postcard::from_bytes::<V6Fields>(bytes)?;
        Ok((SocketAddr::V6 { ip, port, flowinfo: 0, scope_id: 0 }, content.to_vec()))
    }
}

fn samples() -> Vec<(SocketAddr, Vec<u8>)> {
    let mut ip6 = [0u8; 16];
    for (i, b) in ip6.iter_mut().enumerate() {
        *b = (i * 17) as u8;
    }
    vec![
        (v4(127, 0, 0, 1, 4000), b"hello".to_vec()),
        (v4(0, 0, 0, 0, 0), Vec::new()),
        (v4(255, 255, 255, 255, 65535), vec![0xff; 127]),
        (v4(10, 1, 2, 3, 127), vec![7; 128]),
        (v4(10, 1, 2, 3, 128), vec![1; 300]),
        (v4(192, 168, 0, 1, 16383), vec![9; 16384]),
        (v4(192, 168, 0, 1, 16384), vec![3; 1600]),
        (v6(ip6, 443), b"quic".to_vec()),
        (v6([0; 16], 65535), vec![0; 70000]),
    ]
}

#[test]
fn outbound_v4_exact_bytes() {
    let m = OutboundMessage { dst: v4(127, 0, 0, 1, 4000), content: vec![1, 2, 3] };
    // tag 0, octets, port 4000 as 0xa0 0x1f, length 3, content
    assert_eq!(m.to_vec().unwrap(), vec![0, 127, 0, 0, 1, 0xa0, 0x1f, 3, 1, 2, 3]);
}

#[test]
fn outbound_v6_exact_bytes() {
    let mut ip = [0u8; 16];
    ip[15] = 1;
    let m = OutboundMessage { dst: v6(ip, 5), content: vec![] };
    let mut expected = vec![1];
    expected.extend_from_slice(&ip);
    expected.extend_from_slice(&[5, 0]);
    assert_eq!(m.to_vec().unwrap(), expected);
}

#[test]
fn encoding_agrees_with_postcard() {
    for (addr, content) in samples() {
        let out = OutboundMessage { dst: addr, content: content.clone() };
        let inb = InboundMessage { src: addr, content: content.clone() };
        let expected = postcard_bytes(&addr, &content);
        assert_eq!(out.to_vec().unwrap(), expected);
        assert_eq!(inb.to_vec().unwrap(), expected);
    }
}

#[test]
fn decoding_agrees_with_postcard() {
    for (addr, content) in samples() {
        let bytes = postcard_bytes(&addr, &content);
        let (p_addr, p_content) = postcard_read(&bytes).unwrap();
        let out = OutboundMessage::from_bytes(&bytes).unwrap();
        assert_eq!(out.dst, p_addr);
        assert_eq!(out.content, p_content);
        let inb = InboundMessage::from_bytes(&bytes).unwrap();
        assert_eq!(inb.src, p_addr);
        assert_eq!(inb.content, content);
    }
}

#[test]
fn roundtrip_outbound_to_inbound() {
    for (addr, content) in samples() {
        let out = OutboundMessage { dst: addr, content: content.clone() };
        let bytes = out.to_vec().unwrap();
        let inb = InboundMessage::from_bytes(&bytes).unwrap();
        assert_eq!(inb, InboundMessage { src: addr, content });
    }
}

#[test]
fn trailing_bytes_are_ignored() {
    let out = OutboundMessage { dst: v4(1, 2, 3, 4, 5), content: vec![6, 7] };
    let mut bytes = out.to_vec().unwrap();
    bytes.extend_from_slice(&[0xde, 0xad, 0xbe, 0xef]);
    assert_eq!(OutboundMessage::from_bytes(&bytes).unwrap(), out);
    assert!(postcard_read(&bytes).is_ok());
}

#[test]
fn ipv6_flow_information_is_not_carried() {
    let ip = [0x20, 0x01, 0x0d, 0xb8, 0, 0, 0, 0, 0, 0, 0, 0, 0, 0, 0, 1];
    let out = OutboundMessage {
        dst: SocketAddr::V6 { ip, port: 9, flowinfo: 77, scope_id: 3 },
        content: vec![42],
    };
    let bytes = out.to_vec().unwrap();
    assert_eq!(bytes, postcard_bytes(&out.dst, &out.content));
    let back = OutboundMessage::from_bytes(&bytes).unwrap();
    assert_eq!(back.dst, SocketAddr::V6 { ip, port: 9, flowinfo: 0, scope_id: 0 });
}

#[test]
fn longer_varints_are_accepted() {
    // tag 0 written on two bytes, port 1 on three bytes, length 1 on two bytes
    let bytes = [0x80, 0x00, 9, 9, 9, 9, 0x81, 0x80, 0x00, 0x81, 0x00, 0x55];
    let m = OutboundMessage::from_bytes(&bytes).unwrap();
    assert_eq!(m.dst, v4(9, 9, 9, 9, 1));
    assert_eq!(m.content, vec![0x55]);
    let (a, c) = postcard_read(&bytes).unwrap();
    assert_eq!(a, m.dst);
    assert_eq!(c, m.content);
}

#[test]
fn error_empty_input() {
    assert_eq!(OutboundMessage::from_bytes(&[]), Err(WireError::UnexpectedEnd));
    assert!(matches!(postcard_read(&[]), Err(postcard::Error::DeserializeUnexpectedEnd)));
}

#[test]
fn error_truncated_octets() {
    let bytes = [0, 1, 2];
    assert_eq!(InboundMessage::from_bytes(&bytes), Err(WireError::UnexpectedEnd));
    assert!(matches!(postcard_read(&bytes), Err(postcard::Error::DeserializeUnexpectedEnd)));
}

#[test]
fn error_truncated_content() {
    let bytes = [0, 1, 2, 3, 4, 5, 4, 1, 2];
    assert_eq!(InboundMessage::from_bytes(&bytes), Err(WireError::UnexpectedEnd));
    assert!(matches!(postcard_read(&bytes), Err(postcard::Error::DeserializeUnexpectedEnd)));
}

#[test]
fn error_unknown_address_kind() {
    let bytes = [2, 1, 2, 3, 4, 5, 0];
    assert_eq!(OutboundMessage::from_bytes(&bytes), Err(WireError::UnknownAddressKind));
    // a tag written on more bytes than needed is still read as its value
    let bytes = [0x82, 0x00, 1, 2, 3, 4, 5, 0];
    assert_eq!(OutboundMessage::from_bytes(&bytes), Err(WireError::UnknownAddressKind));
}

#[test]
fn error_port_too_large() {
    // 0x04 as the third byte of a 16-bit integer exceeds 16 bits
    let bytes = [0, 1, 2, 3, 4, 0xff, 0xff, 0x04, 0];
    assert_eq!(OutboundMessage::from_bytes(&bytes), Err(WireError::BadVarint));
    assert!(matches!(postcard_read(&bytes), Err(postcard::Error::DeserializeBadVarint)));
    // the largest port is accepted
    let ok = [0, 1, 2, 3, 4, 0xff, 0xff, 0x03, 0];
    assert_eq!(OutboundMessage::from_bytes(&ok).unwrap().dst, v4(1, 2, 3, 4, 65535));
}

#[test]
fn error_port_varint_too_long() {
    let bytes = [0, 1, 2, 3, 4, 0x80, 0x80, 0x80, 0x00, 0];
    assert_eq!(OutboundMessage::from_bytes(&bytes), Err(WireError::BadVarint));
    assert!(matches!(postcard_read(&bytes), Err(postcard::Error::DeserializeBadVarint)));
}

#[test]
fn error_tag_varint_too_long() {
    let bytes = [0x80, 0x80, 0x80, 0x80, 0x80, 0x00];
    assert_eq!(OutboundMessage::from_bytes(&bytes), Err(WireError::BadVarint));
    assert!(matches!(postcard_read(&bytes), Err(postcard::Error::DeserializeBadVarint)));
}

#[test]
fn error_length_too_large() {
    let mut bytes = vec![0, 1, 2, 3, 4, 5];
    bytes.extend_from_slice(&[0xff; 9]);
    bytes.push(0x02);
    assert_eq!(OutboundMessage::from_bytes(&bytes), Err(WireError::BadVarint));
    assert!(matches!(postcard_read(&bytes), Err(postcard::Error::DeserializeBadVarint)));
}

#[test]
fn error_huge_length_is_unexpected_end() {
    let mut bytes = vec![0, 1, 2, 3, 4, 5];
    bytes.extend_from_slice(&[0xff; 9]);
    bytes.push(0x01);
    assert_eq!(OutboundMessage::from_bytes(&bytes), Err(WireError::UnexpectedEnd));
    assert!(matches!(postcard_read(&bytes), Err(postcard::Error::DeserializeUnexpectedEnd)));
}
