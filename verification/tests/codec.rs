use bytes::BytesMut;
use discovery::codec::{from_wire, to_wire, CodecError, DiscoveryCodec};
use discovery::{AddrRaw, DiscoveryMessage, Node, Nodes};

fn encoded(message: DiscoveryMessage) -> Vec<u8> {
    let mut codec = DiscoveryCodec::default();
    let mut buf = BytesMut::new();
    assert_eq!(codec.encode(message, &mut buf), Ok(()));
    buf.to_vec()
}

fn some_nodes() -> DiscoveryMessage {
    DiscoveryMessage::Nodes(Nodes {
        announce: true,
        items: vec![
            Node {
                node_id: Some("ab".to_string()),
                addresses: vec![AddrRaw { ip: 0xffff_0102_0304, port: 0x1234 }],
            },
            Node { node_id: None, addresses: vec![] },
        ],
    })
}

#[test]
fn question_has_the_expected_bytes() {
    let asked = DiscoveryMessage::GetNodes { version: 0, count: 1000 };
    let bytes = encoded(asked);
    assert_eq!(bytes, vec![0, 0, 0, 12, 0, 0, 0, 0, 0, 0, 0, 0, 0xe8, 3, 0, 0]);
}

#[test]
fn node_list_has_the_expected_bytes() {
    let mut payload = vec![1, 0, 0, 0, 1];
    payload.extend(vec![2, 0, 0, 0, 0, 0, 0, 0]);
    payload.extend(vec![1, 2, 0, 0, 0, 0, 0, 0, 0, b'a', b'b']);
    payload.extend(vec![1, 0, 0, 0, 0, 0, 0, 0]);
    payload.extend(vec![4, 3, 2, 1, 0xff, 0xff, 0, 0, 0, 0, 0, 0, 0, 0, 0, 0, 0x34, 0x12]);
    payload.extend(vec![0, 0, 0, 0, 0, 0, 0, 0, 0]);
    let mut expected = vec![0, 0, 0, payload.len() as u8];
    expected.extend(payload);
    assert_eq!(encoded(some_nodes()), expected);
}

#[test]
fn messages_are_read_back_in_order() {
    let mut codec = DiscoveryCodec::default();
    let mut buf = BytesMut::new();
    let asked = DiscoveryMessage::GetNodes { version: 7, count: u32::MAX };
    assert_eq!(codec.encode(some_nodes(), &mut buf), Ok(()));
    assert_eq!(codec.encode(asked.clone(), &mut buf), Ok(()));
    assert_eq!(codec.decode(&mut buf), Ok(Some(some_nodes())));
    assert_eq!(codec.decode(&mut buf), Ok(Some(asked)));
    assert_eq!(codec.decode(&mut buf), Ok(None));
    assert_eq!(buf.len(), 0);
}

#[test]
fn message_may_arrive_byte_by_byte() {
    let bytes = encoded(some_nodes());
    let mut codec = DiscoveryCodec::default();
    let mut buf = BytesMut::new();
    for (i, byte) in bytes.iter().enumerate() {
        buf.extend_from_slice(&[*byte]);
        let read = codec.decode(&mut buf);
        if i + 1 < bytes.len() {
            assert_eq!(read, Ok(None));
        } else {
            assert_eq!(read, Ok(Some(some_nodes())));
        }
    }
}

#[test]
fn frame_over_the_limit_is_invalid_data() {
    let mut codec = DiscoveryCodec::default();
    let mut buf = BytesMut::from(vec![0x00, 0x80, 0x00, 0x01]);
    assert_eq!(codec.decode(&mut buf), Err(CodecError::InvalidData));
    assert_eq!(&buf[..], &[0x00, 0x80, 0x00, 0x01][..]);

    let mut buf = BytesMut::from(vec![0x00, 0x80, 0x00, 0x00]);
    assert_eq!(codec.decode(&mut buf), Ok(None));
}

#[test]
fn payload_that_is_no_message_is_invalid_data() {
    let mut codec = DiscoveryCodec::default();
    // No variant has this number.
    let mut buf = BytesMut::from(vec![0, 0, 0, 4, 2, 0, 0, 0, 9]);
    assert_eq!(codec.decode(&mut buf), Err(CodecError::InvalidData));
    // The frame has been consumed all the same.
    assert_eq!(&buf[..], &[9][..]);

    let mut buf = BytesMut::from(vec![0, 0, 0, 0]);
    assert_eq!(codec.decode(&mut buf), Err(CodecError::InvalidData));
    assert_eq!(buf.len(), 0);
}

#[test]
fn bytes_after_the_message_in_its_frame_are_ignored() {
    let mut codec = DiscoveryCodec::default();
    let mut buf = BytesMut::from(vec![0, 0, 0, 13, 0, 0, 0, 0, 1, 0, 0, 0, 2, 0, 0, 0, 77]);
    let expected = DiscoveryMessage::GetNodes { version: 1, count: 2 };
    assert_eq!(codec.decode(&mut buf), Ok(Some(expected)));
}

#[test]
fn message_over_the_limit_is_invalid_input() {
    let mut codec = DiscoveryCodec::default();
    let mut buf = BytesMut::new();
    let node_id = "x".repeat(8 * 1024 * 1024);
    let message = DiscoveryMessage::Nodes(Nodes {
        announce: false,
        items: vec![Node { node_id: Some(node_id), addresses: vec![] }],
    });
    assert_eq!(codec.encode(message, &mut buf), Err(CodecError::InvalidInput));
    assert_eq!(buf.len(), 0);
}

fn named(node_id: String) -> DiscoveryMessage {
    DiscoveryMessage::Nodes(Nodes {
        announce: false,
        items: vec![Node { node_id: Some(node_id), addresses: vec![] }],
    })
}

#[test]
fn longest_message_just_fits() {
    let mut codec = DiscoveryCodec::default();
    // Besides the identity the message takes thirty bytes.
    let longest = 8 * 1024 * 1024 - 30;
    let mut buf = BytesMut::new();
    assert_eq!(codec.encode(named("x".repeat(longest)), &mut buf), Ok(()));
    assert_eq!(buf.len(), 4 + 8 * 1024 * 1024);
    assert_eq!(codec.decode(&mut buf), Ok(Some(named("x".repeat(longest)))));
    let too_long = named("x".repeat(longest + 1));
    assert_eq!(codec.encode(too_long, &mut buf), Err(CodecError::InvalidInput));
    assert_eq!(buf.len(), 0);
}

#[test]
fn identity_is_counted_in_bytes() {
    assert_eq!(encoded(named("\u{e9}\u{20ac}\u{1f600}".to_string())).len(), 4 + 30 + 2 + 3 + 4);
}

#[test]
fn longest_answer_fits() {
    let items = (0..1000)
        .map(|ip| Node { node_id: None, addresses: vec![AddrRaw { ip, port: 1 }] })
        .collect();
    let answer = DiscoveryMessage::Nodes(Nodes { announce: false, items });
    assert_eq!(encoded(answer).len(), 4 + 13 + 27 * 1000);
}

#[test]
fn wire_form_of_messages() {
    let asked = DiscoveryMessage::GetNodes { version: 1, count: 2 };
    assert_eq!(to_wire(asked.clone()), Ok((1, 2)));
    assert_eq!(from_wire(Ok((1, 2))), asked);
    let wire = Err((
        true,
        vec![
            (Some("ab".to_string()), vec![(0xffff_0102_0304, 0x1234)]),
            (None, vec![]),
        ],
    ));
    assert_eq!(to_wire(some_nodes()), wire);
    assert_eq!(from_wire(wire), some_nodes());
}
