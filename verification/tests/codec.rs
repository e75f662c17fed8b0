use metaserve::addr::{Addr, Ip};
use metaserve::client::{Event, Message, Server};
use metaserve::codec::{decode_hello, decode_message, encode_hello, encode_message, CodecError};
use metaserve::game::Hello;

fn v4(a: u8, b: u8, c: u8, d: u8, port: u16) -> Addr {
    Addr { ip: Ip::V4([a, b, c, d]), port }
}

#[test]
fn hello_encodes_port_little_endian() {
    let bytes = encode_hello(&Hello { port: 30000 });
    assert_eq!(bytes, vec![0x30, 0x75]);
}

#[test]
fn hello_roundtrip() {
    for port in [0u16, 1, 4433, 30000, 65535] {
        let bytes = encode_hello(&Hello { port });
        let back = decode_hello(&bytes).expect("well-formed hello");
        assert_eq!(back.port, port);
    }
}

#[test]
fn hello_rejects_wrong_length() {
    assert_eq!(decode_hello(&vec![]), Err(CodecError::Malformed));
    assert_eq!(decode_hello(&vec![1]), Err(CodecError::Malformed));
    assert_eq!(decode_hello(&vec![1, 2, 3]), Err(CodecError::Malformed));
}

#[test]
fn empty_message_is_eight_zero_bytes() {
    let m = Message { servers: Vec::new() };
    let bytes = encode_message(&m);
    assert_eq!(bytes, vec![0, 0, 0, 0, 0, 0, 0, 0]);
    assert_eq!(decode_message(&bytes).expect("empty message"), m);
}

#[test]
fn update_message_exact_bytes() {
    let m = Message {
        servers: vec![Server {
            id: 0,
            event: Event::Update(v4(1, 2, 3, 4, 30000), vec![0x41]),
        }],
    };
    let bytes = encode_message(&m);
    let expected = vec![
        1, 0, 0, 0, 0, 0, 0, 0, // one delta
        0, 0, 0, 0, 0, 0, 0, 0, // id 0
        1, // update tag
        0, 1, 2, 3, 4, // v4 tag and octets
        0x30, 0x75, // port 30000
        1, 0, 0, 0, 0, 0, 0, 0, // one state byte
        0x41,
    ];
    assert_eq!(bytes, expected);
}

#[test]
fn message_roundtrip_mixed_events() {
    let m = Message {
        servers: vec![
            Server { id: 7, event: Event::Shutdown },
            Server {
                id: 0,
                event: Event::Update(v4(10, 0, 0, 1, 4433), vec![]),
            },
            Server {
                id: u64::MAX,
                event: Event::Update(
                    Addr { ip: Ip::V6([0xfe, 0x80, 0, 0, 0, 0, 0, 0, 0, 0, 0, 0, 0, 0, 0, 1]), port: 9 },
                    vec![1, 2, 3, 4, 5],
                ),
            },
        ],
    };
    let bytes = encode_message(&m);
    assert_eq!(decode_message(&bytes).expect("well-formed message"), m);
}

#[test]
fn message_rejects_unknown_event_tag() {
    let mut bytes = vec![1, 0, 0, 0, 0, 0, 0, 0];
    bytes.extend([0, 0, 0, 0, 0, 0, 0, 0]); // id
    bytes.push(2); // no such event
    assert_eq!(decode_message(&bytes), Err(CodecError::Malformed));
}

#[test]
fn message_rejects_unknown_address_tag() {
    let mut bytes = vec![1, 0, 0, 0, 0, 0, 0, 0];
    bytes.extend([0, 0, 0, 0, 0, 0, 0, 0]); // id
    bytes.push(1); // update
    bytes.push(7); // no such address family
    bytes.extend([1, 2, 3, 4, 0x30, 0x75]);
    assert_eq!(decode_message(&bytes), Err(CodecError::Malformed));
}

#[test]
fn message_rejects_length_prefix_beyond_input() {
    let m = Message {
        servers: vec![Server {
            id: 3,
            event: Event::Update(v4(1, 2, 3, 4, 80), vec![9, 9]),
        }],
    };
    let mut bytes = encode_message(&m);
    // Claim three state bytes where only two follow.
    let state_len_at = bytes.len() - 2 - 8;
    bytes[state_len_at] = 3;
    assert_eq!(decode_message(&bytes), Err(CodecError::Malformed));
}

#[test]
fn message_rejects_count_beyond_input() {
    let bytes = vec![2, 0, 0, 0, 0, 0, 0, 0]; // two deltas, none present
    assert_eq!(decode_message(&bytes), Err(CodecError::Malformed));
}

#[test]
fn message_rejects_trailing_bytes() {
    let m = Message { servers: vec![Server { id: 1, event: Event::Shutdown }] };
    let mut bytes = encode_message(&m);
    bytes.push(0);
    assert_eq!(decode_message(&bytes), Err(CodecError::Malformed));
}

#[test]
fn message_rejects_truncated_count() {
    assert_eq!(decode_message(&vec![1, 0, 0]), Err(CodecError::Malformed));
}
