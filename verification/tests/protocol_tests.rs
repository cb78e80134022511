//! Wire codec behavior: sequence framing, packet round trips, decode edges.

use oni_net::protocol::{sequence_bytes_required, Packet, Request};
use oni_net::token::{PublicToken, PrivateToken, DATA, USER, PRIVATE_LEN};
use oni_net::addr::Addr;
use oni_net::crypto::keygen;

#[test]
fn test_sequence() {
    let tests: [(u64, u32); 24] = [
        (0x00, 1),
        (0x11, 1),
        (0xFF, 1),
        (0x0100, 2),
        (0x1122, 2),
        (0xFFFF, 2),
        (0x010000, 3),
        (0x112233, 3),
        (0xFFFFFF, 3),
        (0x01000000, 4),
        (0x11223344, 4),
        (0xFFFFFFFF, 4),
        (0x0100000000, 5),
        (0x1122334455, 5),
        (0xFFFFFFFFFF, 5),
        (0x010000000000, 6),
        (0x112233445566, 6),
        (0xFFFFFFFFFFFF, 6),
        (0x01000000000000, 7),
        (0x11223344556677, 7),
        (0xFFFFFFFFFFFFFF, 7),
        (0x0100000000000000, 8),
        (0x1122334455667788, 8),
        (0xFFFFFFFFFFFFFFFF, 8),
    ];

    for (seq, bytes) in &tests {
        assert_eq!(sequence_bytes_required(*seq), *bytes);
    }
}

#[test]
fn decode_payload_packet() {
    // full 8-byte sequence form announced but buffer too short
    let buffer = [0u8; 2 + 16];
    assert!(matches!(Packet::decode(&buffer), Packet::Invalid));

    // full 8-byte sequence form with enough bytes
    match Packet::decode(&[0u8; 9 + 16]) {
        Packet::Payload { seq, buf, tag } => {
            assert_eq!(seq, 0);
            assert_eq!(buf.len(), 0);
            assert_eq!(tag, vec![0u8; 16]);
        },
        _ => panic!("expected a payload packet"),
    }

    // zero sequence in the two-byte compact group
    let mut buffer = [0u8; 2 + 16];
    buffer[0] = 0b00000010;
    match Packet::decode(&buffer) {
        Packet::Payload { seq, buf, .. } => {
            assert_eq!(seq, 0);
            assert_eq!(buf.len(), 0);
        },
        _ => panic!("expected a payload packet"),
    }

    // sequence one
    buffer[0] = 0b00000110;
    match Packet::decode(&buffer) {
        Packet::Payload { seq, .. } => assert_eq!(seq, 1),
        _ => panic!("expected a payload packet"),
    }

    // highest sequence held by the first byte alone
    buffer[0] = 0b11111110;
    buffer[1] = 0;
    match Packet::decode(&buffer) {
        Packet::Payload { seq, .. } => assert_eq!(seq, 0x3F),
        _ => panic!("expected a payload packet"),
    }

    // maximum 14-bit sequence
    buffer[0] = 0b11111110;
    buffer[1] = 0b11111111;
    match Packet::decode(&buffer) {
        Packet::Payload { seq, .. } => assert_eq!(seq, 0x3FFF),
        _ => panic!("expected a payload packet"),
    }

    // three-byte group announced but buffer too short
    let mut buffer = [0u8; 2 + 16];
    buffer[0] = 0b00000100;
    buffer[1] = 0b00000000;
    assert!(matches!(Packet::decode(&buffer), Packet::Invalid));
}

#[test]
fn request_packet() {
    let protocol: u64 = 0x1122334455667788;
    let client_id: u64 = 0x5566778811223344;

    let expire: u64 = 0x12345678;
    let timeout: u32 = 0x87654321;

    let private_key = keygen();

    let data: Vec<u8> = (0..DATA).map(|i| (i * 7) as u8).collect();
    let user: Vec<u8> = (0..USER).map(|i| (i * 3) as u8).collect();
    let server_addr = Addr::v4(127, 0, 0, 1, 40000);

    let now: u64 = 1000;
    let tok = PublicToken::generate(
        data.clone(),
        user,
        expire,
        timeout,
        client_id,
        protocol,
        private_key.as_slice(),
        vec![server_addr],
        now,
    );

    let req = Request::new(
        protocol,
        tok.expire_timestamp(),
        tok.nonce().clone(),
        tok.token().clone(),
    );
    let wire = req.write();
    assert_eq!(wire.len(), 1200);

    let timestamp: u64 = now + 5;
    let (got_expire, private) =
        Request::open(wire.as_slice(), protocol, timestamp, private_key.as_slice()).unwrap();
    assert_eq!(got_expire, tok.expire_timestamp());
    assert_eq!(private.data().as_slice(), data.as_slice());
    assert_eq!(private.client_id(), client_id);
}

#[test]
fn payload_packet_round_trip() {
    let protocol: u64 = 0xABCD;
    let key = keygen();
    let msg: Vec<u8> = vec![1, 2, 3, 4, 5];
    let seq: u64 = 12345;

    let wire = Packet::encode_payload(protocol, seq, key.as_slice(), msg.as_slice());
    match Packet::decode(wire.as_slice()) {
        Packet::Payload { seq: got, buf, tag } => {
            assert_eq!(got, seq);
            let opened = Packet::open(
                protocol,
                buf.as_slice(),
                got,
                0,
                tag.as_slice(),
                key.as_slice(),
            )
            .unwrap();
            assert_eq!(opened, msg);
        },
        _ => panic!("expected a payload packet"),
    }
}

#[test]
fn payload_packet_rejects_wrong_key() {
    let protocol: u64 = 0xABCD;
    let key = keygen();
    let other = keygen();
    let msg: Vec<u8> = vec![9, 9, 9];
    let wire = Packet::encode_payload(protocol, 7, key.as_slice(), msg.as_slice());
    match Packet::decode(wire.as_slice()) {
        Packet::Payload { seq, buf, tag } => {
            assert!(Packet::open(
                protocol,
                buf.as_slice(),
                seq,
                0,
                tag.as_slice(),
                other.as_slice(),
            )
            .is_none());
        },
        _ => panic!("expected a payload packet"),
    }
}

#[test]
fn close_packet_round_trip() {
    let protocol: u64 = 0x77;
    let key = keygen();
    let wire = Packet::encode_close(protocol, 3, key.as_slice());
    match Packet::decode(wire.as_slice()) {
        Packet::Close { prefix, seq, buf, tag } => {
            assert_eq!(seq, 3);
            assert_eq!(buf.len(), 0);
            assert!(Packet::open(
                protocol,
                buf.as_slice(),
                seq,
                prefix,
                tag.as_slice(),
                key.as_slice(),
            )
            .is_some());
        },
        _ => panic!("expected a close packet"),
    }
}

#[test]
fn decode_rejects_short_and_reserved() {
    assert!(matches!(Packet::decode(&[]), Packet::Invalid));
    assert!(matches!(Packet::decode(&[1u8; 17]), Packet::Invalid));
    // reserved odd prefixes with the two top bits set
    let mut b = [0u8; 64];
    b[0] = 0b1100_0001;
    assert!(matches!(Packet::decode(&b), Packet::Invalid));
    // a request prefix without the full MTU length
    let mut b = [0u8; 64];
    b[0] = 1;
    assert!(matches!(Packet::decode(&b), Packet::Invalid));
    // a reserved odd prefix is invalid even on a full-size buffer
    let mut b = [0u8; 1200];
    b[0] = 3;
    assert!(matches!(Packet::decode(&b), Packet::Invalid));
    b[0] = 0b0001_0001;
    assert!(matches!(Packet::decode(&b), Packet::Invalid));
}

#[test]
fn request_expired_is_invalid() {
    let protocol: u64 = 5;
    let nonce = vec![0u8; 24];
    let token = vec![0u8; PRIVATE_LEN];
    let req = Request::new(protocol, 100, nonce, token);
    // the clock at and past the expiry timestamp refuses the request
    assert!(!req.is_valid(protocol, 100));
    assert!(!req.is_valid(protocol, 101));
    // just before expiry it still passes
    assert!(req.is_valid(protocol, 99));
    // and never under another protocol id
    assert!(!req.is_valid(protocol + 1, 99));
}

#[test]
fn private_token_accessors() {
    let addrs = vec![Addr::v4(10, 0, 0, 1, 9000)];
    let user = vec![7u8; USER];
    let data = vec![9u8; DATA];
    let t = PrivateToken::generate(42, 17, addrs.clone(), user.clone(), data.clone());
    assert_eq!(t.client_id(), 42);
    assert_eq!(t.timeout(), 17);
    assert_eq!(t.addrs().as_slice(), addrs.as_slice());
    assert_eq!(t.user().as_slice(), user.as_slice());
    assert_eq!(t.data().as_slice(), data.as_slice());
    assert_eq!(t.client_key().len(), 32);
    assert_eq!(t.server_key().len(), 32);
}

#[test]
fn payload_framing_length() {
    // one byte per seven bits of the sequence, at least two bytes, and the
    // nine-byte escape past fifty-six bits; checked through the wire length
    // of an empty payload packet (framing plus the 16-byte tag)
    let key = keygen();
    let cases: [(u64, usize); 10] = [
        (0, 2),
        (1, 2),
        (0x3FFF, 2),
        (0x4000, 3),
        (0x1F_FFFF, 3),
        (0x20_0000, 4),
        (0x0FFF_FFFF, 4),
        (0x00FF_FFFF_FFFF_FFFF, 8),
        (0x0100_0000_0000_0000, 9),
        (u64::MAX, 9),
    ];
    for (seq, header_len) in &cases {
        let wire = Packet::encode_payload(7, *seq, key.as_slice(), &[]);
        assert_eq!(wire.len(), header_len + 16, "sequence {:#x}", seq);
    }
}
