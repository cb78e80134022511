//! Token round trips: serialize, seal, open, and the failure modes.

use oni_net::addr::Addr;
use oni_net::crypto::{keygen, nonce_gen};
use oni_net::token::{ChallengeToken, PrivateToken, DATA, PRIVATE_PLAIN, USER};

const TEST_PROTOCOL_ID: u64 = 0x1122334455667788;
const TEST_CLIENT_ID: u64 = 0x1;
const TEST_TIMEOUT_SECONDS: u32 = 15;

#[test]
fn connect_token() {
    // generate a connect token
    let server_address = Addr::v4(127, 0, 0, 1, 40000);

    let user_data: Vec<u8> = (0..USER).map(|i| (i * 11) as u8).collect();
    let data: Vec<u8> = (0..DATA).map(|i| (i * 5) as u8).collect();

    let input_token = PrivateToken::generate(
        TEST_CLIENT_ID,
        TEST_TIMEOUT_SECONDS,
        vec![server_address],
        user_data.clone(),
        data.clone(),
    );

    assert_eq!(input_token.client_id(), TEST_CLIENT_ID);
    assert_eq!(input_token.addrs().as_slice(), &[server_address]);
    assert_eq!(input_token.user().as_slice(), user_data.as_slice());

    // write it to a buffer
    let buffer = input_token.write();
    assert_eq!(buffer.len(), PRIVATE_PLAIN);

    // encrypt and decrypt the buffer
    let expire_timestamp: u64 = 30 + 1_700_000_000;
    let nonce = nonce_gen();
    let key = keygen();

    let sealed = input_token.encrypt(
        TEST_PROTOCOL_ID,
        expire_timestamp,
        nonce.as_slice(),
        key.as_slice(),
    );

    let output_token = PrivateToken::decrypt(
        sealed.as_slice(),
        TEST_PROTOCOL_ID,
        expire_timestamp,
        nonce.as_slice(),
        key.as_slice(),
    )
    .unwrap();

    // make sure that everything matches the original connect token
    assert_eq!(output_token.client_id(), input_token.client_id());
    assert_eq!(output_token.timeout(), input_token.timeout());
    assert_eq!(
        output_token.client_key().as_slice(),
        input_token.client_key().as_slice()
    );
    assert_eq!(
        output_token.server_key().as_slice(),
        input_token.server_key().as_slice()
    );
    assert_eq!(output_token.user().as_slice(), input_token.user().as_slice());
    assert_eq!(output_token.data().as_slice(), input_token.data().as_slice());
    assert_eq!(output_token.addrs().as_slice(), input_token.addrs().as_slice());
}

#[test]
fn connect_token_wrong_key_fails() {
    let token = PrivateToken::generate(
        7,
        10,
        vec![Addr::v4(1, 2, 3, 4, 5)],
        vec![0u8; USER],
        vec![0u8; DATA],
    );
    let nonce = nonce_gen();
    let key = keygen();
    let wrong = keygen();
    let sealed = token.encrypt(9, 1000, nonce.as_slice(), key.as_slice());
    assert!(PrivateToken::decrypt(sealed.as_slice(), 9, 1000, nonce.as_slice(), wrong.as_slice())
        .is_err());
    // a mismatched protocol or expiry in the bound data also fails
    assert!(PrivateToken::decrypt(sealed.as_slice(), 8, 1000, nonce.as_slice(), key.as_slice())
        .is_err());
    assert!(PrivateToken::decrypt(sealed.as_slice(), 9, 1001, nonce.as_slice(), key.as_slice())
        .is_err());
    // the right key, protocol and expiry still open it
    assert!(PrivateToken::decrypt(sealed.as_slice(), 9, 1000, nonce.as_slice(), key.as_slice())
        .is_ok());
}

#[test]
fn private_token_serialized_round_trip() {
    let addrs = vec![
        Addr::v4(127, 0, 0, 1, 40000),
        Addr { v6: true, ip_lo: 0x1234, ip_hi: 0x99, port: 443 },
    ];
    let token = PrivateToken::generate(
        0xDEAD_BEEF,
        77,
        addrs.clone(),
        vec![3u8; USER],
        vec![4u8; DATA],
    );
    let bytes = token.write();
    let back = PrivateToken::read(bytes.as_slice()).unwrap();
    assert_eq!(back.client_id(), 0xDEAD_BEEF);
    assert_eq!(back.timeout(), 77);
    assert_eq!(back.addrs().as_slice(), addrs.as_slice());
    assert_eq!(back.client_key().as_slice(), token.client_key().as_slice());
    assert_eq!(back.server_key().as_slice(), token.server_key().as_slice());
}

#[test]
fn private_token_read_rejects_bad_sizes() {
    assert!(PrivateToken::read(&[]).is_none());
    assert!(PrivateToken::read(&[0u8; 100]).is_none());
    // the right size but an impossible address count
    let mut plain = vec![0u8; PRIVATE_PLAIN];
    plain[12] = 0;
    assert!(PrivateToken::read(plain.as_slice()).is_none());
    plain[12] = 9;
    assert!(PrivateToken::read(plain.as_slice()).is_none());
}

#[test]
fn challenge_token_round_trip() {
    let key = keygen();
    let user: Vec<u8> = (0..USER).map(|i| (255 - i) as u8).collect();
    let cookie = ChallengeToken::new(0xAA55, user.clone());
    let packet = cookie.encode_packet(5, key.as_slice());
    let back = ChallengeToken::decode_packet(packet.as_slice(), key.as_slice()).unwrap();
    assert_eq!(back.client_id(), 0xAA55);
    assert_eq!(back.user().as_slice(), user.as_slice());

    // the wrong key never opens it
    let wrong = keygen();
    assert!(ChallengeToken::decode_packet(packet.as_slice(), wrong.as_slice()).is_err());
    // nor does a truncated packet
    assert!(ChallengeToken::decode_packet(&packet.as_slice()[..packet.len() - 1], key.as_slice())
        .is_err());
}
