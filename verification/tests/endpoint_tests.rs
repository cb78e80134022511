//! End-to-end drives of client and server: expiry, handshake, replay,
//! idle timeout, denial, single binding.

use oni_net::addr::Addr;
use oni_net::client::{Client, Error, State};
use oni_net::crypto::keygen;
use oni_net::server::Server;
use oni_net::simulator::Simulator;
use oni_net::token::{PublicToken, DATA, USER};

const PROTOCOL: u64 = 0x1122334455667788;

fn make_token(
    private_key: &[u8],
    expire_secs: u64,
    timeout_secs: u32,
    now_secs: u64,
    addrs: Vec<Addr>,
) -> PublicToken {
    let data: Vec<u8> = (0..DATA).map(|i| (i * 13) as u8).collect();
    let user: Vec<u8> = (0..USER).map(|i| (i * 17) as u8).collect();
    PublicToken::generate(
        data,
        user,
        expire_secs,
        timeout_secs,
        666,
        PROTOCOL,
        private_key,
        addrs,
        now_secs,
    )
}

#[test]
fn error_token_expired() {
    let client_addr = Addr::v4(127, 0, 0, 1, 41000);
    let server_addr = Addr::v4(127, 0, 0, 2, 40000);
    let private_key = keygen();

    // a token that dies the instant it is minted
    let token = make_token(private_key.as_slice(), 0, 0, 1000, vec![client_addr, server_addr]);

    let mut client = Client::new(PROTOCOL, &token, 5000);
    let _ = client_addr;
    client.connect(server_addr);
    client.update(5000);

    assert_eq!(client.state(), State::Failed(Error::ConnectTokenExpired));
}

/// Drives one round: client tick, server tick, and everything in flight
/// both ways through the simulator.
fn pump(
    sim: &mut Simulator,
    client: &mut Client,
    client_addr: Addr,
    server: &mut Server,
    server_addr: Addr,
    now_ms: u64,
    now_secs: u64,
) {
    sim.advance(now_ms);
    if let Some(pkt) = client.update(now_ms) {
        sim.send(client_addr, server_addr, pkt);
    }
    for (to, pkt) in server.update(now_ms, now_secs) {
        sim.send(server_addr, to, pkt);
    }
    sim.advance(now_ms);
    while let Some((from, pkt)) = sim.recv_from(server_addr) {
        for (to, out) in server.process_datagram(from, pkt.as_slice()) {
            sim.send(server_addr, to, out);
        }
    }
    sim.advance(now_ms);
    while let Some((_, pkt)) = sim.recv_from(client_addr) {
        if let Some(echo) = client.process_packet(pkt.as_slice()) {
            sim.send(client_addr, server_addr, echo);
        }
    }
}

fn establish() -> (Simulator, Client, Addr, Server, Addr, u64) {
    let client_addr = Addr::v4(127, 0, 0, 1, 41000);
    let server_addr = Addr::v4(127, 0, 0, 2, 40000);
    let private_key = keygen();
    let now_secs: u64 = 1_700_000_000;
    let token = make_token(private_key.as_slice(), 30, 5, now_secs, vec![client_addr, server_addr]);

    let mut sim = Simulator::new();
    let mut client = Client::new(PROTOCOL, &token, 0);
    client.connect(server_addr);
    let mut server = Server::new(PROTOCOL, private_key, 4, 0, now_secs);

    let mut now_ms: u64 = 0;
    for _ in 0..10 {
        now_ms += 30;
        pump(&mut sim, &mut client, client_addr, &mut server, server_addr, now_ms, now_secs);
        if client.state() == State::Connected {
            break;
        }
    }
    (sim, client, client_addr, server, server_addr, now_ms)
}

#[test]
fn happy_handshake() {
    let (mut sim, mut client, client_addr, mut server, server_addr, now_ms) = establish();

    // within 300 ms of simulated ticks the client is connected and the
    // server reports exactly one connection
    assert!(now_ms <= 300);
    assert_eq!(client.state(), State::Connected);
    assert_eq!(server.connected(), 1);

    // a payload sent by the client reaches the server byte for byte
    let wire = client.send(&[0xAB]);
    sim.send(client_addr, server_addr, wire);
    sim.advance(now_ms);
    let (from, pkt) = sim.recv_from(server_addr).unwrap();
    let outs = server.process_datagram(from, pkt.as_slice());
    assert!(outs.is_empty());
    let (peer, payload) = server.recv().unwrap();
    assert_eq!(peer, client_addr);
    assert_eq!(payload, vec![0xAB]);
    assert!(server.recv().is_none());
}

#[test]
fn replayed_payload_is_dropped() {
    let (_sim, mut client, client_addr, mut server, _server_addr, _now) = establish();
    assert_eq!(client.state(), State::Connected);

    // capture one payload datagram and deliver it twice
    let wire = client.send(&[1, 2, 3]);
    server.process_datagram(client_addr, wire.as_slice());
    let (_, first) = server.recv().unwrap();
    assert_eq!(first, vec![1, 2, 3]);

    server.process_datagram(client_addr, wire.as_slice());
    assert!(server.recv().is_none(), "a replayed datagram must not reach the application");
}

#[test]
fn idle_timeout_disconnects_both() {
    let client_addr = Addr::v4(127, 0, 0, 1, 41000);
    let server_addr = Addr::v4(127, 0, 0, 2, 40000);
    let private_key = keygen();
    let now_secs: u64 = 1_700_000_000;
    // a one-second connection timeout
    let token = make_token(private_key.as_slice(), 3600, 1, now_secs, vec![client_addr, server_addr]);

    let mut sim = Simulator::new();
    let mut client = Client::new(PROTOCOL, &token, 0);
    client.connect(server_addr);
    let mut server = Server::new(PROTOCOL, private_key, 4, 0, now_secs);

    let mut now_ms: u64 = 0;
    for _ in 0..10 {
        now_ms += 30;
        pump(&mut sim, &mut client, client_addr, &mut server, server_addr, now_ms, now_secs);
        if client.state() == State::Connected {
            break;
        }
    }
    assert_eq!(client.state(), State::Connected);
    assert_eq!(server.connected(), 1);

    // no traffic either way for 1.1 seconds; the keep-alive path is
    // starved by skipping the pump entirely
    now_ms += 1100;
    client.update(now_ms);
    server.update(now_ms, now_secs);

    assert_eq!(client.state(), State::Failed(Error::ConnectionTimedOut));
    assert_eq!(server.connected(), 0);
}

#[test]
fn denied_when_full() {
    let addr_a = Addr::v4(127, 0, 0, 1, 41000);
    let addr_b = Addr::v4(127, 0, 0, 3, 41001);
    let server_addr = Addr::v4(127, 0, 0, 2, 40000);
    let private_key = keygen();
    let now_secs: u64 = 1_700_000_000;

    // the server has room for exactly one connection
    let mut server = Server::new(PROTOCOL, private_key.clone(), 1, 0, now_secs);
    let mut sim = Simulator::new();

    let token_a = make_token(private_key.as_slice(), 30, 5, now_secs, vec![addr_a, server_addr]);
    let mut client_a = Client::new(PROTOCOL, &token_a, 0);
    client_a.connect(server_addr);

    let mut now_ms: u64 = 0;
    for _ in 0..10 {
        now_ms += 30;
        pump(&mut sim, &mut client_a, addr_a, &mut server, server_addr, now_ms, now_secs);
        if client_a.state() == State::Connected {
            break;
        }
    }
    assert_eq!(client_a.state(), State::Connected);
    assert_eq!(server.connected(), 1);

    // a second, well-formed request finds the table full: the server
    // answers with an encrypted denial and the client fails with Denied
    let token_b = make_token(private_key.as_slice(), 30, 5, now_secs, vec![addr_b, server_addr]);
    let mut client_b = Client::new(PROTOCOL, &token_b, now_ms);
    client_b.connect(server_addr);

    let request = client_b.update(now_ms + 200).expect("the request is due");
    let outs = server.process_datagram(addr_b, request.as_slice());
    assert_eq!(outs.len(), 1);
    assert_eq!(outs[0].0, addr_b);
    client_b.process_packet(outs[0].1.as_slice());
    assert_eq!(client_b.state(), State::Failed(Error::ConnectionDenied));
    assert_eq!(server.connected(), 1);
}

#[test]
fn token_single_binding() {
    let addr_a = Addr::v4(127, 0, 0, 1, 41000);
    let addr_b = Addr::v4(127, 0, 0, 3, 41001);
    let server_addr = Addr::v4(127, 0, 0, 2, 40000);
    let private_key = keygen();
    let now_secs: u64 = 1_700_000_000;

    let mut server = Server::new(PROTOCOL, private_key.clone(), 8, 0, now_secs);
    // both sources are in the token's address list, so only the token
    // history can tell them apart
    let data: Vec<u8> = vec![0u8; DATA];
    let user: Vec<u8> = vec![0u8; USER];
    let token = PublicToken::generate(
        data,
        user,
        30,
        5,
        666,
        PROTOCOL,
        private_key.as_slice(),
        vec![addr_a, addr_b, server_addr],
        now_secs,
    );
    let mut client = Client::new(PROTOCOL, &token, 0);
    client.connect(server_addr);
    let request = client.update(100).expect("the request is due");

    // the same request from the first address is answered
    let outs = server.process_datagram(addr_a, request.as_slice());
    assert_eq!(outs.len(), 1);

    // the identical bytes from a second address are refused outright
    let outs = server.process_datagram(addr_b, request.as_slice());
    assert!(outs.is_empty());

    // while the first address may ask again
    let outs = server.process_datagram(addr_a, request.as_slice());
    assert_eq!(outs.len(), 1);
}

#[test]
fn close_burst_and_disconnect() {
    let (_sim, mut client, client_addr, mut server, _saddr, _now) = establish();
    assert_eq!(client.state(), State::Connected);

    // a graceful close sends the fixed burst and parks the client
    let burst = client.close();
    assert_eq!(burst.len(), 10);
    assert_eq!(client.state(), State::Disconnected);

    // the first close datagram tears the server connection down
    server.process_datagram(client_addr, burst[0].as_slice());
    assert_eq!(server.connected(), 0);
}

#[test]
fn request_from_unlisted_address_is_ignored() {
    let addr_a = Addr::v4(127, 0, 0, 1, 41000);
    let intruder = Addr::v4(9, 9, 9, 9, 999);
    let server_addr = Addr::v4(127, 0, 0, 2, 40000);
    let private_key = keygen();
    let now_secs: u64 = 1_700_000_000;

    let mut server = Server::new(PROTOCOL, private_key.clone(), 8, 0, now_secs);
    let token = make_token(private_key.as_slice(), 30, 5, now_secs, vec![addr_a, server_addr]);
    let mut client = Client::new(PROTOCOL, &token, 0);
    client.connect(server_addr);
    let request = client.update(100).expect("the request is due");

    // the sender is not in the token's address list: silence
    let outs = server.process_datagram(intruder, request.as_slice());
    assert!(outs.is_empty());
    let _ = addr_a;
}

#[test]
fn request_phase_times_out() {
    let client_addr = Addr::v4(127, 0, 0, 1, 41000);
    let server_addr = Addr::v4(127, 0, 0, 2, 40000);
    let private_key = keygen();
    // a five-second connection timeout, a long-lived token
    let token = make_token(private_key.as_slice(), 3600, 5, 0, vec![client_addr, server_addr]);

    let mut client = Client::new(PROTOCOL, &token, 0);
    client.connect(server_addr);
    // nobody ever answers the requests
    assert!(client.update(100).is_some());
    client.update(5_000);
    assert_eq!(client.state(), State::Failed(Error::ConnectionRequestTimedOut));
}

#[test]
fn response_phase_times_out() {
    let client_addr = Addr::v4(127, 0, 0, 1, 41000);
    let server_addr = Addr::v4(127, 0, 0, 2, 40000);
    let private_key = keygen();
    let now_secs: u64 = 1_700_000_000;
    let token = make_token(private_key.as_slice(), 3600, 5, now_secs, vec![client_addr, server_addr]);

    let mut client = Client::new(PROTOCOL, &token, 0);
    client.connect(server_addr);
    let mut server = Server::new(PROTOCOL, private_key, 4, 0, now_secs);

    // one exchange: the server's challenge moves the client into the
    // response phase, then the server goes silent
    let request = client.update(100).expect("the request is due");
    let outs = server.process_datagram(client_addr, request.as_slice());
    assert_eq!(outs.len(), 1);
    let _echo = client.process_packet(outs[0].1.as_slice());
    client.update(6_000);
    assert_eq!(client.state(), State::Failed(Error::ConnectionResponseTimedOut));
}

#[test]
fn server_sends_and_disconnects() {
    let (_sim, mut client, client_addr, mut server, _saddr, _now) = establish();
    assert_eq!(client.state(), State::Connected);

    // a payload from the server reaches the client byte for byte
    let wire = server.send(client_addr, &[0xCD, 0xEF]).expect("the peer is connected");
    client.process_packet(wire.as_slice());
    assert_eq!(client.recv().unwrap(), vec![0xCD, 0xEF]);
    assert!(client.recv().is_none());

    // a server-side disconnect empties the table and the close burst
    // parks the client
    let burst = server.disconnect(client_addr);
    assert_eq!(server.connected(), 0);
    assert!(!burst.is_empty());
    client.process_packet(burst[0].as_slice());
    assert_eq!(client.state(), State::Disconnected);

    // sending to a gone peer yields nothing
    assert!(server.send(client_addr, &[1]).is_none());
}

#[test]
fn server_keeps_idle_connections_alive() {
    let (_sim, mut client, client_addr, mut server, _saddr, now_ms) = establish();
    assert_eq!(client.state(), State::Connected);

    // no client traffic for two send periods, well under the timeout: the
    // server tick owes the connection a keep-alive
    let later = now_ms + 250;
    let outs = server.update(later, 1_700_000_000);
    assert!(!outs.is_empty());
    assert!(outs.iter().all(|(to, _)| *to == client_addr));

    // the keep-alive refreshes the client, which stays connected
    client.update(later);
    client.process_packet(outs[0].1.as_slice());
    assert_eq!(client.state(), State::Connected);
    assert!(client.recv().is_none(), "a keep-alive carries no payload");
}
