//! The client state machine.
//!
//! A client is driven by `update(now)` ticks and fed inbound datagrams
//! through `process_packet`; it never touches a socket itself. What it wants
//! sent comes back as byte buffers: the periodic Request, Response or
//! keep-alive from `update`, the immediate Response echo from
//! `process_packet`, and the burst of Close packets from `close`.
//!
//! The clock is milliseconds, monotone, supplied by the caller.

use vstd::prelude::*;
use crate::addr::Addr;
use crate::protection::{rp_admits, rp_fresh, rp_step, rp_wf, ReplayProtection, ReplayView,
    INVALID_SEQUENCE, REPLAY_PROTECTION_BUFFER_SIZE};
use crate::bytes::le_value;
use crate::protocol::{payload_header_len, spec_encode_close, spec_encode_handshake,
    spec_encode_payload, request_bytes, spec_sequence_bytes, Packet, Request, RequestView,
    MAX_PAYLOAD, NUM_DISCONNECT_PACKETS, PACKET_SEND_DELTA};
use crate::token::{PublicToken, CHALLENGE_LEN, PRIVATE_LEN};

verus! {

/// Which half of the handshake the client is still sending.
#[derive(Debug, Clone, Copy, PartialEq, Eq, Structural)]
pub enum ConnectingState {
    SendingRequest,
    SendingResponse,
}

/// Why a connection attempt or a connection died.
#[derive(Debug, Clone, Copy, PartialEq, Eq, Structural)]
pub enum Error {
    ConnectTokenExpired,
    InvalidConnectToken,
    ConnectionTimedOut,
    ConnectionResponseTimedOut,
    ConnectionRequestTimedOut,
    ConnectionDenied,
}

/// Where the client stands.
#[derive(Debug, Clone, Copy, PartialEq, Eq, Structural)]
pub enum State {
    Disconnected,
    Connecting(ConnectingState),
    Connected,
    Failed(Error),
}

/// The mathematical content of a client.
pub struct ClientView {
    pub state: State,
    pub protocol: u64,
    pub expire_timestamp: u64,
    pub expire: u64,
    pub timeout: u64,
    pub nonce: Seq<u8>,
    pub token: Seq<u8>,
    pub time: u64,
    pub start_time: u64,
    pub last_send: u64,
    pub last_recv: u64,
    pub send_key: Seq<u8>,
    pub recv_key: Seq<u8>,
    pub sequence: u64,
    pub response: Seq<u8>,
    pub server_addr: Addr,
    pub replay: ReplayView,
    pub queue: Seq<Seq<u8>>,
}

/// A client whose parts have their wire sizes and whose window is sound.
pub open spec fn client_wf(v: ClientView) -> bool {
    &&& v.nonce.len() == 24
    &&& v.token.len() == PRIVATE_LEN
    &&& v.send_key.len() == 32
    &&& v.recv_key.len() == 32
    &&& rp_wf(v.replay)
    &&& v.time >= v.start_time
    &&& v.time >= v.last_recv
    &&& v.time >= v.last_send
    &&& v.response.len() <= 8 + CHALLENGE_LEN
}

/// Whether `b` is a handshake datagram for this client: a challenge of the
/// right size sealed under its receive key at sequence `s`.
pub open spec fn handshake_wire_hyp(o: ClientView, b: Seq<u8>, s: u64, m: Seq<u8>) -> bool {
    &&& m.len() == 8 + CHALLENGE_LEN
    &&& b.len() == 1 + spec_sequence_bytes(s) + m.len() + 16
    &&& b == spec_encode_handshake(o.protocol, s, o.recv_key, m)
}

/// Whether `b` is a payload datagram for this client carrying `m` at
/// sequence `s`.
pub open spec fn payload_wire_hyp(o: ClientView, b: Seq<u8>, s: u64, m: Seq<u8>) -> bool {
    &&& s != INVALID_SEQUENCE
    &&& b.len() == payload_header_len(s) + m.len() + 16
    &&& b == spec_encode_payload(o.protocol, s, o.recv_key, m)
}

/// Whether `b` is an empty close datagram for this client at sequence `s`.
pub open spec fn close_wire_hyp(o: ClientView, b: Seq<u8>, s: u64) -> bool {
    &&& s != INVALID_SEQUENCE
    &&& b.len() == 1 + spec_sequence_bytes(s) + 16
    &&& b == spec_encode_close(o.protocol, s, o.recv_key, Seq::<u8>::empty())
}

/// A connection-oriented encrypted endpoint, client side.
pub struct Client {
    state: State,
    protocol: u64,
    expire_timestamp: u64,
    expire: u64,
    timeout: u64,
    nonce: Vec<u8>,
    token: Vec<u8>,
    time: u64,
    start_time: u64,
    last_send: u64,
    last_recv: u64,
    send_key: Vec<u8>,
    recv_key: Vec<u8>,
    sequence: u64,
    response: Vec<u8>,
    server_addr: Addr,
    replay_protection: ReplayProtection,
    recv_queue: Vec<Vec<u8>>,
}

impl View for Client {
    type V = ClientView;

    closed spec fn view(&self) -> ClientView {
        ClientView {
            state: self.state,
            protocol: self.protocol,
            expire_timestamp: self.expire_timestamp,
            expire: self.expire,
            timeout: self.timeout,
            nonce: self.nonce@,
            token: self.token@,
            time: self.time,
            start_time: self.start_time,
            last_send: self.last_send,
            last_recv: self.last_recv,
            send_key: self.send_key@,
            recv_key: self.recv_key@,
            sequence: self.sequence,
            response: self.response@,
            server_addr: self.server_addr,
            replay: self.replay_protection@,
            queue: self.recv_queue@.map_values(|q: Vec<u8>| q@),
        }
    }
}

impl Client {
    /// A disconnected client holding everything the token grants it. The
    /// token's life span and timeout, given in seconds, become milliseconds
    /// of this client's clock, saturating rather than overflowing.
    pub fn new(protocol: u64, token: &PublicToken, now: u64) -> (r: Client)
        requires
            token.wf(),
            token.spec_expire() >= token.spec_create(),
        ensures
            client_wf(r@),
            r@.state == State::Disconnected,
            r@.protocol == protocol,
            r@.expire_timestamp == token.spec_expire(),
            r@.expire == if (token.spec_expire() - token.spec_create()) * 1000 <= u64::MAX {
                ((token.spec_expire() - token.spec_create()) * 1000) as u64
            } else {
                u64::MAX
            },
            r@.timeout == token.spec_timeout() * 1000,
            r@.nonce == token.spec_nonce(),
            r@.token == token.spec_token(),
            r@.time == now,
            r@.start_time == now,
            r@.last_recv == now,
            r@.last_send == if now >= 1000 {
                (now - 1000) as u64
            } else {
                0u64
            },
            r@.send_key == token.spec_client_key(),
            r@.recv_key == token.spec_server_key(),
            r@.sequence == 0,
            r@.queue.len() == 0,
            r@.replay == rp_fresh(REPLAY_PROTECTION_BUFFER_SIZE as nat),
    {
        let delta = token.expire_timestamp() - token.create_timestamp();
        let expire = match delta.checked_mul(1000) {
            Some(v) => v,
            None => u64::MAX,
        };
        let last_send = if now >= 1000 {
            now - 1000
        } else {
            0
        };
        let r = Client {
            state: State::Disconnected,
            protocol,
            expire_timestamp: token.expire_timestamp(),
            expire,
            timeout: (token.timeout_seconds() as u64) * 1000,
            nonce: vstd::slice::slice_to_vec(token.nonce().as_slice()),
            token: vstd::slice::slice_to_vec(token.token().as_slice()),
            time: now,
            start_time: now,
            last_send,
            last_recv: now,
            send_key: vstd::slice::slice_to_vec(token.client_key().as_slice()),
            recv_key: vstd::slice::slice_to_vec(token.server_key().as_slice()),
            sequence: 0,
            response: Vec::new(),
            server_addr: Addr { v6: false, ip_lo: 0, ip_hi: 0, port: 0 },
            replay_protection: ReplayProtection::new(REPLAY_PROTECTION_BUFFER_SIZE),
            recv_queue: Vec::new(),
        };
        proof {
            assert(r@.queue =~= Seq::<Seq<u8>>::empty());
        }
        r
    }

    /// Where the client stands.
    pub fn state(&self) -> (r: State)
        ensures
            r == self@.state,
    {
        self.state
    }

    /// Picks the server and starts sending Requests on the next tick.
    pub fn connect(&mut self, addr: Addr)
        ensures
            final(self)@ == (ClientView {
                state: State::Connecting(ConnectingState::SendingRequest),
                server_addr: addr,
                ..old(self)@
            }),
    {
        self.server_addr = addr;
        self.state = State::Connecting(ConnectingState::SendingRequest);
    }

    /// The server picked by `connect`.
    pub fn server_addr(&self) -> (r: Addr)
        ensures
            r == self@.server_addr,
    {
        self.server_addr
    }

    /// Hands out the oldest received payload, if one is queued.
    pub fn recv(&mut self) -> (r: Option<Vec<u8>>)
        ensures
            r is Some <==> old(self)@.queue.len() > 0,
            r is Some ==> r.unwrap()@ == old(self)@.queue[0] && final(self)@ == (ClientView {
                queue: old(self)@.queue.drop_first(),
                ..old(self)@
            }),
            r is None ==> final(self)@ == old(self)@,
    {
        if self.recv_queue.len() == 0 {
            return None;
        }
        let v = self.recv_queue.remove(0);
        proof {
            assert(self@.queue =~= old(self)@.queue.drop_first());
        }
        Some(v)
    }

    /// Seals `m` as the next payload packet. The caller sends the bytes.
    pub fn send(&mut self, m: &[u8]) -> (r: Vec<u8>)
        requires
            client_wf(old(self)@),
            m@.len() <= MAX_PAYLOAD,
            old(self)@.sequence < u64::MAX,
        ensures
            client_wf(final(self)@),
            r@ == spec_encode_payload(
                old(self)@.protocol,
                old(self)@.sequence,
                old(self)@.send_key,
                m@,
            ),
            r@.len() == payload_header_len(old(self)@.sequence) + m@.len() + 16,
            final(self)@ == (ClientView {
                sequence: (old(self)@.sequence + 1) as u64,
                last_send: old(self)@.time,
                ..old(self)@
            }),
    {
        let seq = self.sequence;
        self.sequence = self.sequence + 1;
        let out = Packet::encode_payload(self.protocol, seq, self.send_key.as_slice(), m);
        self.last_send = self.time;
        out
    }

    /// Sends `NUM_DISCONNECT_PACKETS` Close packets, best effort, and goes
    /// to `Disconnected`.
    pub fn close(&mut self) -> (r: Vec<Vec<u8>>)
        requires
            client_wf(old(self)@),
            old(self)@.sequence + NUM_DISCONNECT_PACKETS <= u64::MAX,
        ensures
            client_wf(final(self)@),
            r@.len() == NUM_DISCONNECT_PACKETS,
            forall|i: int|
                0 <= i < r@.len() ==> (#[trigger] r@[i])@ == spec_encode_close(
                    old(self)@.protocol,
                    (old(self)@.sequence + i) as u64,
                    old(self)@.send_key,
                    Seq::<u8>::empty(),
                ),
            final(self)@ == (ClientView {
                state: State::Disconnected,
                sequence: (old(self)@.sequence + NUM_DISCONNECT_PACKETS) as u64,
                ..old(self)@
            }),
    {
        let mut out: Vec<Vec<u8>> = Vec::new();
        let mut i: usize = 0;
        while i < NUM_DISCONNECT_PACKETS
            invariant
                i <= NUM_DISCONNECT_PACKETS,
                self.sequence == old(self)@.sequence + i,
                old(self)@.sequence + NUM_DISCONNECT_PACKETS <= u64::MAX,
                self@ == (ClientView { sequence: self.sequence, ..old(self)@ }),
                client_wf(old(self)@),
                out@.len() == i,
                forall|j: int|
                    0 <= j < i ==> (#[trigger] out@[j])@ == spec_encode_close(
                        old(self)@.protocol,
                        (old(self)@.sequence + j) as u64,
                        old(self)@.send_key,
                        Seq::<u8>::empty(),
                    ),
            decreases NUM_DISCONNECT_PACKETS - i,
        {
            let seq = self.sequence;
            self.sequence = self.sequence + 1;
            let p = Packet::encode_close(self.protocol, seq, self.send_key.as_slice());
            out.push(p);
            i = i + 1;
        }
        self.state = State::Disconnected;
        out
    }

    /// The Request datagram this client presents: its stored sealed token
    /// under the fixed plaintext header.
    fn request_packet(&self) -> (r: Vec<u8>)
        requires
            client_wf(self@),
        ensures
            r@ == request_bytes(
                RequestView {
                    prefix: 1,
                    version: crate::protocol::spec_version(),
                    protocol: self@.protocol,
                    expire: self@.expire_timestamp,
                    nonce: self@.nonce,
                    token: self@.token,
                },
            ),
    {
        let req = Request::new(
            self.protocol,
            self.expire_timestamp,
            vstd::slice::slice_to_vec(self.nonce.as_slice()),
            vstd::slice::slice_to_vec(self.token.as_slice()),
        );
        req.write()
    }

    /// The Response datagram: the stored challenge echoed back under the
    /// client's send key, consuming one sequence number.
    fn send_response(&mut self) -> (r: Vec<u8>)
        requires
            client_wf(old(self)@),
            old(self)@.sequence < u64::MAX,
        ensures
            client_wf(final(self)@),
            r@ == spec_encode_handshake(
                old(self)@.protocol,
                old(self)@.sequence,
                old(self)@.send_key,
                old(self)@.response,
            ),
            final(self)@ == (ClientView {
                sequence: (old(self)@.sequence + 1) as u64,
                last_send: old(self)@.time,
                ..old(self)@
            }),
    {
        let seq = self.sequence;
        self.sequence = self.sequence + 1;
        let out = Packet::encode_handshake(
            self.protocol,
            seq,
            self.send_key.as_slice(),
            self.response.as_slice(),
        );
        self.last_send = self.time;
        out
    }

    /// Takes one inbound datagram. A handshake while requesting stores the
    /// challenge and answers at once; a payload while responding or
    /// connected passes replay protection, refreshes the connection and
    /// queues its bytes; an empty close denies a connecting client or
    /// disconnects a connected one. Everything else is dropped in silence.
    pub fn process_packet(&mut self, buf: &[u8]) -> (r: Option<Vec<u8>>)
        requires
            client_wf(old(self)@),
            old(self)@.sequence < u64::MAX,
        ensures
            client_wf(final(self)@),
            ({
                let o = old(self)@;
                let f = final(self)@;
                &&& f.protocol == o.protocol
                &&& f.expire_timestamp == o.expire_timestamp
                &&& f.expire == o.expire
                &&& f.timeout == o.timeout
                &&& f.nonce == o.nonce
                &&& f.token == o.token
                &&& f.time == o.time
                &&& f.start_time == o.start_time
                &&& f.send_key == o.send_key
                &&& f.recv_key == o.recv_key
                &&& f.server_addr == o.server_addr
            }),
            (old(self)@.state == State::Disconnected || old(self)@.state matches State::Failed(_))
                ==> final(self)@ == old(self)@ && r is None,
            crate::protocol::spec_decode_is_invalid(buf@) ==> final(self)@ == old(self)@ && r
                is None,
            ({
                let o = old(self)@.state;
                let f = final(self)@.state;
                ||| f == o
                ||| (o == State::Connecting(ConnectingState::SendingRequest) && f
                    == State::Connecting(ConnectingState::SendingResponse))
                ||| ((o == State::Connected || o == State::Connecting(
                    ConnectingState::SendingResponse,
                )) && f == State::Connected)
                ||| (o == State::Connected && f == State::Disconnected)
                ||| (o matches State::Connecting(_) && f == State::Failed(
                    Error::ConnectionDenied,
                ))
            }),
            forall|s: u64, m: Seq<u8>|
                old(self)@.state == State::Connecting(ConnectingState::SendingRequest)
                    && #[trigger] handshake_wire_hyp(old(self)@, buf@, s, m) ==> final(self)@
                    == (ClientView {
                    state: State::Connecting(ConnectingState::SendingResponse),
                    response: m,
                    sequence: (old(self)@.sequence + 1) as u64,
                    last_send: old(self)@.time,
                    ..old(self)@
                }) && r is Some && r.unwrap()@ == spec_encode_handshake(
                    old(self)@.protocol,
                    old(self)@.sequence,
                    old(self)@.send_key,
                    m,
                ),
            forall|s: u64, m: Seq<u8>|
                (old(self)@.state == State::Connected || old(self)@.state == State::Connecting(
                    ConnectingState::SendingResponse,
                )) && #[trigger] payload_wire_hyp(old(self)@, buf@, s, m) ==> r is None && (if rp_admits(
                    old(self)@.replay,
                    s,
                ) {
                    final(self)@ == (ClientView {
                        state: State::Connected,
                        replay: rp_step(old(self)@.replay, s),
                        last_recv: old(self)@.time,
                        queue: if m.len() > 0 {
                            old(self)@.queue.push(m)
                        } else {
                            old(self)@.queue
                        },
                        ..old(self)@
                    })
                } else {
                    final(self)@ == old(self)@
                }),
            forall|s: u64|
                #[trigger] close_wire_hyp(old(self)@, buf@, s) && rp_admits(old(self)@.replay, s)
                    ==> r is None && (old(self)@.state == State::Connected ==> final(self)@
                    == (ClientView {
                    state: State::Disconnected,
                    replay: rp_step(old(self)@.replay, s),
                    ..old(self)@
                })) && (old(self)@.state matches State::Connecting(_) ==> final(self)@
                    == (ClientView {
                    state: State::Failed(Error::ConnectionDenied),
                    replay: rp_step(old(self)@.replay, s),
                    ..old(self)@
                })),
    {
        proof {
            lemma_client_wire_facts(old(self)@, buf@);
        }
        let p = Packet::decode(buf);
        match p {
            Packet::Payload { seq, buf: ct, tag } => {
                let in_state = match self.state {
                    State::Connected => true,
                    State::Connecting(ConnectingState::SendingResponse) => true,
                    _ => false,
                };
                if !in_state {
                    return None;
                }
                if seq == INVALID_SEQUENCE {
                    return None;
                }
                if self.replay_protection.packet_already_received(seq) {
                    return None;
                }
                match Packet::open(
                    self.protocol,
                    ct.as_slice(),
                    seq,
                    0,
                    tag.as_slice(),
                    self.recv_key.as_slice(),
                ) {
                    Some(m) => {
                        self.last_recv = self.time;
                        if m.len() > 0 {
                            let ghost q0 = self.recv_queue@.map_values(|q: Vec<u8>| q@);
                            let ghost mv = m@;
                            self.recv_queue.push(m);
                            proof {
                                assert(self.recv_queue@.map_values(|q: Vec<u8>| q@) =~= q0.push(
                                    mv,
                                ));
                            }
                        }
                        self.state = State::Connected;
                        None
                    },
                    None => None,
                }
            },
            Packet::Handshake { prefix, seq, buf: ct, tag } => {
                if !(self.state == State::Connecting(ConnectingState::SendingRequest)) {
                    return None;
                }
                if ct.len() != 8 + CHALLENGE_LEN {
                    return None;
                }
                match Packet::open(
                    self.protocol,
                    ct.as_slice(),
                    seq,
                    prefix,
                    tag.as_slice(),
                    self.recv_key.as_slice(),
                ) {
                    Some(m) => {
                        self.response = m;
                        self.state = State::Connecting(ConnectingState::SendingResponse);
                        let out = self.send_response();
                        Some(out)
                    },
                    None => None,
                }
            },
            Packet::Close { prefix, seq, buf: ct, tag } => {
                let in_state = match self.state {
                    State::Connected => true,
                    State::Connecting(_) => true,
                    _ => false,
                };
                if !in_state {
                    return None;
                }
                if ct.len() != 0 {
                    return None;
                }
                if seq == INVALID_SEQUENCE {
                    return None;
                }
                if self.replay_protection.packet_already_received(seq) {
                    return None;
                }
                match Packet::open(
                    self.protocol,
                    ct.as_slice(),
                    seq,
                    prefix,
                    tag.as_slice(),
                    self.recv_key.as_slice(),
                ) {
                    Some(_) => {
                        match self.state {
                            State::Connected => {
                                self.state = State::Disconnected;
                            },
                            _ => {
                                self.state = State::Failed(Error::ConnectionDenied);
                            },
                        }
                        None
                    },
                    None => None,
                }
            },
            _ => None,
        }
    }

    /// One tick at `now`: token expiry first, then the connection timeout,
    /// then the state's periodic packet when one is due.
    pub fn update(&mut self, now: u64) -> (r: Option<Vec<u8>>)
        requires
            client_wf(old(self)@),
            now >= old(self)@.time,
            old(self)@.sequence < u64::MAX,
        ensures
            client_wf(final(self)@),
            ({
                let o = old(self)@;
                if o.state == State::Disconnected || o.state matches State::Failed(_) {
                    final(self)@ == o && r is None
                } else if now - o.start_time >= o.expire {
                    final(self)@ == (ClientView {
                        state: State::Failed(Error::ConnectTokenExpired),
                        time: now,
                        ..o
                    }) && r is None
                } else if now - o.last_recv >= o.timeout {
                    final(self)@ == (ClientView {
                        state: State::Failed(
                            match o.state {
                                State::Connected => Error::ConnectionTimedOut,
                                State::Connecting(ConnectingState::SendingRequest) => Error::ConnectionRequestTimedOut,
                                _ => Error::ConnectionResponseTimedOut,
                            },
                        ),
                        time: now,
                        ..o
                    }) && r is None
                } else if now - o.last_send >= PACKET_SEND_DELTA {
                    r is Some && (match o.state {
                        State::Connecting(ConnectingState::SendingRequest) => {
                            &&& r.unwrap()@ == request_bytes(
                                RequestView {
                                    prefix: 1,
                                    version: crate::protocol::spec_version(),
                                    protocol: o.protocol,
                                    expire: o.expire_timestamp,
                                    nonce: o.nonce,
                                    token: o.token,
                                },
                            )
                            &&& final(self)@ == (ClientView { time: now, last_send: now, ..o })
                        },
                        State::Connecting(ConnectingState::SendingResponse) => {
                            &&& r.unwrap()@ == spec_encode_handshake(
                                o.protocol,
                                o.sequence,
                                o.send_key,
                                o.response,
                            )
                            &&& final(self)@ == (ClientView {
                                time: now,
                                last_send: now,
                                sequence: (o.sequence + 1) as u64,
                                ..o
                            })
                        },
                        _ => {
                            &&& r.unwrap()@ == spec_encode_payload(
                                o.protocol,
                                o.sequence,
                                o.send_key,
                                Seq::<u8>::empty(),
                            )
                            &&& final(self)@ == (ClientView {
                                time: now,
                                last_send: now,
                                sequence: (o.sequence + 1) as u64,
                                ..o
                            })
                        },
                    })
                } else {
                    final(self)@ == (ClientView { time: now, ..o }) && r is None
                }
            }),
    {
        match self.state {
            State::Disconnected => {
                return None;
            },
            State::Failed(_) => {
                return None;
            },
            _ => {},
        }
        self.time = now;
        if now - self.start_time >= self.expire {
            self.state = State::Failed(Error::ConnectTokenExpired);
            return None;
        }
        if now - self.last_recv >= self.timeout {
            self.state = State::Failed(
                match self.state {
                    State::Connected => Error::ConnectionTimedOut,
                    State::Connecting(ConnectingState::SendingRequest) => Error::ConnectionRequestTimedOut,
                    _ => Error::ConnectionResponseTimedOut,
                },
            );
            return None;
        }
        if now - self.last_send >= PACKET_SEND_DELTA {
            match self.state {
                State::Connecting(ConnectingState::SendingRequest) => {
                    let out = self.request_packet();
                    self.last_send = now;
                    Some(out)
                },
                State::Connecting(ConnectingState::SendingResponse) => {
                    Some(self.send_response())
                },
                _ => {
                    let m: Vec<u8> = Vec::new();
                    let seq = self.sequence;
                    self.sequence = self.sequence + 1;
                    let out = Packet::encode_payload(
                        self.protocol,
                        seq,
                        self.send_key.as_slice(),
                        m.as_slice(),
                    );
                    self.last_send = now;
                    Some(out)
                },
            }
        } else {
            None
        }
    }
}

/// What the three wire hypotheses force of a buffer: how it decodes, and
/// that its sealed part is exactly the named seal.
proof fn lemma_client_wire_facts(o: ClientView, b: Seq<u8>)
    ensures
        forall|s: u64, m: Seq<u8>|
            #[trigger] payload_wire_hyp(o, b, s, m) ==> ({
                let hl = payload_header_len(s);
                &&& b.len() >= crate::protocol::MIN_PACKET_BYTES
                &&& b[0] % 2 == 0
                &&& crate::protocol::spec_decode_sequence(b) == Some((s, hl))
                &&& b.len() >= hl + 16
                &&& b.subrange(hl, b.len() - 16) + b.subrange(b.len() - 16, b.len() as int)
                    == crate::protocol::spec_seal(o.protocol, s, 0, o.recv_key, m)
                &&& b.subrange(hl, b.len() - 16).len() == m.len()
            }),
        forall|s: u64, m: Seq<u8>|
            #[trigger] handshake_wire_hyp(o, b, s, m) ==> ({
                let n = spec_sequence_bytes(s) as int;
                &&& b.len() >= crate::protocol::MIN_PACKET_BYTES
                &&& b[0] % 2 == 1
                &&& b[0] < 0x40
                &&& (b[0] / 0x20) % 2 == 1
                &&& (b[0] / 0x10) % 2 == 0
                &&& (b[0] / 2) % 8 + 1 == n
                &&& b.len() >= 1 + n + 16
                &&& le_value(b.subrange(1, 1 + n)) == s
                &&& b.subrange(1 + n, b.len() - 16) + b.subrange(b.len() - 16, b.len() as int)
                    == crate::protocol::spec_seal(o.protocol, s, b[0], o.recv_key, m)
                &&& b.subrange(1 + n, b.len() - 16).len() == m.len()
            }),
        forall|s: u64|
            #[trigger] close_wire_hyp(o, b, s) ==> ({
                let n = spec_sequence_bytes(s) as int;
                &&& b.len() >= crate::protocol::MIN_PACKET_BYTES
                &&& b[0] % 2 == 1
                &&& b[0] < 0x40
                &&& (b[0] / 0x20) % 2 == 1
                &&& (b[0] / 0x10) % 2 == 1
                &&& (b[0] / 2) % 8 + 1 == n
                &&& b.len() >= 1 + n + 16
                &&& le_value(b.subrange(1, 1 + n)) == s
                &&& b.subrange(1 + n, b.len() - 16) + b.subrange(b.len() - 16, b.len() as int)
                    == crate::protocol::spec_seal(
                    o.protocol,
                    s,
                    b[0],
                    o.recv_key,
                    Seq::<u8>::empty(),
                )
                &&& b.subrange(1 + n, b.len() - 16).len() == 0
            }),
{
    assert forall|s: u64, m: Seq<u8>| #[trigger] payload_wire_hyp(o, b, s, m) implies ({
        let hl = payload_header_len(s);
        &&& b.len() >= crate::protocol::MIN_PACKET_BYTES
        &&& b[0] % 2 == 0
        &&& crate::protocol::spec_decode_sequence(b) == Some((s, hl))
        &&& b.len() >= hl + 16
        &&& b.subrange(hl, b.len() - 16) + b.subrange(b.len() - 16, b.len() as int)
            == crate::protocol::spec_seal(o.protocol, s, 0, o.recv_key, m)
        &&& b.subrange(hl, b.len() - 16).len() == m.len()
    }) by {
        let hl = payload_header_len(s);
        let sl = crate::protocol::spec_seal(o.protocol, s, 0, o.recv_key, m);
        crate::protocol::lemma_payload_header_len_is(s);
        assert(sl.len() == m.len() + 16);
        crate::protocol::lemma_payload_packet_round_trip(o.protocol, s, o.recv_key, m, sl);
        assert(b[0] % 2 == 0) by {
            if b[0] % 2 == 1 {
                assert(crate::protocol::spec_decode_sequence(b) is None);
            }
        }
    }
    assert forall|s: u64, m: Seq<u8>| #[trigger] handshake_wire_hyp(o, b, s, m) implies ({
        let n = spec_sequence_bytes(s) as int;
        &&& b.len() >= crate::protocol::MIN_PACKET_BYTES
        &&& b[0] % 2 == 1
        &&& b[0] < 0x40
        &&& (b[0] / 0x20) % 2 == 1
        &&& (b[0] / 0x10) % 2 == 0
        &&& (b[0] / 2) % 8 + 1 == n
        &&& b.len() >= 1 + n + 16
        &&& le_value(b.subrange(1, 1 + n)) == s
        &&& b.subrange(1 + n, b.len() - 16) + b.subrange(b.len() - 16, b.len() as int)
            == crate::protocol::spec_seal(o.protocol, s, b[0], o.recv_key, m)
        &&& b.subrange(1 + n, b.len() - 16).len() == m.len()
    }) by {
        let n = spec_sequence_bytes(s) as int;
        let sl = crate::protocol::spec_seal(
            o.protocol,
            s,
            crate::protocol::handshake_prefix(s),
            o.recv_key,
            m,
        );
        crate::protocol::lemma_sequence_bytes_bounds(s);
        crate::bytes::lemma_le_bytes_len(s as int, n as nat);
        assert(sl.len() == m.len() + 16);
        crate::protocol::lemma_handshake_packet_round_trip(o.protocol, s, o.recv_key, m, sl);
        assert(b[0] == crate::protocol::handshake_prefix(s));
    }
    assert forall|s: u64| #[trigger] close_wire_hyp(o, b, s) implies ({
        let n = spec_sequence_bytes(s) as int;
        &&& b.len() >= crate::protocol::MIN_PACKET_BYTES
        &&& b[0] % 2 == 1
        &&& b[0] < 0x40
        &&& (b[0] / 0x20) % 2 == 1
        &&& (b[0] / 0x10) % 2 == 1
        &&& (b[0] / 2) % 8 + 1 == n
        &&& b.len() >= 1 + n + 16
        &&& le_value(b.subrange(1, 1 + n)) == s
        &&& b.subrange(1 + n, b.len() - 16) + b.subrange(b.len() - 16, b.len() as int)
            == crate::protocol::spec_seal(o.protocol, s, b[0], o.recv_key, Seq::<u8>::empty())
        &&& b.subrange(1 + n, b.len() - 16).len() == 0
    }) by {
        let n = spec_sequence_bytes(s) as int;
        let sl = crate::protocol::spec_seal(
            o.protocol,
            s,
            crate::protocol::close_prefix(s),
            o.recv_key,
            Seq::<u8>::empty(),
        );
        crate::protocol::lemma_sequence_bytes_bounds(s);
        crate::bytes::lemma_le_bytes_len(s as int, n as nat);
        assert(sl.len() == 16);
        crate::protocol::lemma_close_packet_round_trip(
            o.protocol,
            s,
            o.recv_key,
            Seq::<u8>::empty(),
            sl,
        );
        assert(b[0] == crate::protocol::close_prefix(s));
    }
}

} // verus!
