//! The server state machine.
//!
//! A server listens for Requests, answers valid ones with a sealed
//! challenge, promotes a valid Response into a connection, and then
//! exchanges payloads with replay protection, keep-alive and idle timeout.
//! Admission enforces the token's address list, single binding of token
//! tags, and the connection capacity; a well-formed Request that arrives
//! when the table is full is answered with an encrypted denial.
//!
//! Like the client, the server touches no socket: datagrams come in through
//! `process_datagram` and what it wants sent comes back as `(peer, bytes)`.

use vstd::prelude::*;
use crate::addr::Addr;
use crate::assoc::{assoc_get, assoc_has, assoc_unique, lemma_assoc_absent, lemma_assoc_at_v,
    lemma_assoc_push_fresh, lemma_assoc_remove, lemma_assoc_update};
use crate::encryption_manager::{spec_keys_expired, KeysView, Mapping};
use crate::incoming::Incoming;
use crate::protection::{rp_fresh, rp_wf, ReplayProtection, ReplayView, INVALID_SEQUENCE,
    REPLAY_PROTECTION_BUFFER_SIZE};
use crate::protocol::{payload_header_len, spec_encode_close, spec_encode_handshake,
    spec_encode_payload, spec_parse_request, spec_request_valid, spec_sequence_bytes, Packet,
    MAX_PAYLOAD, MTU, PACKET_SEND_DELTA};
use crate::protection::{rp_admits, rp_step};
use crate::token::{private_bytes, private_wf, xad_bytes, ChallengeTokenView, PrivateToken,
    PrivateTokenView, CHALLENGE_LEN, PRIVATE_LEN};

verus! {

/// The mathematical content of one connection's bookkeeping.
pub struct ConnView {
    pub timeout: u64,
    pub last_send: u64,
    pub last_recv: u64,
    pub replay: ReplayView,
}

/// A connection whose replay window is sound.
pub open spec fn conn_wf(v: ConnView) -> bool {
    rp_wf(v.replay)
}

/// Per-connection timers and replay window; the keys live in the
/// encryption mapping.
pub struct Conn {
    timeout: u64,
    last_send: u64,
    last_recv: u64,
    replay: ReplayProtection,
}

impl View for Conn {
    type V = ConnView;

    closed spec fn view(&self) -> ConnView {
        ConnView {
            timeout: self.timeout,
            last_send: self.last_send,
            last_recv: self.last_recv,
            replay: self.replay@,
        }
    }
}

/// The association form of a connection table.
pub open spec fn conn_entries(s: Seq<(Addr, Conn)>) -> Seq<(Addr, ConnView)> {
    s.map_values(|p: (Addr, Conn)| (p.0, p.1@))
}

/// Whether the tick at `now` owes peer `a` a keep-alive: its connection
/// survives the purge, it has not been sent to for a send period, and its
/// keys are still alive.
pub open spec fn server_keep_alive_due(o: Server, a: Addr, now: u64) -> bool {
    &&& assoc_has(o.conns_view(), a)
    &&& now - assoc_get(o.conns_view(), a).last_recv < assoc_get(o.conns_view(), a).timeout
    &&& now - assoc_get(o.conns_view(), a).last_send >= PACKET_SEND_DELTA
    &&& assoc_has(o.mapping_view(), a)
    &&& !spec_keys_expired(assoc_get(o.mapping_view(), a), now)
}

/// The keep-alive condition over the purged table and the key table, by
/// table position.
spec fn ka_due_mid(mid: Seq<(Addr, ConnView)>, m0: Seq<(Addr, KeysView)>, j: int, now: u64) -> bool {
    &&& now - mid[j].1.last_send >= PACKET_SEND_DELTA
    &&& assoc_has(m0, mid[j].0)
    &&& !spec_keys_expired(assoc_get(m0, mid[j].0), now)
}

/// A connection-oriented encrypted endpoint, server side.
pub struct Server {
    protocol: u64,
    time: u64,
    timestamp: u64,
    capacity: usize,
    sequence: u64,
    incoming: Incoming,
    mapping: Mapping,
    conns: Vec<(Addr, Conn)>,
    recv_queue: Vec<(Addr, Vec<u8>)>,
}

impl Server {
    pub closed spec fn spec_protocol(&self) -> u64 {
        self.protocol
    }

    pub closed spec fn spec_time(&self) -> u64 {
        self.time
    }

    pub closed spec fn spec_timestamp(&self) -> u64 {
        self.timestamp
    }

    pub closed spec fn spec_capacity(&self) -> int {
        self.capacity as int
    }

    pub closed spec fn spec_sequence(&self) -> u64 {
        self.sequence
    }

    /// The admission state: pending handshakes and token history.
    pub closed spec fn spec_incoming(&self) -> Incoming {
        self.incoming
    }

    /// The established connections' timers and replay windows.
    pub closed spec fn conns_view(&self) -> Seq<(Addr, ConnView)> {
        conn_entries(self.conns@)
    }

    /// The key table component.
    pub closed spec fn spec_mapping(&self) -> Mapping {
        self.mapping
    }

    /// The established connections' keys.
    pub closed spec fn mapping_view(&self) -> Seq<
        (Addr, crate::encryption_manager::KeysView),
    > {
        self.mapping.entries_view()
    }

    /// Payloads received and not yet handed to the application.
    pub closed spec fn queue_view(&self) -> Seq<(Addr, Seq<u8>)> {
        self.recv_queue@.map_values(|p: (Addr, Vec<u8>)| (p.0, p.1@))
    }

    /// Sound components, unique connection table, capacity respected.
    pub open spec fn wf(&self) -> bool {
        &&& self.spec_incoming().wf()
        &&& self.spec_incoming().spec_protocol() == self.spec_protocol()
        &&& self.spec_incoming().spec_timestamp() == self.spec_timestamp()
        &&& self.spec_mapping().wf()
        &&& assoc_unique(self.conns_view())
        &&& forall|i: int|
            0 <= i < self.conns_view().len() ==> conn_wf(#[trigger] self.conns_view()[i].1)
        &&& self.conns_view().len() <= self.spec_capacity()
        &&& self.spec_time() >= self.spec_mapping().spec_time()
    }

    /// A fresh server for one protocol: the long-term key, an admission
    /// state with a newly rotated challenge key, an empty mapping and an
    /// empty connection table of the given capacity.
    pub fn new(protocol: u64, private: Vec<u8>, capacity: usize, now: u64, now_secs: u64) -> (r:
        Server)
        requires
            private@.len() == 32,
        ensures
            r.wf(),
            r.spec_protocol() == protocol,
            r.spec_time() == now,
            r.spec_timestamp() == now_secs,
            r.spec_capacity() == capacity,
            r.conns_view().len() == 0,
            r.queue_view().len() == 0,
    {
        let mut mapping = Mapping::new();
        mapping.advance(now);
        Server {
            protocol,
            time: now,
            timestamp: now_secs,
            capacity,
            sequence: 0,
            incoming: Incoming::new(protocol, private, now_secs),
            mapping,
            conns: Vec::new(),
            recv_queue: Vec::new(),
        }
    }

    /// How many connections stand established.
    pub fn connected(&self) -> (r: usize)
        ensures
            r == self.conns_view().len(),
    {
        self.conns.len()
    }

    /// Hands out the oldest received payload with its sender.
    pub fn recv(&mut self) -> (r: Option<(Addr, Vec<u8>)>)
        ensures
            r is Some <==> old(self).queue_view().len() > 0,
            r is Some ==> r.unwrap().0 == old(self).queue_view()[0].0 && r.unwrap().1@ == old(
                self,
            ).queue_view()[0].1 && final(self).queue_view() == old(self).queue_view().drop_first(),
            r is None ==> final(self).queue_view() == old(self).queue_view(),
            final(self).wf() == old(self).wf(),
            final(self).conns_view() == old(self).conns_view(),
            final(self).spec_incoming() == old(self).spec_incoming(),
            final(self).mapping_view() == old(self).mapping_view(),
    {
        if self.recv_queue.len() == 0 {
            return None;
        }
        let e = self.recv_queue.remove(0);
        proof {
            assert(self.queue_view() =~= old(self).queue_view().drop_first());
        }
        Some(e)
    }

    /// Finds the position of `addr` in the connection table.
    fn position(&self, addr: Addr) -> (r: Option<usize>)
        ensures
            r is Some <==> assoc_has(self.conns_view(), addr),
            r is Some ==> 0 <= r.unwrap() < self.conns_view().len()
                && self.conns_view()[r.unwrap() as int].0 == addr,
    {
        let len = self.conns.len();
        let mut i: usize = 0;
        while i < len
            invariant
                i <= len,
                len == self.conns_view().len(),
                forall|j: int| 0 <= j < i ==> self.conns_view()[j].0 != addr,
            decreases len - i,
        {
            if self.conns[i].0 == addr {
                proof {
                    assert(self.conns_view()[i as int].0 == addr);
                }
                return Some(i);
            }
            proof {
                assert(self.conns_view()[i as int].0 == self.conns@[i as int].0);
            }
            i = i + 1;
        }
        None
    }

    /// Seals `payload` for a connected peer: the datagram to transmit, or
    /// nothing when no such connection stands.
    pub fn send(&mut self, peer: Addr, payload: &[u8]) -> (r: Option<Vec<u8>>)
        requires
            old(self).wf(),
            payload@.len() <= MAX_PAYLOAD,
            old(self).spec_sequence() < u64::MAX,
        ensures
            final(self).wf(),
            r is Some <==> (assoc_has(old(self).conns_view(), peer) && assoc_has(
                old(self).mapping_view(),
                peer,
            ) && !crate::encryption_manager::spec_keys_expired(
                assoc_get(old(self).mapping_view(), peer),
                old(self).spec_mapping().spec_time(),
            )),
            r is Some ==> r.unwrap()@ == crate::protocol::spec_encode_payload(
                old(self).spec_protocol(),
                old(self).spec_sequence(),
                assoc_get(old(self).mapping_view(), peer).send_key,
                payload@,
            ),
            final(self).spec_incoming() == old(self).spec_incoming(),
            final(self).queue_view() == old(self).queue_view(),
    {
        let i = match self.position(peer) {
            Some(i) => i,
            None => {
                return None;
            },
        };
        let keys = match self.mapping.find(peer) {
            Some(k) => k,
            None => {
                return None;
            },
        };
        let seq = self.sequence;
        self.sequence = self.sequence + 1;
        let out = Packet::encode_payload(
            self.protocol,
            seq,
            keys.send_key().as_slice(),
            payload,
        );
        proof {
            lemma_assoc_at_v(self.conns_view(), i as int, peer);
        }
        self.touch_send(i, peer);
        Some(out)
    }

    /// Refreshes a connection's last-send stamp.
    fn touch_send(&mut self, i: usize, peer: Addr)
        requires
            old(self).wf(),
            0 <= i < old(self).conns_view().len(),
            old(self).conns_view()[i as int].0 == peer,
        ensures
            final(self).wf(),
            final(self).conns_view() == old(self).conns_view().update(
                i as int,
                (
                    peer,
                    ConnView {
                        last_send: old(self).spec_time(),
                        ..old(self).conns_view()[i as int].1
                    },
                ),
            ),
            final(self).spec_incoming() == old(self).spec_incoming(),
            final(self).spec_mapping() == old(self).spec_mapping(),
            final(self).mapping_view() == old(self).mapping_view(),
            final(self).queue_view() == old(self).queue_view(),
            final(self).spec_time() == old(self).spec_time(),
            final(self).spec_timestamp() == old(self).spec_timestamp(),
            final(self).spec_protocol() == old(self).spec_protocol(),
            final(self).spec_sequence() == old(self).spec_sequence(),
            final(self).spec_capacity() == old(self).spec_capacity(),
    {
        let mut entry = self.conns.remove(i);
        entry.1.last_send = self.time;
        self.conns.insert(i, entry);
        proof {
            assert(self.conns_view() =~= old(self).conns_view().update(
                i as int,
                (
                    peer,
                    ConnView { last_send: old(self).spec_time(), ..old(self).conns_view()[
                        i as int].1 },
                ),
            ));
            lemma_assoc_update(
                old(self).conns_view(),
                i as int,
                peer,
                ConnView { last_send: old(self).spec_time(), ..old(self).conns_view()[i as int].1 },
            );
            assert forall|j: int|
                0 <= j < self.conns_view().len() implies conn_wf(
                #[trigger] self.conns_view()[j].1,
            ) by {
                if j != i {
                    assert(self.conns_view()[j] == old(self).conns_view()[j]);
                }
                assert(conn_wf(old(self).conns_view()[j].1));
            }
        }
    }

    /// Closes a peer's connection: its table entries go, and — while the
    /// peer's keys were still alive — the full burst of Close packets
    /// sealed under its send key comes back for the caller to send.
    pub fn disconnect(&mut self, peer: Addr) -> (r: Vec<Vec<u8>>)
        requires
            old(self).wf(),
            old(self).spec_sequence() + crate::protocol::NUM_DISCONNECT_PACKETS <= u64::MAX,
        ensures
            final(self).wf(),
            !assoc_has(final(self).conns_view(), peer),
            !assoc_has(final(self).mapping_view(), peer),
            forall|a: Addr|
                a != peer ==> (assoc_has(final(self).conns_view(), a) == assoc_has(
                    old(self).conns_view(),
                    a,
                )),
            final(self).spec_incoming() == old(self).spec_incoming(),
            final(self).queue_view() == old(self).queue_view(),
            final(self).spec_protocol() == old(self).spec_protocol(),
            r@.len() == if assoc_has(old(self).mapping_view(), peer) && !spec_keys_expired(
                assoc_get(old(self).mapping_view(), peer),
                old(self).spec_mapping().spec_time(),
            ) {
                crate::protocol::NUM_DISCONNECT_PACKETS as int
            } else {
                0
            },
            forall|i: int|
                0 <= i < r@.len() ==> (#[trigger] r@[i])@ == spec_encode_close(
                    old(self).spec_protocol(),
                    (old(self).spec_sequence() + i) as u64,
                    assoc_get(old(self).mapping_view(), peer).send_key,
                    Seq::<u8>::empty(),
                ),
    {
        let keys = match self.mapping.find(peer) {
            Some(k) => k,
            None => {
                self.drop_conn(peer);
                self.mapping.remove(peer);
                return Vec::new();
            },
        };
        let mut out: Vec<Vec<u8>> = Vec::new();
        let mut i: usize = 0;
        while i < crate::protocol::NUM_DISCONNECT_PACKETS
            invariant
                self.wf(),
                i <= crate::protocol::NUM_DISCONNECT_PACKETS,
                self.sequence == old(self).spec_sequence() + i,
                old(self).spec_sequence() + crate::protocol::NUM_DISCONNECT_PACKETS <= u64::MAX,
                keys@.send_key.len() == 32,
                keys@.send_key == assoc_get(old(self).mapping_view(), peer).send_key,
                self.conns_view() == old(self).conns_view(),
                self.spec_incoming() == old(self).spec_incoming(),
                self.queue_view() == old(self).queue_view(),
                self.spec_protocol() == old(self).spec_protocol(),
                out@.len() == i,
                forall|j: int|
                    0 <= j < i ==> (#[trigger] out@[j])@ == spec_encode_close(
                        old(self).spec_protocol(),
                        (old(self).spec_sequence() + j) as u64,
                        assoc_get(old(self).mapping_view(), peer).send_key,
                        Seq::<u8>::empty(),
                    ),
            decreases crate::protocol::NUM_DISCONNECT_PACKETS - i,
        {
            let seq = self.sequence;
            self.sequence = self.sequence + 1;
            let p = Packet::encode_close(self.protocol, seq, keys.send_key().as_slice());
            out.push(p);
            i = i + 1;
        }
        self.drop_conn(peer);
        self.mapping.remove(peer);
        out
    }

    /// Takes one inbound datagram from `from` and answers it: a challenge
    /// for an admissible Request, an encrypted denial for a well-formed
    /// Request that finds the table full, a first keep-alive for a valid
    /// Response, nothing for payloads and closes (payloads are queued for
    /// `recv`). Anything malformed is dropped in silence.
    pub fn process_datagram(&mut self, from: Addr, buf: &[u8]) -> (r: Vec<(Addr, Vec<u8>)>)
        requires
            old(self).wf(),
            old(self).spec_sequence() < u64::MAX,
        ensures
            final(self).wf(),
            final(self).spec_protocol() == old(self).spec_protocol(),
            final(self).spec_capacity() == old(self).spec_capacity(),
            final(self).spec_time() == old(self).spec_time(),
            final(self).spec_timestamp() == old(self).spec_timestamp(),
            forall|v: PrivateTokenView|
                #[trigger] server_request_hyp(*old(self), buf@, v) && !v.addrs.contains(from)
                    ==> r@.len() == 0 && final(self).spec_incoming().pending_view() == old(
                    self,
                ).spec_incoming().pending_view() && final(self).conns_view() == old(
                    self,
                ).conns_view(),
            forall|v: PrivateTokenView|
                #[trigger] server_request_hyp(*old(self), buf@, v) && v.addrs.contains(from)
                    && assoc_has(
                    old(self).spec_incoming().history_view(),
                    request_tag(buf@),
                ) && assoc_get(old(self).spec_incoming().history_view(), request_tag(buf@)).0
                    != from ==> r@.len() == 0 && final(self).spec_incoming().pending_view()
                    == old(self).spec_incoming().pending_view() && final(self).conns_view()
                    == old(self).conns_view(),
            forall|v: PrivateTokenView|
                #[trigger] server_request_hyp(*old(self), buf@, v) && v.addrs.contains(from) && (
                !assoc_has(old(self).spec_incoming().history_view(), request_tag(buf@))
                    || assoc_get(old(self).spec_incoming().history_view(), request_tag(buf@)).0
                    == from) && old(self).conns_view().len() >= old(self).spec_capacity()
                    ==> r@.len() == 1 && r@[0].0 == from && r@[0].1@ == spec_encode_close(
                    old(self).spec_protocol(),
                    old(self).spec_sequence(),
                    v.server_key,
                    Seq::<u8>::empty(),
                ) && final(self).conns_view() == old(self).conns_view(),
            forall|v: PrivateTokenView|
                #[trigger] server_request_hyp(*old(self), buf@, v) && v.addrs.contains(from) && (
                !assoc_has(old(self).spec_incoming().history_view(), request_tag(buf@))
                    || assoc_get(old(self).spec_incoming().history_view(), request_tag(buf@)).0
                    == from) && old(self).conns_view().len() < old(self).spec_capacity()
                    ==> r@.len() == 1 && r@[0].0 == from && r@[0].1@ == spec_encode_handshake(
                    old(self).spec_protocol(),
                    old(self).spec_sequence(),
                    v.server_key,
                    crate::token::spec_challenge_packet(
                        old(self).spec_incoming().spec_key(),
                        old(self).spec_incoming().spec_sequence(),
                        ChallengeTokenView { client_id: v.client_id, user: v.user },
                    ),
                ) && assoc_has(final(self).spec_incoming().pending_view(), from),
            forall|s: u64, s2: u64, v: ChallengeTokenView|
                #[trigger] server_response_hyp(*old(self), buf@, from, s, s2, v)
                    ==> !assoc_has(final(self).spec_incoming().pending_view(), from) && ({
                    let kp = assoc_get(old(self).spec_incoming().pending_view(), from);
                    if assoc_has(old(self).conns_view(), from) {
                        &&& final(self).conns_view() == old(self).conns_view()
                        &&& r@.len() == 1
                        &&& r@[0].0 == from
                        &&& r@[0].1@ == spec_encode_payload(
                            old(self).spec_protocol(),
                            old(self).spec_sequence(),
                            kp.send_key,
                            Seq::<u8>::empty(),
                        )
                    } else if old(self).conns_view().len() < old(self).spec_capacity() {
                        &&& assoc_has(final(self).conns_view(), from)
                        &&& assoc_get(final(self).conns_view(), from) == (ConnView {
                            timeout: (kp.timeout * 1000) as u64,
                            last_send: old(self).spec_time(),
                            last_recv: old(self).spec_time(),
                            replay: rp_fresh(REPLAY_PROTECTION_BUFFER_SIZE as nat),
                        })
                        &&& assoc_has(final(self).mapping_view(), from)
                        &&& assoc_get(final(self).mapping_view(), from).send_key == kp.send_key
                        &&& assoc_get(final(self).mapping_view(), from).recv_key == kp.recv_key
                        &&& r@.len() == 1
                        &&& r@[0].0 == from
                        &&& r@[0].1@ == spec_encode_payload(
                            old(self).spec_protocol(),
                            old(self).spec_sequence(),
                            kp.send_key,
                            Seq::<u8>::empty(),
                        )
                    } else {
                        r@.len() == 0
                    }
                }),
            forall|s: u64, m: Seq<u8>|
                #[trigger] server_payload_hyp(*old(self), buf@, from, s, m) ==> r@.len() == 0
                    && ({
                    let c = assoc_get(old(self).conns_view(), from);
                    if rp_admits(c.replay, s) {
                        &&& assoc_has(final(self).conns_view(), from)
                        &&& assoc_get(final(self).conns_view(), from) == (ConnView {
                            last_recv: old(self).spec_time(),
                            replay: rp_step(c.replay, s),
                            ..c
                        })
                        &&& final(self).queue_view() == (if m.len() > 0 {
                            old(self).queue_view().push((from, m))
                        } else {
                            old(self).queue_view()
                        })
                    } else {
                        &&& final(self).conns_view() == old(self).conns_view()
                        &&& final(self).queue_view() == old(self).queue_view()
                    }
                }),
            forall|s: u64|
                #[trigger] server_close_hyp(*old(self), buf@, from, s) && rp_admits(
                    assoc_get(old(self).conns_view(), from).replay,
                    s,
                ) ==> r@.len() == 0 && !assoc_has(final(self).conns_view(), from) && !assoc_has(
                    final(self).mapping_view(),
                    from,
                ) && !assoc_has(final(self).spec_incoming().pending_view(), from),
    {
        proof {
            lemma_server_request_facts(*old(self), buf@);
            lemma_server_wire_facts(*old(self), buf@, from);
        }
        let p = Packet::decode(buf);
        match p {
            Packet::Request(rq) => {
                let (expire, tok) = match self.incoming.open_request(&rq) {
                    Ok(x) => x,
                    Err(()) => {
                        proof {
                            assert forall|v: PrivateTokenView|
                                #[trigger] server_request_hyp(*old(self), buf@, v) implies false by {
                                assert(rq@ == spec_parse_request(buf@));
                                assert(rq@.token == crate::crypto::xsealed_of(
                                    old(self).spec_incoming().spec_private(),
                                    rq@.nonce,
                                    xad_bytes(rq@.protocol, rq@.expire),
                                    private_bytes(v),
                                ));
                            }
                        }
                        return Vec::new();
                    },
                };
                proof {
                    assert forall|v: PrivateTokenView|
                        #[trigger] server_request_hyp(*old(self), buf@, v) implies tok@ == v
                        && expire == spec_parse_request(buf@).expire by {
                        assert(rq@ == spec_parse_request(buf@));
                        assert(rq@.token == crate::crypto::xsealed_of(
                            old(self).spec_incoming().spec_private(),
                            rq@.nonce,
                            xad_bytes(rq@.protocol, rq@.expire),
                            private_bytes(v),
                        ));
                    }
                }
                if !addr_in_list(tok.addrs(), from) {
                    return Vec::new();
                }
                let blob = rq.token();
                let tag = vstd::slice::slice_to_vec(
                    vstd::slice::slice_subrange(blob.as_slice(), PRIVATE_LEN - 16, PRIVATE_LEN),
                );
                if !self.incoming.add_token_history(tag, from, expire) {
                    return Vec::new();
                }
                if self.conns.len() >= self.capacity {
                    let seq = self.sequence;
                    self.sequence = self.sequence + 1;
                    let p = Packet::encode_close(
                        self.protocol,
                        seq,
                        tok.server_key().as_slice(),
                    );
                    let mut out: Vec<(Addr, Vec<u8>)> = Vec::new();
                    out.push((from, p));
                    return out;
                }
                self.incoming.insert(from, expire, &tok);
                let seq = self.sequence;
                self.sequence = self.sequence + 1;
                let chal = self.incoming.gen_challenge(seq, &tok);
                let mut out: Vec<(Addr, Vec<u8>)> = Vec::new();
                out.push((from, chal));
                out
            },
            Packet::Handshake { prefix, seq, buf: ct, tag } => {
                if ct.len() != 8 + CHALLENGE_LEN {
                    proof {
                        assert forall|s: u64, s2: u64, v: ChallengeTokenView|
                            #[trigger] server_response_hyp(
                                *old(self),
                                buf@,
                                from,
                                s,
                                s2,
                                v,
                            ) implies false by {
                            assert(ct@.len() == 8 + CHALLENGE_LEN);
                        }
                    }
                    return Vec::new();
                }
                let (send_key, _cookie) = match self.incoming.open_response(
                    ct.as_slice(),
                    from,
                    seq,
                    prefix,
                    tag.as_slice(),
                ) {
                    Ok(x) => x,
                    Err(()) => {
                        proof {
                            assert forall|s: u64, s2: u64, v: ChallengeTokenView|
                                #[trigger] server_response_hyp(
                                    *old(self),
                                    buf@,
                                    from,
                                    s,
                                    s2,
                                    v,
                                ) implies false by {
                                assert(seq == s && prefix == buf@[0]);
                                assert(ct@ + tag@ == crate::protocol::spec_seal(
                                    old(self).spec_protocol(),
                                    s,
                                    prefix,
                                    assoc_get(
                                        old(self).spec_incoming().pending_view(),
                                        from,
                                    ).recv_key,
                                    crate::token::spec_challenge_packet(
                                        old(self).spec_incoming().spec_key(),
                                        s2,
                                        v,
                                    ),
                                ));
                                assert(tag@.len() == 16);
                            }
                        }
                        return Vec::new();
                    },
                };
                let kp = match self.incoming.remove(&from) {
                    Some(k) => k,
                    None => {
                        proof {
                            assert forall|s: u64, s2: u64, v: ChallengeTokenView|
                                #[trigger] server_response_hyp(
                                    *old(self),
                                    buf@,
                                    from,
                                    s,
                                    s2,
                                    v,
                                ) implies false by {
                            }
                        }
                        return Vec::new();
                    },
                };
                let already = match self.position(from) {
                    Some(_) => true,
                    None => false,
                };
                if !already {
                    if self.conns.len() >= self.capacity {
                        return Vec::new();
                    }
                    let timeout_ms = kp.timeout();
                    self.mapping.remove(from);
                    let ghost mv = self.mapping_view();
                    self.mapping.insert(
                        from,
                        vstd::slice::slice_to_vec(send_key.as_slice()),
                        vstd::slice::slice_to_vec(kp.recv_key().as_slice()),
                        timeout_ms,
                    );
                    proof {
                        lemma_assoc_push_fresh(
                            mv,
                            from,
                            assoc_get(self.mapping_view(), from),
                        );
                        assert(self.mapping_view()[mv.len() as int].0 == from);
                        lemma_assoc_at_v(self.mapping_view(), mv.len() as int, from);
                    }
                    let conn = Conn {
                        timeout: timeout_ms,
                        last_send: self.time,
                        last_recv: self.time,
                        replay: ReplayProtection::new(REPLAY_PROTECTION_BUFFER_SIZE),
                    };
                    let ghost cv = self.conns_view();
                    proof {
                        lemma_assoc_push_fresh(cv, from, conn@);
                    }
                    self.conns.push((from, conn));
                    proof {
                        assert(self.conns_view() =~= cv.push(
                            (from, ConnView {
                                timeout: timeout_ms,
                                last_send: old(self).spec_time(),
                                last_recv: old(self).spec_time(),
                                replay: rp_fresh(REPLAY_PROTECTION_BUFFER_SIZE as nat),
                            }),
                        ));
                        assert forall|j: int|
                            0 <= j < self.conns_view().len() implies conn_wf(
                            #[trigger] self.conns_view()[j].1,
                        ) by {
                            if j < cv.len() {
                                assert(self.conns_view()[j] == cv[j]);
                                assert(conn_wf(cv[j].1));
                            }
                        }
                    }
                }
                let seq2 = self.sequence;
                self.sequence = self.sequence + 1;
                let p = Packet::encode_keep_alive(self.protocol, seq2, send_key.as_slice());
                let mut out: Vec<(Addr, Vec<u8>)> = Vec::new();
                out.push((from, p));
                out
            },
            Packet::Payload { seq, buf: ct, tag } => {
                let i = match self.position(from) {
                    Some(i) => i,
                    None => {
                        return Vec::new();
                    },
                };
                let keys = match self.mapping.find(from) {
                    Some(k) => k,
                    None => {
                        return Vec::new();
                    },
                };
                if seq == INVALID_SEQUENCE {
                    return Vec::new();
                }
                proof {
                    lemma_assoc_at_v(self.conns_view(), i as int, from);
                }
                let mut entry = self.conns.remove(i);
                let already = entry.1.replay.packet_already_received(seq);
                let mut queued: Option<Vec<u8>> = None;
                if !already {
                    match Packet::open(
                        self.protocol,
                        ct.as_slice(),
                        seq,
                        0,
                        tag.as_slice(),
                        keys.recv_key().as_slice(),
                    ) {
                        Some(m) => {
                            entry.1.last_recv = self.time;
                            if m.len() > 0 {
                                queued = Some(m);
                            }
                        },
                        None => {},
                    }
                }
                let ghost ev = entry.1@;
                self.conns.insert(i, entry);
                proof {
                    assert(self.conns_view() =~= old(self).conns_view().update(
                        i as int,
                        (from, ev),
                    ));
                    lemma_assoc_update(old(self).conns_view(), i as int, from, ev);
                    assert forall|j: int|
                        0 <= j < self.conns_view().len() implies conn_wf(
                        #[trigger] self.conns_view()[j].1,
                    ) by {
                        if j != i {
                            assert(self.conns_view()[j] == old(self).conns_view()[j]);
                        }
                        assert(conn_wf(old(self).conns_view()[j].1));
                    }
                }
                match queued {
                    Some(m) => {
                        self.recv_queue.push((from, m));
                    },
                    None => {},
                }
                Vec::new()
            },
            Packet::Close { prefix, seq, buf: ct, tag } => {
                if ct.len() != 0 {
                    return Vec::new();
                }
                let i = match self.position(from) {
                    Some(i) => i,
                    None => {
                        return Vec::new();
                    },
                };
                let keys = match self.mapping.find(from) {
                    Some(k) => k,
                    None => {
                        return Vec::new();
                    },
                };
                if seq == INVALID_SEQUENCE {
                    return Vec::new();
                }
                proof {
                    lemma_assoc_at_v(self.conns_view(), i as int, from);
                }
                let mut entry = self.conns.remove(i);
                let already = entry.1.replay.packet_already_received(seq);
                let mut verified = false;
                if !already {
                    match Packet::open(
                        self.protocol,
                        ct.as_slice(),
                        seq,
                        prefix,
                        tag.as_slice(),
                        keys.recv_key().as_slice(),
                    ) {
                        Some(_) => {
                            verified = true;
                        },
                        None => {},
                    }
                }
                let ghost ev = entry.1@;
                self.conns.insert(i, entry);
                proof {
                    assert(self.conns_view() =~= old(self).conns_view().update(
                        i as int,
                        (from, ev),
                    ));
                    lemma_assoc_update(old(self).conns_view(), i as int, from, ev);
                    assert forall|j: int|
                        0 <= j < self.conns_view().len() implies conn_wf(
                        #[trigger] self.conns_view()[j].1,
                    ) by {
                        if j != i {
                            assert(self.conns_view()[j] == old(self).conns_view()[j]);
                        }
                        assert(conn_wf(old(self).conns_view()[j].1));
                    }
                }
                if verified {
                    self.drop_conn(from);
                    self.mapping.remove(from);
                    self.incoming.remove(&from);
                }
                Vec::new()
            },
            Packet::Invalid => Vec::new(),
        }
    }

    /// One tick: moves both clocks, purges pending handshakes and token
    /// history past their expiry, tears down connections idle past their
    /// timeout, and seals a keep-alive for every connection that has not
    /// sent lately. Overdue entries are destroyed before any packet is
    /// admitted.
    pub fn update(&mut self, now: u64, now_secs: u64) -> (r: Vec<(Addr, Vec<u8>)>)
        requires
            old(self).wf(),
            now >= old(self).spec_time(),
            old(self).spec_sequence() + old(self).conns_view().len() <= u64::MAX,
        ensures
            final(self).wf(),
            final(self).spec_time() == now,
            final(self).spec_timestamp() == now_secs,
            final(self).spec_protocol() == old(self).spec_protocol(),
            final(self).spec_capacity() == old(self).spec_capacity(),
            final(self).queue_view() == old(self).queue_view(),
            forall|a: Addr|
                assoc_has(final(self).conns_view(), a) <==> (assoc_has(old(self).conns_view(), a)
                    && now - assoc_get(old(self).conns_view(), a).last_recv < assoc_get(
                    old(self).conns_view(),
                    a,
                ).timeout),
            forall|a: Addr|
                assoc_has(final(self).conns_view(), a) ==> assoc_get(
                    final(self).conns_view(),
                    a,
                ).timeout == assoc_get(old(self).conns_view(), a).timeout && assoc_get(
                    final(self).conns_view(),
                    a,
                ).last_recv == assoc_get(old(self).conns_view(), a).last_recv && assoc_get(
                    final(self).conns_view(),
                    a,
                ).replay == assoc_get(old(self).conns_view(), a).replay,
            forall|a: Addr|
                assoc_has(final(self).spec_incoming().pending_view(), a) <==> (assoc_has(
                    old(self).spec_incoming().pending_view(),
                    a,
                ) && assoc_get(old(self).spec_incoming().pending_view(), a).expire > now_secs),
            forall|h: Seq<u8>|
                assoc_has(final(self).spec_incoming().history_view(), h) <==> (assoc_has(
                    old(self).spec_incoming().history_view(),
                    h,
                ) && assoc_get(old(self).spec_incoming().history_view(), h).1 > now_secs),
            forall|a: Addr|
                assoc_has(final(self).conns_view(), a) ==> assoc_get(
                    final(self).conns_view(),
                    a,
                ).last_send == (if server_keep_alive_due(*old(self), a, now) {
                    now
                } else {
                    assoc_get(old(self).conns_view(), a).last_send
                }),
            forall|k: int|
                0 <= k < r@.len() ==> server_keep_alive_due(*old(self), (#[trigger] r@[k]).0, now)
                    && r@[k].1@ == crate::protocol::spec_encode_payload(
                    old(self).spec_protocol(),
                    (old(self).spec_sequence() + k) as u64,
                    assoc_get(old(self).mapping_view(), r@[k].0).send_key,
                    Seq::<u8>::empty(),
                ),
            forall|a: Addr|
                server_keep_alive_due(*old(self), a, now) ==> exists|k: int|
                    0 <= k < r@.len() && (#[trigger] r@[k]).0 == a,
            forall|k: int, l: int| 0 <= k < l < r@.len() ==> r@[k].0 != r@[l].0,
            forall|a: Addr|
                assoc_has(final(self).mapping_view(), a) ==> assoc_has(old(self).mapping_view(), a)
                    && assoc_get(final(self).mapping_view(), a).send_key == assoc_get(
                    old(self).mapping_view(),
                    a,
                ).send_key && assoc_get(final(self).mapping_view(), a).recv_key == assoc_get(
                    old(self).mapping_view(),
                    a,
                ).recv_key,
    {
        self.time = now;
        self.timestamp = now_secs;
        self.mapping.advance(now);
        self.incoming.update(now_secs);
        let ghost m0 = self.mapping_view();
        proof {
            assert(m0 == old(self).mapping_view());
        }
        let ghost inc_mid = self.spec_incoming();
        let mut src: Vec<(Addr, Conn)> = Vec::new();
        core::mem::swap(&mut self.conns, &mut src);
        let kept = purge_conns(src, now);
        self.conns = kept;
        let ghost mid = self.conns_view();
        let len = self.conns.len();
        let mut out: Vec<(Addr, Vec<u8>)> = Vec::new();
        let mut i: usize = 0;
        proof {
            assert(self.mapping_view() == m0);
        }
        while i < len
            invariant
                i <= len,
                len == self.conns_view().len(),
                len == mid.len(),
                self.sequence == old(self).spec_sequence() + out@.len(),
                out@.len() <= i,
                old(self).spec_sequence() + len <= u64::MAX,
                assoc_unique(self.conns_view()),
                assoc_unique(mid),
                len <= self.spec_capacity(),
                forall|j: int|
                    0 <= j < len ==> (#[trigger] self.conns_view()[j]).0 == mid[j].0
                        && self.conns_view()[j].1.timeout == mid[j].1.timeout
                        && self.conns_view()[j].1.last_recv == mid[j].1.last_recv
                        && self.conns_view()[j].1.replay == mid[j].1.replay,
                forall|j: int|
                    i <= j < len ==> (#[trigger] self.conns_view()[j]).1.last_send
                        == mid[j].1.last_send,
                forall|j: int|
                    0 <= j < i ==> (#[trigger] self.conns_view()[j]).1.last_send == (if ka_due_mid(
                        mid,
                        m0,
                        j,
                        now,
                    ) {
                        now
                    } else {
                        mid[j].1.last_send
                    }),
                forall|j: int|
                    0 <= j < len ==> conn_wf(#[trigger] self.conns_view()[j].1),
                self.spec_mapping().wf(),
                self.spec_time() == now,
                self.spec_mapping().spec_time() == now,
                self.spec_timestamp() == now_secs,
                self.spec_protocol() == old(self).spec_protocol(),
                self.spec_capacity() == old(self).spec_capacity(),
                self.spec_incoming() == inc_mid,
                self.spec_incoming().wf(),
                self.spec_incoming().spec_protocol() == self.spec_protocol(),
                self.spec_incoming().spec_timestamp() == self.spec_timestamp(),
                self.queue_view() == old(self).queue_view(),
                forall|j: int|
                    i <= j < len ==> (assoc_has(self.mapping_view(), (#[trigger] mid[j]).0)
                        == assoc_has(m0, mid[j].0) && (assoc_has(m0, mid[j].0) ==> assoc_get(
                        self.mapping_view(),
                        mid[j].0,
                    ) == assoc_get(m0, mid[j].0))),
                forall|a: Addr|
                    #[trigger] assoc_has(self.mapping_view(), a) ==> assoc_has(m0, a)
                        && assoc_get(self.mapping_view(), a).send_key == assoc_get(m0, a).send_key
                        && assoc_get(self.mapping_view(), a).recv_key == assoc_get(m0, a).recv_key,
                forall|k: int|
                    #![trigger out@[k]]
                    0 <= k < out@.len() ==> exists|j: int|
                        #![trigger mid[j]]
                        0 <= j < i && out@[k].0 == mid[j].0,
                forall|j: int|
                    0 <= j < i ==> (ka_due_mid(mid, m0, j, now) <==> exists|k: int|
                        0 <= k < out@.len() && (#[trigger] out@[k]).0 == (#[trigger] mid[j]).0),
                forall|k: int, l: int| 0 <= k < l < out@.len() ==> out@[k].0 != out@[l].0,
                forall|k: int|
                    0 <= k < out@.len() ==> (#[trigger] out@[k]).1@
                        == crate::protocol::spec_encode_payload(
                        old(self).spec_protocol(),
                        (old(self).spec_sequence() + k) as u64,
                        assoc_get(m0, out@[k].0).send_key,
                        Seq::<u8>::empty(),
                    ),
            decreases len - i,
        {
            let ghost out0 = out@;
            let idle = now >= self.conns[i].1.last_send && now - self.conns[i].1.last_send
                >= PACKET_SEND_DELTA;
            if idle {
                let addr = self.conns[i].0;
                proof {
                    assert(self.conns_view()[i as int].0 == addr);
                }
                match self.mapping.find(addr) {
                    Some(keys) => {
                        proof {
                            assert(ka_due_mid(mid, m0, i as int, now));
                            if exists|k: int| 0 <= k < out0.len() && (#[trigger] out0[k]).0
                                == addr {
                                let k = choose|k: int|
                                    0 <= k < out0.len() && (#[trigger] out0[k]).0 == addr;
                                let j2 = choose|j: int|
                                    #![trigger mid[j]]
                                    0 <= j < i && out0[k].0 == mid[j].0;
                                assert(mid[j2].0 == mid[i as int].0);
                                assert(false);
                            }
                        }
                        let seq = self.sequence;
                        self.sequence = self.sequence + 1;
                        let p = Packet::encode_keep_alive(
                            self.protocol,
                            seq,
                            keys.send_key().as_slice(),
                        );
                        out.push((addr, p));
                        proof {
                            assert(out@ == out0.push((addr, p)));
                            lemma_assoc_at_v(self.conns_view(), i as int, addr);
                        }
                        self.touch_send(i, addr);
                        proof {
                            lemma_assoc_update(
                                mid,
                                i as int,
                                addr,
                                self.conns_view()[i as int].1,
                            );
                            assert forall|j: int|
                                i + 1 <= j < len implies (assoc_has(
                                self.mapping_view(),
                                (#[trigger] mid[j]).0,
                            ) == assoc_has(m0, mid[j].0) && (assoc_has(m0, mid[j].0)
                                ==> assoc_get(self.mapping_view(), mid[j].0) == assoc_get(
                                m0,
                                mid[j].0,
                            ))) by {
                                assert(mid[j].0 != addr);
                            }
                            assert forall|j: int|
                                0 <= j < i + 1 implies (ka_due_mid(mid, m0, j, now)
                                <==> exists|k: int|
                                0 <= k < out@.len() && (#[trigger] out@[k]).0
                                    == (#[trigger] mid[j]).0) by {
                                if j < i {
                                    if ka_due_mid(mid, m0, j, now) {
                                        let k = choose|k: int|
                                            0 <= k < out0.len() && (#[trigger] out0[k]).0
                                                == mid[j].0;
                                        assert(out@[k].0 == mid[j].0);
                                    }
                                    if exists|k: int|
                                        0 <= k < out@.len() && (#[trigger] out@[k]).0
                                            == mid[j].0 {
                                        let k = choose|k: int|
                                            0 <= k < out@.len() && (#[trigger] out@[k]).0
                                                == mid[j].0;
                                        if k < out0.len() {
                                            assert(out0[k].0 == mid[j].0);
                                        } else {
                                            assert(mid[j].0 == addr);
                                            assert(false);
                                        }
                                    }
                                } else {
                                    assert(out@[out0.len() as int].0 == mid[j].0);
                                }
                            }
                        }
                    },
                    None => {
                        proof {
                            assert(!assoc_has(self.mapping_view(), addr) || spec_keys_expired(
                                assoc_get(self.mapping_view(), addr),
                                now,
                            ));
                            assert(!ka_due_mid(mid, m0, i as int, now));
                            assert(!(exists|k: int|
                                0 <= k < out@.len() && (#[trigger] out@[k]).0 == mid[
                                i as int].0)) by {
                                if exists|k: int|
                                    0 <= k < out@.len() && (#[trigger] out@[k]).0 == mid[
                                    i as int].0 {
                                    let k = choose|k: int|
                                        0 <= k < out@.len() && (#[trigger] out@[k]).0 == mid[
                                        i as int].0;
                                    assert(0 <= k < out@.len());
                                    let j = choose|j: int|
                                        #![trigger mid[j]]
                                        0 <= j < i && out@[k].0 == mid[j].0;
                                    assert(mid[j].0 == mid[i as int].0);
                                    assert(false);
                                }
                            };
                            assert forall|j: int|
                                i + 1 <= j < len implies (assoc_has(
                                self.mapping_view(),
                                (#[trigger] mid[j]).0,
                            ) == assoc_has(m0, mid[j].0) && (assoc_has(m0, mid[j].0)
                                ==> assoc_get(self.mapping_view(), mid[j].0) == assoc_get(
                                m0,
                                mid[j].0,
                            ))) by {
                                assert(mid[j].0 != addr);
                            }
                        }
                    },
                }
            } else {
                proof {
                    assert(self.conns_view()[i as int].1.last_send == mid[i as int].1.last_send);
                    assert(!ka_due_mid(mid, m0, i as int, now));
                    assert(!(exists|k: int|
                                0 <= k < out@.len() && (#[trigger] out@[k]).0 == mid[
                                i as int].0)) by {
                                if exists|k: int|
                                    0 <= k < out@.len() && (#[trigger] out@[k]).0 == mid[
                                    i as int].0 {
                                    let k = choose|k: int|
                                        0 <= k < out@.len() && (#[trigger] out@[k]).0 == mid[
                                        i as int].0;
                                    assert(0 <= k < out@.len());
                                    let j = choose|j: int|
                                        #![trigger mid[j]]
                                        0 <= j < i && out@[k].0 == mid[j].0;
                                    assert(mid[j].0 == mid[i as int].0);
                                    assert(false);
                                }
                            };
                }
            }
            i = i + 1;
        }
        proof {
            assert forall|a: Addr| assoc_has(self.conns_view(), a) <==> assoc_has(mid, a) by {
                if assoc_has(self.conns_view(), a) {
                    let j = crate::assoc::assoc_idx(self.conns_view(), a);
                    assert(mid[j].0 == a);
                    assert(assoc_has(mid, a));
                }
                if assoc_has(mid, a) {
                    let j = crate::assoc::assoc_idx(mid, a);
                    assert(self.conns_view()[j].0 == a);
                    assert(assoc_has(self.conns_view(), a));
                }
            }
            assert forall|a: Addr| assoc_has(self.conns_view(), a) implies assoc_get(
                self.conns_view(),
                a,
            ).timeout == assoc_get(mid, a).timeout && assoc_get(self.conns_view(), a).last_recv
                == assoc_get(mid, a).last_recv && assoc_get(self.conns_view(), a).replay
                == assoc_get(mid, a).replay by {
                let j = crate::assoc::assoc_idx(mid, a);
                lemma_assoc_at_v(mid, j, a);
                lemma_assoc_at_v(self.conns_view(), j, a);
            }
            assert forall|a: Addr| assoc_has(mid, a) implies (ka_due_mid(
                mid,
                m0,
                crate::assoc::assoc_idx(mid, a),
                now,
            ) <==> server_keep_alive_due(*old(self), a, now)) by {
                let j = crate::assoc::assoc_idx(mid, a);
                lemma_assoc_at_v(mid, j, a);
            }
            assert forall|a: Addr| assoc_has(self.conns_view(), a) implies assoc_get(
                self.conns_view(),
                a,
            ).last_send == (if server_keep_alive_due(*old(self), a, now) {
                now
            } else {
                assoc_get(old(self).conns_view(), a).last_send
            }) by {
                let j = crate::assoc::assoc_idx(mid, a);
                lemma_assoc_at_v(mid, j, a);
                lemma_assoc_at_v(self.conns_view(), j, a);
            }
            assert forall|k: int| 0 <= k < out@.len() implies server_keep_alive_due(
                *old(self),
                (#[trigger] out@[k]).0,
                now,
            ) && out@[k].1@ == crate::protocol::spec_encode_payload(
                old(self).spec_protocol(),
                (old(self).spec_sequence() + k) as u64,
                assoc_get(old(self).mapping_view(), out@[k].0).send_key,
                Seq::<u8>::empty(),
            ) by {
                let j = choose|j: int| #![trigger mid[j]] 0 <= j < len && out@[k].0 == mid[j].0;
                lemma_assoc_at_v(mid, j, out@[k].0);
                assert(ka_due_mid(mid, m0, j, now));
            }
            assert forall|a: Addr| server_keep_alive_due(*old(self), a, now) implies exists|
                k: int,
            | 0 <= k < out@.len() && (#[trigger] out@[k]).0 == a by {
                assert(assoc_has(mid, a));
                let j = crate::assoc::assoc_idx(mid, a);
                lemma_assoc_at_v(mid, j, a);
                assert(ka_due_mid(mid, m0, j, now));
            }
        }
        out
    }

    /// Removes a peer's connection entry, if any.
    fn drop_conn(&mut self, peer: Addr)
        requires
            old(self).wf(),
        ensures
            final(self).wf(),
            !assoc_has(final(self).conns_view(), peer),
            forall|a: Addr|
                a != peer ==> (assoc_has(final(self).conns_view(), a) == assoc_has(
                    old(self).conns_view(),
                    a,
                ) && (assoc_has(old(self).conns_view(), a) ==> assoc_get(
                    final(self).conns_view(),
                    a,
                ) == assoc_get(old(self).conns_view(), a))),
            final(self).conns_view().len() <= old(self).conns_view().len(),
            final(self).spec_incoming() == old(self).spec_incoming(),
            final(self).mapping_view() == old(self).mapping_view(),
            final(self).queue_view() == old(self).queue_view(),
            final(self).spec_time() == old(self).spec_time(),
            final(self).spec_timestamp() == old(self).spec_timestamp(),
            final(self).spec_protocol() == old(self).spec_protocol(),
            final(self).spec_sequence() == old(self).spec_sequence(),
            final(self).spec_capacity() == old(self).spec_capacity(),
    {
        match self.position(peer) {
            Some(i) => {
                self.conns.remove(i);
                proof {
                    lemma_assoc_remove(old(self).conns_view(), i as int, peer);
                    assert(self.conns_view() =~= old(self).conns_view().remove(i as int));
                    assert forall|j: int|
                        0 <= j < self.conns_view().len() implies conn_wf(
                        #[trigger] self.conns_view()[j].1,
                    ) by {
                        if j < i {
                            assert(self.conns_view()[j] == old(self).conns_view()[j]);
                        } else {
                            assert(self.conns_view()[j] == old(self).conns_view()[j + 1]);
                        }
                    }
                }
            },
            None => {
                proof {
                    lemma_assoc_absent(self.conns_view(), peer);
                }
            },
        }
    }
}


/// Whether `b` is a well-formed, timely Request for this server carrying
/// the private token `v` sealed under its long-term key.
pub open spec fn server_request_hyp(srv: Server, b: Seq<u8>, v: PrivateTokenView) -> bool {
    &&& b.len() == MTU
    &&& spec_request_valid(spec_parse_request(b), srv.spec_protocol(), srv.spec_timestamp())
    &&& private_wf(v)
    &&& spec_parse_request(b).token == crate::crypto::xsealed_of(
        srv.spec_incoming().spec_private(),
        spec_parse_request(b).nonce,
        xad_bytes(spec_parse_request(b).protocol, spec_parse_request(b).expire),
        private_bytes(v),
    )
}

/// The tag of a Request's sealed token blob: its last sixteen bytes, the
/// mark by which single binding is enforced.
pub open spec fn request_tag(b: Seq<u8>) -> Seq<u8> {
    spec_parse_request(b).token.skip(PRIVATE_LEN - 16)
}

/// Whether `b` is a Response echo from `from`: the challenge packet this
/// server sealed, echoed under the pending receive key at sequence `s`.
pub open spec fn server_response_hyp(
    srv: Server,
    b: Seq<u8>,
    from: Addr,
    s: u64,
    s2: u64,
    v: ChallengeTokenView,
) -> bool {
    &&& assoc_has(srv.spec_incoming().pending_view(), from)
    &&& crate::token::challenge_wf(v)
    &&& b.len() == 1 + spec_sequence_bytes(s) + (8 + CHALLENGE_LEN) + 16
    &&& b == spec_encode_handshake(
        srv.spec_protocol(),
        s,
        assoc_get(srv.spec_incoming().pending_view(), from).recv_key,
        crate::token::spec_challenge_packet(srv.spec_incoming().spec_key(), s2, v),
    )
}

/// Whether `b` is a payload datagram from a connected `from`, carrying `m`
/// at sequence `s` under the live mapping's receive key.
pub open spec fn server_payload_hyp(srv: Server, b: Seq<u8>, from: Addr, s: u64, m: Seq<u8>) -> bool {
    &&& assoc_has(srv.conns_view(), from)
    &&& assoc_has(srv.mapping_view(), from)
    &&& !spec_keys_expired(assoc_get(srv.mapping_view(), from), srv.spec_mapping().spec_time())
    &&& s != INVALID_SEQUENCE
    &&& b.len() == payload_header_len(s) + m.len() + 16
    &&& b == spec_encode_payload(
        srv.spec_protocol(),
        s,
        assoc_get(srv.mapping_view(), from).recv_key,
        m,
    )
}

/// Whether `b` is an empty close datagram from a connected `from` at
/// sequence `s` under the live mapping's receive key.
pub open spec fn server_close_hyp(srv: Server, b: Seq<u8>, from: Addr, s: u64) -> bool {
    &&& assoc_has(srv.conns_view(), from)
    &&& assoc_has(srv.mapping_view(), from)
    &&& !spec_keys_expired(assoc_get(srv.mapping_view(), from), srv.spec_mapping().spec_time())
    &&& s != INVALID_SEQUENCE
    &&& b.len() == 1 + spec_sequence_bytes(s) + 16
    &&& b == spec_encode_close(
        srv.spec_protocol(),
        s,
        assoc_get(srv.mapping_view(), from).recv_key,
        Seq::<u8>::empty(),
    )
}

/// Whether `a` stands in the address list.
fn addr_in_list(addrs: &Vec<Addr>, a: Addr) -> (r: bool)
    ensures
        r == addrs@.contains(a),
{
    let len = addrs.len();
    let mut i: usize = 0;
    while i < len
        invariant
            i <= len,
            len == addrs@.len(),
            forall|j: int| 0 <= j < i ==> addrs@[j] != a,
        decreases len - i,
    {
        if addrs[i] == a {
            return true;
        }
        i = i + 1;
    }
    false
}

/// What the Response, payload and close hypotheses force of the buffer:
/// how it decodes, and that its sealed part is exactly the named seal.
proof fn lemma_server_wire_facts(srv: Server, b: Seq<u8>, from: Addr)
    ensures
        forall|s: u64, s2: u64, v: ChallengeTokenView|
            #[trigger] server_response_hyp(srv, b, from, s, s2, v) ==> ({
                let n = spec_sequence_bytes(s) as int;
                &&& b.len() >= crate::protocol::MIN_PACKET_BYTES
                &&& b[0] % 2 == 1
                &&& b[0] < 0x40
                &&& (b[0] / 0x20) % 2 == 1
                &&& (b[0] / 0x10) % 2 == 0
                &&& (b[0] / 2) % 8 + 1 == n
                &&& b.len() >= 1 + n + 16
                &&& crate::bytes::le_value(b.subrange(1, 1 + n)) == s
                &&& b.subrange(1 + n, b.len() - 16) + b.subrange(b.len() - 16, b.len() as int)
                    == crate::protocol::spec_seal(
                    srv.spec_protocol(),
                    s,
                    b[0],
                    assoc_get(srv.spec_incoming().pending_view(), from).recv_key,
                    crate::token::spec_challenge_packet(srv.spec_incoming().spec_key(), s2, v),
                )
                &&& b.subrange(1 + n, b.len() - 16).len() == 8 + CHALLENGE_LEN
            }),
        forall|s: u64, m: Seq<u8>|
            #[trigger] server_payload_hyp(srv, b, from, s, m) ==> ({
                let hl = payload_header_len(s);
                &&& b.len() >= crate::protocol::MIN_PACKET_BYTES
                &&& b[0] % 2 == 0
                &&& crate::protocol::spec_decode_sequence(b) == Some((s, hl))
                &&& b.len() >= hl + 16
                &&& b.subrange(hl, b.len() - 16) + b.subrange(b.len() - 16, b.len() as int)
                    == crate::protocol::spec_seal(
                    srv.spec_protocol(),
                    s,
                    0,
                    assoc_get(srv.mapping_view(), from).recv_key,
                    m,
                )
                &&& b.subrange(hl, b.len() - 16).len() == m.len()
            }),
        forall|s: u64|
            #[trigger] server_close_hyp(srv, b, from, s) ==> ({
                let n = spec_sequence_bytes(s) as int;
                &&& b.len() >= crate::protocol::MIN_PACKET_BYTES
                &&& b[0] % 2 == 1
                &&& b[0] < 0x40
                &&& (b[0] / 0x20) % 2 == 1
                &&& (b[0] / 0x10) % 2 == 1
                &&& (b[0] / 2) % 8 + 1 == n
                &&& b.len() >= 1 + n + 16
                &&& crate::bytes::le_value(b.subrange(1, 1 + n)) == s
                &&& b.subrange(1 + n, b.len() - 16) + b.subrange(b.len() - 16, b.len() as int)
                    == crate::protocol::spec_seal(
                    srv.spec_protocol(),
                    s,
                    b[0],
                    assoc_get(srv.mapping_view(), from).recv_key,
                    Seq::<u8>::empty(),
                )
                &&& b.subrange(1 + n, b.len() - 16).len() == 0
            }),
{
    assert forall|s: u64, s2: u64, v: ChallengeTokenView|
        #[trigger] server_response_hyp(srv, b, from, s, s2, v) implies ({
        let n = spec_sequence_bytes(s) as int;
        &&& b.len() >= crate::protocol::MIN_PACKET_BYTES
        &&& b[0] % 2 == 1
        &&& b[0] < 0x40
        &&& (b[0] / 0x20) % 2 == 1
        &&& (b[0] / 0x10) % 2 == 0
        &&& (b[0] / 2) % 8 + 1 == n
        &&& b.len() >= 1 + n + 16
        &&& crate::bytes::le_value(b.subrange(1, 1 + n)) == s
        &&& b.subrange(1 + n, b.len() - 16) + b.subrange(b.len() - 16, b.len() as int)
            == crate::protocol::spec_seal(
            srv.spec_protocol(),
            s,
            b[0],
            assoc_get(srv.spec_incoming().pending_view(), from).recv_key,
            crate::token::spec_challenge_packet(srv.spec_incoming().spec_key(), s2, v),
        )
        &&& b.subrange(1 + n, b.len() - 16).len() == 8 + CHALLENGE_LEN
    }) by {
        let n = spec_sequence_bytes(s) as int;
        let m = crate::token::spec_challenge_packet(srv.spec_incoming().spec_key(), s2, v);
        let sl = crate::protocol::spec_seal(
            srv.spec_protocol(),
            s,
            crate::protocol::handshake_prefix(s),
            assoc_get(srv.spec_incoming().pending_view(), from).recv_key,
            m,
        );
        crate::protocol::lemma_sequence_bytes_bounds(s);
        crate::bytes::lemma_le_bytes_len(s as int, n as nat);
        assert(sl.len() == (8 + CHALLENGE_LEN) + 16);
        crate::protocol::lemma_handshake_packet_round_trip(
            srv.spec_protocol(),
            s,
            assoc_get(srv.spec_incoming().pending_view(), from).recv_key,
            m,
            sl,
        );
        assert(b[0] == crate::protocol::handshake_prefix(s));
    }
    assert forall|s: u64, m: Seq<u8>| #[trigger] server_payload_hyp(srv, b, from, s, m) implies ({
        let hl = payload_header_len(s);
        &&& b.len() >= crate::protocol::MIN_PACKET_BYTES
        &&& b[0] % 2 == 0
        &&& crate::protocol::spec_decode_sequence(b) == Some((s, hl))
        &&& b.len() >= hl + 16
        &&& b.subrange(hl, b.len() - 16) + b.subrange(b.len() - 16, b.len() as int)
            == crate::protocol::spec_seal(
            srv.spec_protocol(),
            s,
            0,
            assoc_get(srv.mapping_view(), from).recv_key,
            m,
        )
        &&& b.subrange(hl, b.len() - 16).len() == m.len()
    }) by {
        let sl = crate::protocol::spec_seal(
            srv.spec_protocol(),
            s,
            0,
            assoc_get(srv.mapping_view(), from).recv_key,
            m,
        );
        crate::protocol::lemma_payload_header_len_is(s);
        assert(sl.len() == m.len() + 16);
        crate::protocol::lemma_payload_packet_round_trip(
            srv.spec_protocol(),
            s,
            assoc_get(srv.mapping_view(), from).recv_key,
            m,
            sl,
        );
        assert(b[0] % 2 == 0) by {
            if b[0] % 2 == 1 {
                assert(crate::protocol::spec_decode_sequence(b) is None);
            }
        }
    }
    assert forall|s: u64| #[trigger] server_close_hyp(srv, b, from, s) implies ({
        let n = spec_sequence_bytes(s) as int;
        &&& b.len() >= crate::protocol::MIN_PACKET_BYTES
        &&& b[0] % 2 == 1
        &&& b[0] < 0x40
        &&& (b[0] / 0x20) % 2 == 1
        &&& (b[0] / 0x10) % 2 == 1
        &&& (b[0] / 2) % 8 + 1 == n
        &&& b.len() >= 1 + n + 16
        &&& crate::bytes::le_value(b.subrange(1, 1 + n)) == s
        &&& b.subrange(1 + n, b.len() - 16) + b.subrange(b.len() - 16, b.len() as int)
            == crate::protocol::spec_seal(
            srv.spec_protocol(),
            s,
            b[0],
            assoc_get(srv.mapping_view(), from).recv_key,
            Seq::<u8>::empty(),
        )
        &&& b.subrange(1 + n, b.len() - 16).len() == 0
    }) by {
        let n = spec_sequence_bytes(s) as int;
        let sl = crate::protocol::spec_seal(
            srv.spec_protocol(),
            s,
            crate::protocol::close_prefix(s),
            assoc_get(srv.mapping_view(), from).recv_key,
            Seq::<u8>::empty(),
        );
        crate::protocol::lemma_sequence_bytes_bounds(s);
        crate::bytes::lemma_le_bytes_len(s as int, n as nat);
        assert(sl.len() == 16);
        crate::protocol::lemma_close_packet_round_trip(
            srv.spec_protocol(),
            s,
            assoc_get(srv.mapping_view(), from).recv_key,
            Seq::<u8>::empty(),
            sl,
        );
        assert(b[0] == crate::protocol::close_prefix(s));
    }
}

/// What the Request hypothesis forces of the buffer: it decodes as a
/// Request whose parsed fields match, and its token blob opens to `v`.
proof fn lemma_server_request_facts(srv: Server, b: Seq<u8>)
    ensures
        forall|v: PrivateTokenView|
            #[trigger] server_request_hyp(srv, b, v) ==> ({
                &&& b.len() == MTU
                &&& b.len() >= crate::protocol::MIN_PACKET_BYTES
                &&& b[0] == 1
                &&& b[0] % 2 == 1
                &&& b[0] < 0x40
                &&& (b[0] / 0x20) % 2 == 0
            }),
{
    assert forall|v: PrivateTokenView| #[trigger] server_request_hyp(srv, b, v) implies ({
        &&& b.len() == MTU
        &&& b.len() >= crate::protocol::MIN_PACKET_BYTES
        &&& b[0] == 1
        &&& b[0] % 2 == 1
        &&& b[0] < 0x40
        &&& (b[0] / 0x20) % 2 == 0
    }) by {
        assert(spec_parse_request(b).prefix == b[0]);
        assert(b[0] == 1);
    }
}


/// Keeps exactly the connections whose last receipt is within their
/// timeout at `now`.
fn purge_conns(v: Vec<(Addr, Conn)>, now: u64) -> (r: Vec<(Addr, Conn)>)
    requires
        assoc_unique(conn_entries(v@)),
        forall|i: int| 0 <= i < conn_entries(v@).len() ==> conn_wf(#[trigger] conn_entries(v@)[i].1),
    ensures
        assoc_unique(conn_entries(r@)),
        forall|i: int| 0 <= i < conn_entries(r@).len() ==> conn_wf(#[trigger] conn_entries(r@)[i].1),
        r@.len() <= v@.len(),
        forall|a: Addr|
            assoc_has(conn_entries(r@), a) <==> (assoc_has(conn_entries(v@), a) && now
                - assoc_get(conn_entries(v@), a).last_recv < assoc_get(
                conn_entries(v@),
                a,
            ).timeout),
        forall|a: Addr|
            assoc_has(conn_entries(r@), a) ==> assoc_get(conn_entries(r@), a) == assoc_get(
                conn_entries(v@),
                a,
            ),
{
    let ghost g = conn_entries(v@);
    let mut src = v;
    let mut kept: Vec<(Addr, Conn)> = Vec::new();
    proof {
        assert(conn_entries(src@) =~= g.take(src@.len() as int));
        assert(conn_entries(kept@) =~= Seq::<(Addr, ConnView)>::empty());
    }
    while src.len() > 0
        invariant
            src@.len() <= g.len(),
            kept@.len() + src@.len() <= g.len(),
            conn_entries(src@) =~= g.take(src@.len() as int),
            assoc_unique(g),
            forall|i: int| 0 <= i < g.len() ==> conn_wf(#[trigger] g[i].1),
            assoc_unique(conn_entries(kept@)),
            forall|b: Addr|
                #[trigger] assoc_has(conn_entries(kept@), b) ==> exists|j: int|
                    src@.len() <= j < g.len() && #[trigger] g[j].0 == b,
            forall|j: int|
                src@.len() <= j < g.len() ==> ((now - g[j].1.last_recv < g[j].1.timeout)
                    <==> assoc_has(conn_entries(kept@), #[trigger] g[j].0)),
            forall|j: int|
                src@.len() <= j < g.len() && now - g[j].1.last_recv < g[j].1.timeout
                    ==> assoc_get(conn_entries(kept@), #[trigger] g[j].0) == g[j].1,
        decreases src@.len(),
    {
        let ghost prev = src@;
        let ghost n = prev.len() as int;
        let ghost kv0 = conn_entries(kept@);
        let e = src.pop().unwrap();
        proof {
            assert(conn_entries(prev)[n - 1] == (prev[n - 1].0, prev[n - 1].1@));
            assert(g.take(n)[n - 1] == g[n - 1]);
            assert((e.0, e.1@) == g[n - 1]);
            assert(conn_entries(src@) =~= g.take(n - 1));
            if assoc_has(conn_entries(kept@), e.0) {
                let j = choose|j: int| n <= j < g.len() && g[j].0 == e.0;
                assert(g[n - 1].0 == g[j].0);
                assert(false);
            }
            lemma_assoc_push_fresh(conn_entries(kept@), e.0, e.1@);
        }
        let keep = if now >= e.1.last_recv {
            now - e.1.last_recv < e.1.timeout
        } else {
            true
        };
        let ghost e0 = e.0;
        if keep {
            let ghost kv = conn_entries(kept@);
            kept.push(e);
            proof {
                assert(conn_entries(kept@) =~= kv.push((g[n - 1].0, g[n - 1].1)));
            }
        }
        proof {
            assert forall|b: Addr|
                #[trigger] assoc_has(conn_entries(kept@), b) implies exists|j: int|
                src@.len() <= j < g.len() && #[trigger] g[j].0 == b by {
                if b == e0 {
                    assert(src@.len() <= n - 1 < g.len() && g[n - 1].0 == b);
                } else {
                    assert(assoc_has(kv0, b));
                    let j = choose|j: int| n <= j < g.len() && g[j].0 == b;
                    assert(src@.len() <= j < g.len() && g[j].0 == b);
                }
            }
        }
    }
    proof {
        assert(g.take(0) =~= Seq::<(Addr, ConnView)>::empty());
        assert forall|a: Addr|
            assoc_has(conn_entries(kept@), a) <==> (assoc_has(g, a) && now - assoc_get(
                g,
                a,
            ).last_recv < assoc_get(g, a).timeout) by {
            if assoc_has(g, a) {
                let j = crate::assoc::assoc_idx(g, a);
                lemma_assoc_at_v(g, j, a);
            }
            if assoc_has(conn_entries(kept@), a) {
                let j = choose|j: int| 0 <= j < g.len() && g[j].0 == a;
                lemma_assoc_at_v(g, j, a);
            }
        }
        assert forall|a: Addr|
            assoc_has(conn_entries(kept@), a) implies assoc_get(conn_entries(kept@), a)
            == assoc_get(g, a) by {
            let j = choose|j: int| 0 <= j < g.len() && g[j].0 == a;
            lemma_assoc_at_v(g, j, a);
        }
        assert forall|i: int|
            0 <= i < conn_entries(kept@).len() implies conn_wf(
            #[trigger] conn_entries(kept@)[i].1,
        ) by {
            let b = conn_entries(kept@)[i].0;
            lemma_assoc_at_v(conn_entries(kept@), i, b);
            let j = choose|j: int| 0 <= j < g.len() && g[j].0 == b;
            lemma_assoc_at_v(g, j, b);
        }
    }
    kept
}

} // verus!
