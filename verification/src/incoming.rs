//! Server-side admission: half-open handshakes and token history.
//!
//! A valid Request leaves a pending entry keyed by the sender's address and
//! a record of the token's tag bound to that address; a valid Response
//! promotes the pending entry. The token history enforces single binding: a
//! private token's tag is honored for at most one peer address, and a second
//! address presenting the same tag is refused.

use vstd::prelude::*;
use crate::addr::Addr;
use crate::assoc::{assoc_get, assoc_has, assoc_unique, lemma_assoc_absent, lemma_assoc_at_v,
    lemma_assoc_push_fresh, lemma_assoc_remove};
use crate::crypto::keygen;
use crate::protocol::{spec_encode_handshake, spec_request_valid, Packet, Request};
use crate::token::{challenge_wf, private_wf, spec_challenge_packet, ChallengeToken,
    ChallengeTokenView, PrivateToken, CHALLENGE_LEN};

verus! {

/// The mathematical content of a pending entry.
pub struct KeyPairView {
    pub expire: u64,
    pub timeout: u32,
    pub send_key: Seq<u8>,
    pub recv_key: Seq<u8>,
}

/// A pending entry whose keys can seal and open packets.
pub open spec fn kp_wf(v: KeyPairView) -> bool {
    v.send_key.len() == 32 && v.recv_key.len() == 32
}

/// The keys and deadline of one half-open handshake.
pub struct KeyPair {
    expire: u64,
    timeout: u32,
    send_key: Vec<u8>,
    recv_key: Vec<u8>,
}

impl View for KeyPair {
    type V = KeyPairView;

    closed spec fn view(&self) -> KeyPairView {
        KeyPairView {
            expire: self.expire,
            timeout: self.timeout,
            send_key: self.send_key@,
            recv_key: self.recv_key@,
        }
    }
}

impl KeyPair {
    /// Keys for one handshake, read out of the private token: the server
    /// sends under the token's server key and receives under its client key.
    pub fn new(expire: u64, token: &PrivateToken) -> (r: KeyPair)
        requires
            private_wf(token@),
        ensures
            kp_wf(r@),
            r@.expire == expire,
            r@.timeout == token@.timeout,
            r@.send_key == token@.server_key,
            r@.recv_key == token@.client_key,
    {
        KeyPair {
            expire,
            timeout: token.timeout(),
            send_key: vstd::slice::slice_to_vec(token.server_key().as_slice()),
            recv_key: vstd::slice::slice_to_vec(token.client_key().as_slice()),
        }
    }

    /// Key for sealing what goes to this peer.
    pub fn send_key(&self) -> (r: &Vec<u8>)
        ensures
            r@ == self@.send_key,
    {
        &self.send_key
    }

    /// Key for opening what this peer sent.
    pub fn recv_key(&self) -> (r: &Vec<u8>)
        ensures
            r@ == self@.recv_key,
    {
        &self.recv_key
    }

    /// Connection timeout in whole seconds.
    pub fn timeout_secs(&self) -> (r: u32)
        ensures
            r == self@.timeout,
    {
        self.timeout
    }

    /// Connection timeout in milliseconds.
    pub fn timeout(&self) -> (r: u64)
        ensures
            r == self@.timeout * 1000,
    {
        (self.timeout as u64) * 1000
    }
}

/// The server's admission state.
pub struct Incoming {
    protocol: u64,
    timestamp: u64,
    private: Vec<u8>,
    key: Vec<u8>,
    sequence: u64,
    pending: Vec<(Addr, KeyPair)>,
    token_history: Vec<(Vec<u8>, (Addr, u64))>,
}

/// The association form of a pending table.
pub open spec fn pending_entries(s: Seq<(Addr, KeyPair)>) -> Seq<(Addr, KeyPairView)> {
    s.map_values(|p: (Addr, KeyPair)| (p.0, p.1@))
}

/// The association form of a token-history table.
pub open spec fn history_entries(s: Seq<(Vec<u8>, (Addr, u64))>) -> Seq<(Seq<u8>, (Addr, u64))> {
    s.map_values(|p: (Vec<u8>, (Addr, u64))| (p.0@, p.1))
}

impl Incoming {
    /// The half-open handshakes, keyed by peer address.
    pub closed spec fn pending_view(&self) -> Seq<(Addr, KeyPairView)> {
        pending_entries(self.pending@)
    }

    /// The seen token tags, each bound to one address and an expiry.
    pub closed spec fn history_view(&self) -> Seq<(Seq<u8>, (Addr, u64))> {
        history_entries(self.token_history@)
    }

    pub closed spec fn spec_protocol(&self) -> u64 {
        self.protocol
    }

    pub closed spec fn spec_timestamp(&self) -> u64 {
        self.timestamp
    }

    /// The server-only challenge key, rotated at construction.
    pub closed spec fn spec_key(&self) -> Seq<u8> {
        self.key@
    }

    /// The server's long-term private key.
    pub closed spec fn spec_private(&self) -> Seq<u8> {
        self.private@
    }

    pub closed spec fn spec_sequence(&self) -> u64 {
        self.sequence
    }

    /// Unique keys in both tables, usable key material throughout.
    pub open spec fn wf(&self) -> bool {
        &&& assoc_unique(self.pending_view())
        &&& assoc_unique(self.history_view())
        &&& self.spec_key().len() == 32
        &&& self.spec_private().len() == 32
        &&& forall|i: int|
            0 <= i < self.pending_view().len() ==> kp_wf(#[trigger] self.pending_view()[i].1)
    }

    /// A fresh admission state for one protocol, holding the server's
    /// long-term key and a newly drawn challenge key.
    pub fn new(protocol: u64, private: Vec<u8>, now: u64) -> (r: Incoming)
        requires
            private@.len() == 32,
        ensures
            r.wf(),
            r.spec_protocol() == protocol,
            r.spec_timestamp() == now,
            r.pending_view().len() == 0,
            r.history_view().len() == 0,
    {
        Incoming {
            protocol,
            timestamp: now,
            private,
            key: keygen(),
            sequence: 0,
            pending: Vec::new(),
            token_history: Vec::new(),
        }
    }

    /// Validates a request against this server's protocol and clock and
    /// opens its token with the long-term key.
    pub fn open_request(&self, r: &Request) -> (out: Result<(u64, PrivateToken), ()>)
        requires
            crate::protocol::request_wf(r@),
            self.wf(),
        ensures
            out is Ok ==> spec_request_valid(r@, self.spec_protocol(), self.spec_timestamp())
                && private_wf(out.unwrap().1@) && out.unwrap().0 == r@.expire,
            forall|v: crate::token::PrivateTokenView|
                spec_request_valid(r@, self.spec_protocol(), self.spec_timestamp())
                    && private_wf(v) && r@.token == #[trigger] crate::crypto::xsealed_of(
                    self.spec_private(),
                    r@.nonce,
                    crate::token::xad_bytes(r@.protocol, r@.expire),
                    crate::token::private_bytes(v),
                ) ==> out is Ok && out.unwrap().1@ == v,
    {
        if !r.is_valid(self.protocol, self.timestamp) {
            return Err(());
        }
        match r.open_token(self.private.as_slice()) {
            Ok(tok) => Ok((r.expire(), tok)),
            Err(()) => Err(()),
        }
    }

    /// Opens a response from `addr` with its pending receive key, then the
    /// cookie inside with the server-only key. A cookie this server sealed
    /// and the peer echoed comes back intact, with the pending send key.
    pub fn open_response(
        &self,
        buf: &[u8],
        addr: Addr,
        seq: u64,
        prefix: u8,
        tag: &[u8],
    ) -> (r: Result<(Vec<u8>, ChallengeToken), ()>)
        requires
            self.wf(),
        ensures
            r is Ok ==> assoc_has(self.pending_view(), addr) && challenge_wf(r.unwrap().1@)
                && r.unwrap().0@ == assoc_get(self.pending_view(), addr).send_key,
            forall|s2: u64, v: ChallengeTokenView|
                assoc_has(self.pending_view(), addr) && challenge_wf(v) && buf@.len() == 8
                    + CHALLENGE_LEN && tag@.len() == 16 && buf@ + tag@
                    == #[trigger] crate::protocol::spec_seal(
                    self.spec_protocol(),
                    seq,
                    prefix,
                    assoc_get(self.pending_view(), addr).recv_key,
                    spec_challenge_packet(self.spec_key(), s2, v),
                ) ==> r is Ok && r.unwrap().1@ == v,
    {
        let i = match self.position(addr) {
            Some(i) => i,
            None => {
                return Err(());
            },
        };
        proof {
            lemma_assoc_at_v(self.pending_view(), i as int, addr);
            assert(self.pending_view()[i as int].1 == self.pending@[i as int].1@);
        }
        let pending = &self.pending[i].1;
        let opened = match Packet::open(
            self.protocol,
            buf,
            seq,
            prefix,
            tag,
            pending.recv_key.as_slice(),
        ) {
            Some(m) => m,
            None => {
                proof {
                    assert forall|s2: u64, v: ChallengeTokenView|
                        assoc_has(self.pending_view(), addr) && challenge_wf(v) && buf@.len() == 8
                            + CHALLENGE_LEN && tag@.len() == 16 && buf@ + tag@
                            == #[trigger] crate::protocol::spec_seal(
                            self.spec_protocol(),
                            seq,
                            prefix,
                            assoc_get(self.pending_view(), addr).recv_key,
                            spec_challenge_packet(self.spec_key(), s2, v),
                        ) implies false by {
                        assert(buf@ + tag@ == crate::protocol::spec_seal(
                            self.spec_protocol(),
                            seq,
                            prefix,
                            pending@.recv_key,
                            spec_challenge_packet(self.spec_key(), s2, v),
                        ));
                    }
                }
                return Err(());
            },
        };
        let token = match ChallengeToken::decode_packet(opened.as_slice(), self.key.as_slice()) {
            Ok(t) => t,
            Err(()) => {
                proof {
                    assert forall|s2: u64, v: ChallengeTokenView|
                        assoc_has(self.pending_view(), addr) && challenge_wf(v) && buf@.len() == 8
                            + CHALLENGE_LEN && tag@.len() == 16 && buf@ + tag@
                            == #[trigger] crate::protocol::spec_seal(
                            self.spec_protocol(),
                            seq,
                            prefix,
                            assoc_get(self.pending_view(), addr).recv_key,
                            spec_challenge_packet(self.spec_key(), s2, v),
                        ) implies false by {
                        assert(buf@ + tag@ == crate::protocol::spec_seal(
                            self.spec_protocol(),
                            seq,
                            prefix,
                            pending@.recv_key,
                            spec_challenge_packet(self.spec_key(), s2, v),
                        ));
                        assert(opened@ == spec_challenge_packet(self.spec_key(), s2, v));
                        assert(opened@.len() == 8 + CHALLENGE_LEN);
                    }
                }
                return Err(());
            },
        };
        proof {
            assert forall|s2: u64, v: ChallengeTokenView|
                assoc_has(self.pending_view(), addr) && challenge_wf(v) && buf@.len() == 8
                    + CHALLENGE_LEN && tag@.len() == 16 && buf@ + tag@
                    == #[trigger] crate::protocol::spec_seal(
                    self.spec_protocol(),
                    seq,
                    prefix,
                    assoc_get(self.pending_view(), addr).recv_key,
                    spec_challenge_packet(self.spec_key(), s2, v),
                ) implies token@ == v by {
                assert(buf@ + tag@ == crate::protocol::spec_seal(
                    self.spec_protocol(),
                    seq,
                    prefix,
                    pending@.recv_key,
                    spec_challenge_packet(self.spec_key(), s2, v),
                ));
                assert(opened@ == spec_challenge_packet(self.spec_key(), s2, v));
                assert(opened@.len() == 8 + CHALLENGE_LEN);
            }
        }
        Ok((vstd::slice::slice_to_vec(pending.send_key.as_slice()), token))
    }

    /// Finds the position of `addr` among the pending entries.
    fn position(&self, addr: Addr) -> (r: Option<usize>)
        ensures
            r is Some <==> assoc_has(self.pending_view(), addr),
            r is Some ==> 0 <= r.unwrap() < self.pending_view().len()
                && self.pending_view()[r.unwrap() as int].0 == addr,
    {
        let len = self.pending.len();
        let mut i: usize = 0;
        while i < len
            invariant
                i <= len,
                len == self.pending_view().len(),
                forall|j: int| 0 <= j < i ==> self.pending_view()[j].0 != addr,
            decreases len - i,
        {
            if self.pending[i].0 == addr {
                proof {
                    assert(self.pending_view()[i as int].0 == addr);
                }
                return Some(i);
            }
            proof {
                assert(self.pending_view()[i as int].0 == self.pending@[i as int].0);
            }
            i = i + 1;
        }
        None
    }

    /// Finds the position of `hmac` in the token history.
    fn history_position(&self, hmac: &[u8]) -> (r: Option<usize>)
        ensures
            r is Some <==> assoc_has(self.history_view(), hmac@),
            r is Some ==> 0 <= r.unwrap() < self.history_view().len()
                && self.history_view()[r.unwrap() as int].0 == hmac@,
    {
        let len = self.token_history.len();
        let mut i: usize = 0;
        while i < len
            invariant
                i <= len,
                len == self.history_view().len(),
                forall|j: int| 0 <= j < i ==> self.history_view()[j].0 != hmac@,
            decreases len - i,
        {
            if crate::bytes::bytes_eq(self.token_history[i].0.as_slice(), hmac) {
                proof {
                    assert(self.history_view()[i as int].0 == hmac@);
                }
                return Some(i);
            }
            proof {
                assert(self.history_view()[i as int].0 == self.token_history@[i as int].0@);
            }
            i = i + 1;
        }
        None
    }

    /// Seals a fresh challenge for this token's client and wraps it in a
    /// handshake packet under the token's server key, consuming one
    /// challenge sequence number.
    pub fn gen_challenge(&mut self, seq: u64, token: &PrivateToken) -> (r: Vec<u8>)
        requires
            old(self).wf(),
            private_wf(token@),
        ensures
            final(self).wf(),
            final(self).pending_view() == old(self).pending_view(),
            final(self).history_view() == old(self).history_view(),
            final(self).spec_protocol() == old(self).spec_protocol(),
            final(self).spec_timestamp() == old(self).spec_timestamp(),
            final(self).spec_key() == old(self).spec_key(),
            final(self).spec_private() == old(self).spec_private(),
            final(self).spec_sequence() == (if old(self).spec_sequence() == u64::MAX {
                0u64
            } else {
                (old(self).spec_sequence() + 1) as u64
            }),
            r@ == spec_encode_handshake(
                old(self).spec_protocol(),
                seq,
                token@.server_key,
                spec_challenge_packet(
                    old(self).spec_key(),
                    old(self).spec_sequence(),
                    ChallengeTokenView { client_id: token@.client_id, user: token@.user },
                ),
            ),
    {
        let challenge_seq = self.sequence;
        self.sequence = if self.sequence == u64::MAX {
            0
        } else {
            self.sequence + 1
        };
        let cookie = ChallengeToken::new(
            token.client_id(),
            vstd::slice::slice_to_vec(token.user().as_slice()),
        );
        let m = cookie.encode_packet(challenge_seq, self.key.as_slice());
        Packet::encode_handshake(self.protocol, seq, token.server_key().as_slice(), m.as_slice())
    }

    /// Takes a pending entry out, handing its keys to the caller.
    pub fn remove(&mut self, addr: &Addr) -> (r: Option<KeyPair>)
        requires
            old(self).wf(),
        ensures
            final(self).wf(),
            r is Some <==> assoc_has(old(self).pending_view(), *addr),
            r is Some ==> r.unwrap()@ == assoc_get(old(self).pending_view(), *addr),
            !assoc_has(final(self).pending_view(), *addr),
            forall|a: Addr|
                a != *addr ==> (assoc_has(final(self).pending_view(), a) == assoc_has(
                    old(self).pending_view(),
                    a,
                ) && (assoc_has(old(self).pending_view(), a) ==> assoc_get(
                    final(self).pending_view(),
                    a,
                ) == assoc_get(old(self).pending_view(), a))),
            final(self).history_view() == old(self).history_view(),
            final(self).spec_protocol() == old(self).spec_protocol(),
            final(self).spec_timestamp() == old(self).spec_timestamp(),
            final(self).spec_key() == old(self).spec_key(),
            final(self).spec_private() == old(self).spec_private(),
            final(self).spec_sequence() == old(self).spec_sequence(),
    {
        match self.position(*addr) {
            Some(i) => {
                proof {
                    lemma_assoc_at_v(self.pending_view(), i as int, *addr);
                }
                let (_, kp) = self.pending.remove(i);
                proof {
                    lemma_assoc_remove(old(self).pending_view(), i as int, *addr);
                    assert(self.pending_view() =~= old(self).pending_view().remove(i as int));
                }
                Some(kp)
            },
            None => {
                proof {
                    lemma_assoc_absent(self.pending_view(), *addr);
                }
                None
            },
        }
    }

    /// Installs a pending entry for `addr` with the token's keys, unless
    /// one is already there; an existing handshake is left alone.
    pub fn insert(&mut self, addr: Addr, expire: u64, token: &PrivateToken)
        requires
            old(self).wf(),
            private_wf(token@),
        ensures
            final(self).wf(),
            assoc_has(final(self).pending_view(), addr),
            !assoc_has(old(self).pending_view(), addr) ==> assoc_get(
                final(self).pending_view(),
                addr,
            ) == (KeyPairView {
                expire,
                timeout: token@.timeout,
                send_key: token@.server_key,
                recv_key: token@.client_key,
            }),
            assoc_has(old(self).pending_view(), addr) ==> final(self).pending_view() == old(
                self,
            ).pending_view(),
            forall|a: Addr|
                a != addr ==> (assoc_has(final(self).pending_view(), a) == assoc_has(
                    old(self).pending_view(),
                    a,
                ) && (assoc_has(old(self).pending_view(), a) ==> assoc_get(
                    final(self).pending_view(),
                    a,
                ) == assoc_get(old(self).pending_view(), a))),
            final(self).history_view() == old(self).history_view(),
            final(self).spec_protocol() == old(self).spec_protocol(),
            final(self).spec_timestamp() == old(self).spec_timestamp(),
            final(self).spec_key() == old(self).spec_key(),
            final(self).spec_private() == old(self).spec_private(),
            final(self).spec_sequence() == old(self).spec_sequence(),
    {
        match self.position(addr) {
            Some(_) => {},
            None => {
                let kp = KeyPair::new(expire, token);
                self.pending.push((addr, kp));
                proof {
                    assert(self.pending_view() =~= old(self).pending_view().push((addr, kp@)));
                    lemma_assoc_push_fresh(old(self).pending_view(), addr, kp@);
                    assert forall|i: int|
                        0 <= i < self.pending_view().len() implies kp_wf(
                        #[trigger] self.pending_view()[i].1,
                    ) by {
                        if i < old(self).pending_view().len() {
                            assert(self.pending_view()[i] == old(self).pending_view()[i]);
                            assert(kp_wf(old(self).pending_view()[i].1));
                        }
                    }
                }
            },
        }
    }

    /// Records that this token tag was first seen from `addr`: true when the
    /// tag is new or already bound to the same address, false when another
    /// address holds it. A tag is never re-bound.
    pub fn add_token_history(&mut self, hmac: Vec<u8>, addr: Addr, expire: u64) -> (r: bool)
        requires
            old(self).wf(),
        ensures
            final(self).wf(),
            r == (!assoc_has(old(self).history_view(), hmac@) || assoc_get(
                old(self).history_view(),
                hmac@,
            ).0 == addr),
            !assoc_has(old(self).history_view(), hmac@) ==> final(self).history_view() == old(
                self,
            ).history_view().push((hmac@, (addr, expire))),
            assoc_has(old(self).history_view(), hmac@) ==> final(self).history_view() == old(
                self,
            ).history_view(),
            final(self).pending_view() == old(self).pending_view(),
            final(self).spec_protocol() == old(self).spec_protocol(),
            final(self).spec_timestamp() == old(self).spec_timestamp(),
            final(self).spec_key() == old(self).spec_key(),
            final(self).spec_private() == old(self).spec_private(),
            final(self).spec_sequence() == old(self).spec_sequence(),
    {
        match self.history_position(hmac.as_slice()) {
            Some(i) => {
                proof {
                    lemma_assoc_at_v(self.history_view(), i as int, hmac@);
                }
                self.token_history[i].1.0 == addr
            },
            None => {
                proof {
                    lemma_assoc_push_fresh(self.history_view(), hmac@, (addr, expire));
                }
                self.token_history.push((hmac, (addr, expire)));
                proof {
                    assert(self.history_view() =~= old(self).history_view().push(
                        (hmac@, (addr, expire)),
                    ));
                }
                true
            },
        }
    }

    /// One tick: purges pending handshakes whose token has expired and
    /// history entries past their expiry, and moves the admission clock.
    /// An expired entry is gone from every later lookup.
    pub fn update(&mut self, now: u64)
        requires
            old(self).wf(),
        ensures
            final(self).wf(),
            final(self).spec_timestamp() == now,
            final(self).spec_protocol() == old(self).spec_protocol(),
            final(self).spec_key() == old(self).spec_key(),
            final(self).spec_private() == old(self).spec_private(),
            final(self).spec_sequence() == old(self).spec_sequence(),
            forall|a: Addr|
                assoc_has(final(self).pending_view(), a) <==> (assoc_has(
                    old(self).pending_view(),
                    a,
                ) && assoc_get(old(self).pending_view(), a).expire > now),
            forall|a: Addr|
                assoc_has(final(self).pending_view(), a) ==> assoc_get(
                    final(self).pending_view(),
                    a,
                ) == assoc_get(old(self).pending_view(), a),
            forall|h: Seq<u8>|
                assoc_has(final(self).history_view(), h) <==> (assoc_has(
                    old(self).history_view(),
                    h,
                ) && assoc_get(old(self).history_view(), h).1 > now),
            forall|h: Seq<u8>|
                assoc_has(final(self).history_view(), h) ==> assoc_get(
                    final(self).history_view(),
                    h,
                ) == assoc_get(old(self).history_view(), h),
    {
        self.timestamp = now;
        let mut p: Vec<(Addr, KeyPair)> = Vec::new();
        core::mem::swap(&mut self.pending, &mut p);
        self.pending = purge_pending(p, now);
        let mut h: Vec<(Vec<u8>, (Addr, u64))> = Vec::new();
        core::mem::swap(&mut self.token_history, &mut h);
        self.token_history = purge_history(h, now);
    }
}

/// Keeps exactly the pending entries whose token outlives `now`.
fn purge_pending(v: Vec<(Addr, KeyPair)>, now: u64) -> (r: Vec<(Addr, KeyPair)>)
    requires
        assoc_unique(pending_entries(v@)),
        forall|i: int|
            0 <= i < pending_entries(v@).len() ==> kp_wf(#[trigger] pending_entries(v@)[i].1),
    ensures
        assoc_unique(pending_entries(r@)),
        forall|i: int|
            0 <= i < pending_entries(r@).len() ==> kp_wf(#[trigger] pending_entries(r@)[i].1),
        forall|a: Addr|
            assoc_has(pending_entries(r@), a) <==> (assoc_has(pending_entries(v@), a)
                && assoc_get(pending_entries(v@), a).expire > now),
        forall|a: Addr|
            assoc_has(pending_entries(r@), a) ==> assoc_get(pending_entries(r@), a) == assoc_get(
                pending_entries(v@),
                a,
            ),
{
    let ghost g = pending_entries(v@);
    let mut src = v;
    let mut kept: Vec<(Addr, KeyPair)> = Vec::new();
    proof {
        assert(pending_entries(src@) =~= g.take(src@.len() as int));
        assert(pending_entries(kept@) =~= Seq::<(Addr, KeyPairView)>::empty());
    }
    while src.len() > 0
        invariant
            src@.len() <= g.len(),
            pending_entries(src@) =~= g.take(src@.len() as int),
            assoc_unique(g),
            forall|i: int| 0 <= i < g.len() ==> kp_wf(#[trigger] g[i].1),
            assoc_unique(pending_entries(kept@)),
            forall|b: Addr|
                #[trigger] assoc_has(pending_entries(kept@), b) ==> exists|j: int|
                    src@.len() <= j < g.len() && #[trigger] g[j].0 == b,
            forall|j: int|
                src@.len() <= j < g.len() ==> ((g[j].1.expire > now) <==> assoc_has(
                    pending_entries(kept@),
                    #[trigger] g[j].0,
                )),
            forall|j: int|
                src@.len() <= j < g.len() && g[j].1.expire > now ==> assoc_get(
                    pending_entries(kept@),
                    #[trigger] g[j].0,
                ) == g[j].1,
        decreases src@.len(),
    {
        let ghost prev = src@;
        let ghost n = prev.len() as int;
        let ghost kv0 = pending_entries(kept@);
        let e = src.pop().unwrap();
        proof {
            assert(pending_entries(prev)[n - 1] == (prev[n - 1].0, prev[n - 1].1@));
            assert(g.take(n)[n - 1] == g[n - 1]);
            assert((e.0, e.1@) == g[n - 1]);
            assert(pending_entries(src@) =~= g.take(n - 1));
            if assoc_has(pending_entries(kept@), e.0) {
                let j = choose|j: int| n <= j < g.len() && g[j].0 == e.0;
                assert(g[n - 1].0 == g[j].0);
                assert(false);
            }
            lemma_assoc_push_fresh(pending_entries(kept@), e.0, e.1@);
        }
        let keep = e.1.expire > now;
        let ghost e0 = e.0;
        if keep {
            let ghost kv = pending_entries(kept@);
            kept.push(e);
            proof {
                assert(pending_entries(kept@) =~= kv.push((g[n - 1].0, g[n - 1].1)));
            }
        }
        proof {
            assert forall|b: Addr|
                #[trigger] assoc_has(pending_entries(kept@), b) implies exists|j: int|
                src@.len() <= j < g.len() && #[trigger] g[j].0 == b by {
                if b == e0 {
                    assert(src@.len() <= n - 1 < g.len() && g[n - 1].0 == b);
                } else {
                    assert(assoc_has(kv0, b));
                    let j = choose|j: int| n <= j < g.len() && g[j].0 == b;
                    assert(src@.len() <= j < g.len() && g[j].0 == b);
                }
            }
        }
    }
    proof {
        assert(g.take(0) =~= Seq::<(Addr, KeyPairView)>::empty());
        assert forall|a: Addr|
            assoc_has(pending_entries(kept@), a) <==> (assoc_has(g, a) && assoc_get(g, a).expire
                > now) by {
            if assoc_has(g, a) {
                let j = crate::assoc::assoc_idx(g, a);
                lemma_assoc_at_v(g, j, a);
            }
            if assoc_has(pending_entries(kept@), a) {
                let j = choose|j: int| 0 <= j < g.len() && g[j].0 == a;
                lemma_assoc_at_v(g, j, a);
            }
        }
        assert forall|a: Addr|
            assoc_has(pending_entries(kept@), a) implies assoc_get(pending_entries(kept@), a)
            == assoc_get(g, a) by {
            let j = choose|j: int| 0 <= j < g.len() && g[j].0 == a;
            lemma_assoc_at_v(g, j, a);
        }
        assert forall|i: int|
            0 <= i < pending_entries(kept@).len() implies kp_wf(
            #[trigger] pending_entries(kept@)[i].1,
        ) by {
            let b = pending_entries(kept@)[i].0;
            lemma_assoc_at_v(pending_entries(kept@), i, b);
            let j = choose|j: int| 0 <= j < g.len() && g[j].0 == b;
            lemma_assoc_at_v(g, j, b);
        }
    }
    kept
}

/// Keeps exactly the history entries that outlive `now`.
fn purge_history(v: Vec<(Vec<u8>, (Addr, u64))>, now: u64) -> (r: Vec<(Vec<u8>, (Addr, u64))>)
    requires
        assoc_unique(history_entries(v@)),
    ensures
        assoc_unique(history_entries(r@)),
        forall|h: Seq<u8>|
            assoc_has(history_entries(r@), h) <==> (assoc_has(history_entries(v@), h)
                && assoc_get(history_entries(v@), h).1 > now),
        forall|h: Seq<u8>|
            assoc_has(history_entries(r@), h) ==> assoc_get(history_entries(r@), h) == assoc_get(
                history_entries(v@),
                h,
            ),
{
    let ghost g = history_entries(v@);
    let mut src = v;
    let mut kept: Vec<(Vec<u8>, (Addr, u64))> = Vec::new();
    proof {
        assert(history_entries(src@) =~= g.take(src@.len() as int));
        assert(history_entries(kept@) =~= Seq::<(Seq<u8>, (Addr, u64))>::empty());
    }
    while src.len() > 0
        invariant
            src@.len() <= g.len(),
            history_entries(src@) =~= g.take(src@.len() as int),
            assoc_unique(g),
            assoc_unique(history_entries(kept@)),
            forall|b: Seq<u8>|
                #[trigger] assoc_has(history_entries(kept@), b) ==> exists|j: int|
                    src@.len() <= j < g.len() && #[trigger] g[j].0 == b,
            forall|j: int|
                src@.len() <= j < g.len() ==> ((g[j].1.1 > now) <==> assoc_has(
                    history_entries(kept@),
                    #[trigger] g[j].0,
                )),
            forall|j: int|
                src@.len() <= j < g.len() && g[j].1.1 > now ==> assoc_get(
                    history_entries(kept@),
                    #[trigger] g[j].0,
                ) == g[j].1,
        decreases src@.len(),
    {
        let ghost prev = src@;
        let ghost n = prev.len() as int;
        let ghost kv0 = history_entries(kept@);
        let e = src.pop().unwrap();
        proof {
            assert(history_entries(prev)[n - 1] == (prev[n - 1].0@, prev[n - 1].1));
            assert(g.take(n)[n - 1] == g[n - 1]);
            assert((e.0@, e.1) == g[n - 1]);
            assert(history_entries(src@) =~= g.take(n - 1));
            if assoc_has(history_entries(kept@), e.0@) {
                let j = choose|j: int| n <= j < g.len() && g[j].0 == e.0@;
                assert(g[n - 1].0 == g[j].0);
                assert(false);
            }
            lemma_assoc_push_fresh(history_entries(kept@), e.0@, e.1);
        }
        let keep = e.1.1 > now;
        let ghost e0 = e.0@;
        if keep {
            let ghost kv = history_entries(kept@);
            kept.push(e);
            proof {
                assert(history_entries(kept@) =~= kv.push((g[n - 1].0, g[n - 1].1)));
            }
        }
        proof {
            assert forall|b: Seq<u8>|
                #[trigger] assoc_has(history_entries(kept@), b) implies exists|j: int|
                src@.len() <= j < g.len() && #[trigger] g[j].0 == b by {
                if b == e0 {
                    assert(src@.len() <= n - 1 < g.len() && g[n - 1].0 == b);
                } else {
                    assert(assoc_has(kv0, b));
                    let j = choose|j: int| n <= j < g.len() && g[j].0 == b;
                    assert(src@.len() <= j < g.len() && g[j].0 == b);
                }
            }
        }
    }
    proof {
        assert(g.take(0) =~= Seq::<(Seq<u8>, (Addr, u64))>::empty());
        assert forall|h: Seq<u8>|
            assoc_has(history_entries(kept@), h) <==> (assoc_has(g, h) && assoc_get(g, h).1
                > now) by {
            if assoc_has(g, h) {
                let j = crate::assoc::assoc_idx(g, h);
                lemma_assoc_at_v(g, j, h);
            }
            if assoc_has(history_entries(kept@), h) {
                let j = choose|j: int| 0 <= j < g.len() && g[j].0 == h;
                lemma_assoc_at_v(g, j, h);
            }
        }
        assert forall|h: Seq<u8>|
            assoc_has(history_entries(kept@), h) implies assoc_get(history_entries(kept@), h)
            == assoc_get(g, h) by {
            let j = choose|j: int| 0 <= j < g.len() && g[j].0 == h;
            lemma_assoc_at_v(g, j, h);
        }
    }
    kept
}

/// Single binding of tokens: a tag recorded for one address is honored for
/// that address and refused for every other, whatever came before or after.
pub proof fn lemma_token_single_binding(
    h: Seq<(Seq<u8>, (Addr, u64))>,
    hmac: Seq<u8>,
    first: Addr,
    second: Addr,
    expire: u64,
)
    requires
        assoc_unique(h),
        !assoc_has(h, hmac),
        first != second,
    ensures
        ({
            let h2 = h.push((hmac, (first, expire)));
            &&& assoc_has(h2, hmac)
            &&& assoc_get(h2, hmac).0 == first
            &&& !(!assoc_has(h2, hmac) || assoc_get(h2, hmac).0 == second)
        }),
{
    lemma_assoc_push_fresh(h, hmac, (first, expire));
}

} // verus!
