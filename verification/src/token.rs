//! The three layered credentials.
//!
//! A `PublicToken` is what the issuer hands the client; inside it sits a
//! sealed `PrivateToken` that only the server's long-term key can open; a
//! `ChallengeToken` is the opaque cookie the server mints during the
//! handshake and the client echoes back verbatim.

use vstd::prelude::*;
use crate::addr::Addr;
use crate::bytes::{le_bytes, le_value, lemma_le_bytes_len, lemma_le_round_trip_small,
    lemma_pow256_values, push_bytes, push_zero, read_le, write_le, zero_bytes};
use crate::crypto::{keygen, nonce_gen, xaead_open, xaead_seal, xsealed_of};
use crate::protocol::spec_version;

verus! {

/// Opaque data bytes carried by a private token.
pub const DATA: usize = 512;

/// User data bytes carried by private and challenge tokens.
pub const USER: usize = 256;

/// The sealed private token blob on the wire.
pub const PRIVATE_LEN: usize = 1024;

/// The private token plaintext: `PRIVATE_LEN` less the tag.
pub const PRIVATE_PLAIN: usize = 1008;

/// Most server addresses one token may carry.
pub const MAX_SERVERS_PER_CONNECT: usize = 8;

/// The sealed challenge token: client id, user data, tag.
pub const CHALLENGE_LEN: usize = 280;

/// The wire form of one address slot.
pub open spec fn addr_slot_bytes(a: Addr) -> Seq<u8> {
    seq![if a.v6 { 6u8 } else { 4u8 }] + le_bytes(a.ip_lo as int, 8) + le_bytes(a.ip_hi as int, 8)
        + le_bytes(a.port as int, 2)
}

/// The wire form of a whole address list, slot after slot.
pub open spec fn addr_slots(addrs: Seq<Addr>) -> Seq<u8>
    decreases addrs.len(),
{
    if addrs.len() == 0 {
        Seq::empty()
    } else {
        addr_slot_bytes(addrs[0]) + addr_slots(addrs.drop_first())
    }
}

pub proof fn lemma_addr_slot_len(a: Addr)
    ensures
        addr_slot_bytes(a).len() == 19,
{
    lemma_le_bytes_len(a.ip_lo as int, 8);
    lemma_le_bytes_len(a.ip_hi as int, 8);
    lemma_le_bytes_len(a.port as int, 2);
}

pub proof fn lemma_addr_slots_len(addrs: Seq<Addr>)
    ensures
        addr_slots(addrs).len() == 19 * addrs.len(),
    decreases addrs.len(),
{
    if addrs.len() > 0 {
        lemma_addr_slot_len(addrs[0]);
        lemma_addr_slots_len(addrs.drop_first());
    }
}

/// Each slot sits at its own offset in the flattened list.
pub proof fn lemma_addr_slots_index(addrs: Seq<Addr>, i: int)
    requires
        0 <= i < addrs.len(),
    ensures
        addr_slots(addrs).subrange(19 * i, 19 * i + 19) == addr_slot_bytes(addrs[i]),
    decreases i,
{
    lemma_addr_slots_len(addrs);
    lemma_addr_slot_len(addrs[0]);
    lemma_addr_slots_len(addrs.drop_first());
    if i == 0 {
        assert(addr_slots(addrs).subrange(0, 19) =~= addr_slot_bytes(addrs[0]));
    } else {
        lemma_addr_slots_index(addrs.drop_first(), i - 1);
        assert(addr_slots(addrs).subrange(19 * i, 19 * i + 19) =~= addr_slots(
            addrs.drop_first(),
        ).subrange(19 * (i - 1), 19 * (i - 1) + 19));
    }
}

/// The fields of one slot, at their offsets.
pub proof fn lemma_addr_slot_layout(a: Addr)
    ensures
        addr_slot_bytes(a).len() == 19,
        addr_slot_bytes(a)[0] == if a.v6 {
            6u8
        } else {
            4u8
        },
        addr_slot_bytes(a).subrange(1, 9) == le_bytes(a.ip_lo as int, 8),
        addr_slot_bytes(a).subrange(9, 17) == le_bytes(a.ip_hi as int, 8),
        addr_slot_bytes(a).subrange(17, 19) == le_bytes(a.port as int, 2),
{
    lemma_addr_slot_len(a);
    lemma_le_bytes_len(a.ip_lo as int, 8);
    lemma_le_bytes_len(a.ip_hi as int, 8);
    lemma_le_bytes_len(a.port as int, 2);
    assert(addr_slot_bytes(a).subrange(1, 9) =~= le_bytes(a.ip_lo as int, 8));
    assert(addr_slot_bytes(a).subrange(9, 17) =~= le_bytes(a.ip_hi as int, 8));
    assert(addr_slot_bytes(a).subrange(17, 19) =~= le_bytes(a.port as int, 2));
}

/// The mathematical content of a private token.
pub struct PrivateTokenView {
    pub client_id: u64,
    pub timeout: u32,
    pub addrs: Seq<Addr>,
    pub client_key: Seq<u8>,
    pub server_key: Seq<u8>,
    pub user: Seq<u8>,
    pub data: Seq<u8>,
}

/// A private token that can go on the wire.
pub open spec fn private_wf(v: PrivateTokenView) -> bool {
    &&& 1 <= v.addrs.len() <= 8
    &&& v.client_key.len() == 32
    &&& v.server_key.len() == 32
    &&& v.user.len() == USER
    &&& v.data.len() == DATA
}

/// The 1008-byte plaintext of a private token.
pub open spec fn private_bytes(v: PrivateTokenView) -> Seq<u8> {
    le_bytes(v.client_id as int, 8) + le_bytes(v.timeout as int, 4) + seq![v.addrs.len() as u8]
        + addr_slots(v.addrs) + zero_bytes((19 * (8 - v.addrs.len())) as nat) + v.client_key
        + v.server_key + v.user + v.data + zero_bytes(11)
}

/// The fields of the plaintext, at their offsets.
pub proof fn lemma_private_bytes_layout(v: PrivateTokenView)
    requires
        private_wf(v),
    ensures
        private_bytes(v).len() == PRIVATE_PLAIN,
        private_bytes(v).subrange(0, 8) == le_bytes(v.client_id as int, 8),
        private_bytes(v).subrange(8, 12) == le_bytes(v.timeout as int, 4),
        private_bytes(v)[12] == v.addrs.len() as u8,
        forall|i: int|
            0 <= i < v.addrs.len() ==> #[trigger] private_bytes(v).subrange(
                13 + 19 * i,
                13 + 19 * i + 19,
            ) == addr_slot_bytes(v.addrs[i]),
        private_bytes(v).subrange(165, 197) == v.client_key,
        private_bytes(v).subrange(197, 229) == v.server_key,
        private_bytes(v).subrange(229, 485) == v.user,
        private_bytes(v).subrange(485, 997) == v.data,
{
    let b = private_bytes(v);
    lemma_le_bytes_len(v.client_id as int, 8);
    lemma_le_bytes_len(v.timeout as int, 4);
    lemma_addr_slots_len(v.addrs);
    assert(b.len() == PRIVATE_PLAIN);
    assert(b.subrange(0, 8) =~= le_bytes(v.client_id as int, 8));
    assert(b.subrange(8, 12) =~= le_bytes(v.timeout as int, 4));
    assert forall|i: int| 0 <= i < v.addrs.len() implies #[trigger] b.subrange(
        13 + 19 * i,
        13 + 19 * i + 19,
    ) == addr_slot_bytes(v.addrs[i]) by {
        lemma_addr_slots_index(v.addrs, i);
        assert(b.subrange(13 + 19 * i, 13 + 19 * i + 19) =~= addr_slots(v.addrs).subrange(
            19 * i,
            19 * i + 19,
        ));
    }
    assert(b.subrange(165, 197) =~= v.client_key);
    assert(b.subrange(197, 229) =~= v.server_key);
    assert(b.subrange(229, 485) =~= v.user);
    assert(b.subrange(485, 997) =~= v.data);
}

/// Associated data that binds a sealed private token to the version magic,
/// the protocol id and the expiry timestamp.
pub open spec fn xad_bytes(protocol: u64, expire: u64) -> Seq<u8> {
    spec_version() + le_bytes(protocol as int, 8) + le_bytes(expire as int, 8)
}

/// Whether `blob` is a valid seal of some plaintext under this key, nonce,
/// protocol and expiry: what a successful decryption guarantees of its
/// input.
pub open spec fn is_sealed_private(
    key: Seq<u8>,
    nonce: Seq<u8>,
    protocol: u64,
    expire: u64,
    blob: Seq<u8>,
) -> bool {
    exists|m: Seq<u8>| blob == #[trigger] xsealed_of(key, nonce, xad_bytes(protocol, expire), m)
}

/// Builds the token associated data.
pub fn build_xad(protocol: u64, expire: u64) -> (r: Vec<u8>)
    ensures
        r@ == xad_bytes(protocol, expire),
        r@.len() == 20,
{
    let mut v = crate::protocol::version_bytes();
    write_le(&mut v, protocol, 8);
    write_le(&mut v, expire, 8);
    proof {
        lemma_le_bytes_len(protocol as int, 8);
        lemma_le_bytes_len(expire as int, 8);
        assert(v@ =~= xad_bytes(protocol, expire));
    }
    v
}

/// What one address slot of a buffer parses to, if anything.
pub open spec fn spec_parse_slot(b: Seq<u8>, off: int) -> Option<Addr> {
    if b[off] == 4 || b[off] == 6 {
        Some(
            Addr {
                v6: b[off] == 6,
                ip_lo: le_value(b.subrange(off + 1, off + 9)) as u64,
                ip_hi: le_value(b.subrange(off + 9, off + 17)) as u64,
                port: le_value(b.subrange(off + 17, off + 19)) as u16,
            },
        )
    } else {
        None
    }
}

/// The server-decryptable inner credential.
pub struct PrivateToken {
    client_id: u64,
    timeout: u32,
    addrs: Vec<Addr>,
    client_key: Vec<u8>,
    server_key: Vec<u8>,
    user: Vec<u8>,
    data: Vec<u8>,
}

impl View for PrivateToken {
    type V = PrivateTokenView;

    closed spec fn view(&self) -> PrivateTokenView {
        PrivateTokenView {
            client_id: self.client_id,
            timeout: self.timeout,
            addrs: self.addrs@,
            client_key: self.client_key@,
            server_key: self.server_key@,
            user: self.user@,
            data: self.data@,
        }
    }
}

impl PrivateToken {
    /// A fresh private token with newly drawn session keys.
    pub fn generate(client_id: u64, timeout: u32, addrs: Vec<Addr>, user: Vec<u8>, data: Vec<
        u8,
    >) -> (r: PrivateToken)
        requires
            1 <= addrs@.len() <= 8,
            user@.len() == USER,
            data@.len() == DATA,
        ensures
            private_wf(r@),
            r@.client_id == client_id,
            r@.timeout == timeout,
            r@.addrs == addrs@,
            r@.user == user@,
            r@.data == data@,
    {
        PrivateToken {
            client_id,
            timeout,
            addrs,
            client_key: keygen(),
            server_key: keygen(),
            user,
            data,
        }
    }

    /// The client this token was minted for.
    pub fn client_id(&self) -> (r: u64)
        ensures
            r == self@.client_id,
    {
        self.client_id
    }

    /// Connection timeout in seconds.
    pub fn timeout(&self) -> (r: u32)
        ensures
            r == self@.timeout,
    {
        self.timeout
    }

    /// The servers this token may be presented to.
    pub fn addrs(&self) -> (r: &Vec<Addr>)
        ensures
            r@ == self@.addrs,
    {
        &self.addrs
    }

    /// Client-to-server session key.
    pub fn client_key(&self) -> (r: &Vec<u8>)
        ensures
            r@ == self@.client_key,
    {
        &self.client_key
    }

    /// Server-to-client session key.
    pub fn server_key(&self) -> (r: &Vec<u8>)
        ensures
            r@ == self@.server_key,
    {
        &self.server_key
    }

    /// User data, echoed into the challenge token.
    pub fn user(&self) -> (r: &Vec<u8>)
        ensures
            r@ == self@.user,
    {
        &self.user
    }

    /// Opaque data bytes.
    pub fn data(&self) -> (r: &Vec<u8>)
        ensures
            r@ == self@.data,
    {
        &self.data
    }

    /// Serializes the token into its 1008-byte plaintext.
    pub fn write(&self) -> (r: Vec<u8>)
        requires
            private_wf(self@),
        ensures
            r@ == private_bytes(self@),
            r@.len() == PRIVATE_PLAIN,
    {
        let mut out: Vec<u8> = Vec::new();
        write_le(&mut out, self.client_id, 8);
        write_le(&mut out, self.timeout as u64, 4);
        let count = self.addrs.len();
        out.push(count as u8);
        let mut i: usize = 0;
        proof {
            lemma_addr_slots_len(self@.addrs);
            assert(addr_slots(self@.addrs.take(0)) =~= Seq::<u8>::empty());
            assert(out@ =~= le_bytes(self@.client_id as int, 8) + le_bytes(
                self@.timeout as int,
                4,
            ) + seq![count as u8] + addr_slots(self@.addrs.take(0)));
        }
        while i < count
            invariant
                i <= count,
                count == self@.addrs.len(),
                1 <= count <= 8,
                private_wf(self@),
                out@ == le_bytes(self@.client_id as int, 8) + le_bytes(self@.timeout as int, 4)
                    + seq![count as u8] + addr_slots(self@.addrs.take(i as int)),
            decreases count - i,
        {
            let a = self.addrs[i];
            out.push(if a.v6 {
                6
            } else {
                4
            });
            write_le(&mut out, a.ip_lo, 8);
            write_le(&mut out, a.ip_hi, 8);
            write_le(&mut out, a.port as u64, 2);
            proof {
                lemma_addr_slots_snoc(self@.addrs, i as int);
            }
            i = i + 1;
        }
        push_zero(&mut out, 19 * (8 - count));
        push_bytes(&mut out, self.client_key.as_slice());
        push_bytes(&mut out, self.server_key.as_slice());
        push_bytes(&mut out, self.user.as_slice());
        push_bytes(&mut out, self.data.as_slice());
        push_zero(&mut out, 11);
        proof {
            assert(self@.addrs.take(count as int) =~= self@.addrs);
            assert(out@ =~= private_bytes(self@));
            lemma_private_bytes_layout(self@);
        }
        out
    }

    /// Parses a 1008-byte plaintext back into a token. Whatever `write`
    /// produced parses back to the very token it came from.
    pub fn read(buf: &[u8]) -> (r: Option<PrivateToken>)
        ensures
            r is Some ==> private_wf(r.unwrap()@),
            forall|v: PrivateTokenView|
                private_wf(v) && buf@ == #[trigger] private_bytes(v) ==> r is Some
                    && r.unwrap()@ == v,
    {
        proof {
            lemma_pow256_values();
        }
        if buf.len() != PRIVATE_PLAIN {
            proof {
                assert forall|v: PrivateTokenView|
                    private_wf(v) && buf@ == #[trigger] private_bytes(v) implies false by {
                    lemma_private_bytes_layout(v);
                }
            }
            return None;
        }
        let client_id = read_le(buf, 0, 8);
        let timeout = read_le(buf, 8, 4) as u32;
        let count = buf[12];
        if count < 1 || count > 8 {
            proof {
                assert forall|v: PrivateTokenView|
                    private_wf(v) && buf@ == #[trigger] private_bytes(v) implies false by {
                    lemma_private_bytes_layout(v);
                }
            }
            return None;
        }
        let countu = count as usize;
        let mut addrs: Vec<Addr> = Vec::new();
        let mut i: usize = 0;
        while i < countu
            invariant
                i <= countu,
                1 <= countu <= 8,
                countu == buf@[12],
                buf@.len() == PRIVATE_PLAIN,
                addrs@.len() == i,
                forall|j: int|
                    0 <= j < i ==> #[trigger] spec_parse_slot(buf@, 13 + 19 * j) == Some(
                        addrs@[j],
                    ),
            decreases countu - i,
        {
            let off = 13 + 19 * i;
            let kind = buf[off];
            if kind != 4 && kind != 6 {
                proof {
                    assert forall|v: PrivateTokenView|
                        private_wf(v) && buf@ == #[trigger] private_bytes(v) implies false by {
                        lemma_private_bytes_layout(v);
                        assert(buf@[12] == v.addrs.len() as u8);
                        assert(i < v.addrs.len());
                        lemma_addr_slot_layout(v.addrs[i as int]);
                        assert(buf@.subrange(13 + 19 * i, 13 + 19 * i + 19) == addr_slot_bytes(
                            v.addrs[i as int],
                        ));
                        assert(buf@[13 + 19 * i] == buf@.subrange(
                            13 + 19 * i,
                            13 + 19 * i + 19,
                        )[0]);
                    }
                }
                return None;
            }
            let ip_lo = read_le(buf, off + 1, 8);
            let ip_hi = read_le(buf, off + 9, 8);
            let port = read_le(buf, off + 17, 2) as u16;
            let a = Addr { v6: kind == 6, ip_lo, ip_hi, port };
            addrs.push(a);
            proof {
                assert(spec_parse_slot(buf@, 13 + 19 * i) == Some(a));
            }
            i = i + 1;
        }
        let client_key = vstd::slice::slice_to_vec(vstd::slice::slice_subrange(buf, 165, 197));
        let server_key = vstd::slice::slice_to_vec(vstd::slice::slice_subrange(buf, 197, 229));
        let user = vstd::slice::slice_to_vec(vstd::slice::slice_subrange(buf, 229, 485));
        let data = vstd::slice::slice_to_vec(vstd::slice::slice_subrange(buf, 485, 997));
        let r = PrivateToken {
            client_id,
            timeout,
            addrs,
            client_key,
            server_key,
            user,
            data,
        };
        proof {
            assert forall|v: PrivateTokenView|
                private_wf(v) && buf@ == #[trigger] private_bytes(v) implies r@ == v by {
                lemma_private_bytes_layout(v);
                lemma_le_round_trip_small(v.client_id as int, 8);
                lemma_le_round_trip_small(v.timeout as int, 4);
                assert(r@.client_id == v.client_id);
                assert(r@.timeout == v.timeout);
                assert(r@.addrs.len() == v.addrs.len());
                assert forall|j: int| 0 <= j < v.addrs.len() implies r@.addrs[j] == v.addrs[j] by {
                    let a = v.addrs[j];
                    lemma_addr_slot_layout(a);
                    let slot = addr_slot_bytes(a);
                    assert(buf@.subrange(13 + 19 * j, 13 + 19 * j + 19) == slot);
                    assert(buf@[13 + 19 * j] == buf@.subrange(13 + 19 * j, 13 + 19 * j + 19)[0]);
                    assert(buf@[13 + 19 * j] == slot[0]);
                    assert(buf@.subrange(13 + 19 * j + 1, 13 + 19 * j + 9) =~= slot.subrange(
                        1,
                        9,
                    ));
                    assert(buf@.subrange(13 + 19 * j + 9, 13 + 19 * j + 17) =~= slot.subrange(
                        9,
                        17,
                    ));
                    assert(buf@.subrange(13 + 19 * j + 17, 13 + 19 * j + 19) =~= slot.subrange(
                        17,
                        19,
                    ));
                    lemma_le_round_trip_small(a.ip_lo as int, 8);
                    lemma_le_round_trip_small(a.ip_hi as int, 8);
                    lemma_le_round_trip_small(a.port as int, 2);
                    assert(spec_parse_slot(buf@, 13 + 19 * j) == Some(a));
                }
                assert(r@.addrs =~= v.addrs);
                assert(r@.client_key =~= v.client_key);
                assert(r@.server_key =~= v.server_key);
                assert(r@.user =~= v.user);
                assert(r@.data =~= v.data);
            }
        }
        Some(r)
    }

    /// Seals the token: the 1024-byte encrypted blob bound to version,
    /// protocol and expiry.
    pub fn encrypt(&self, protocol: u64, expire: u64, nonce: &[u8], key: &[u8]) -> (r: Vec<u8>)
        requires
            private_wf(self@),
            nonce@.len() == 24,
            key@.len() == 32,
        ensures
            r@ == xsealed_of(key@, nonce@, xad_bytes(protocol, expire), private_bytes(self@)),
            r@.len() == PRIVATE_LEN,
    {
        let plain = self.write();
        let ad = build_xad(protocol, expire);
        xaead_seal(key, nonce, ad.as_slice(), plain.as_slice())
    }

    /// Opens a 1024-byte blob and parses what it held. Fails on a wrong
    /// key, a tampered blob, or a mismatched protocol or expiry.
    pub fn decrypt(blob: &[u8], protocol: u64, expire: u64, nonce: &[u8], key: &[u8]) -> (r:
        Result<PrivateToken, ()>)
        requires
            nonce@.len() == 24,
            key@.len() == 32,
        ensures
            r is Ok ==> private_wf(r.unwrap()@),
            r is Ok ==> is_sealed_private(key@, nonce@, protocol, expire, blob@),
            forall|v: PrivateTokenView|
                private_wf(v) && blob@ == #[trigger] xsealed_of(
                    key@,
                    nonce@,
                    xad_bytes(protocol, expire),
                    private_bytes(v),
                ) ==> r is Ok && r.unwrap()@ == v,
    {
        let ad = build_xad(protocol, expire);
        match xaead_open(key, nonce, ad.as_slice(), blob) {
            Some(plain) => {
                proof {
                    assert(blob@ == xsealed_of(key@, nonce@, xad_bytes(protocol, expire), plain@));
                }
                match PrivateToken::read(plain.as_slice()) {
                    Some(t) => Ok(t),
                    None => Err(()),
                }
            },
            None => Err(()),
        }
    }
}

/// The mathematical content of a challenge token.
pub struct ChallengeTokenView {
    pub client_id: u64,
    pub user: Seq<u8>,
}

/// A challenge token that can go on the wire.
pub open spec fn challenge_wf(v: ChallengeTokenView) -> bool {
    v.user.len() == USER
}

/// The 264-byte plaintext of a challenge token.
pub open spec fn challenge_plain(v: ChallengeTokenView) -> Seq<u8> {
    le_bytes(v.client_id as int, 8) + v.user
}

/// A whole challenge packet body: the challenge sequence in clear, then the
/// token sealed under the server-only key with that sequence as nonce.
pub open spec fn spec_challenge_packet(key: Seq<u8>, seq: u64, v: ChallengeTokenView) -> Seq<
    u8,
> {
    le_bytes(seq as int, 8) + crate::crypto::sealed_of(
        key,
        crate::protocol::nonce_bytes(seq),
        Seq::<u8>::empty(),
        challenge_plain(v),
    )
}

/// The handshake cookie: minted by the server, opaque to the client, echoed
/// back verbatim.
pub struct ChallengeToken {
    client_id: u64,
    user: Vec<u8>,
}

impl View for ChallengeToken {
    type V = ChallengeTokenView;

    closed spec fn view(&self) -> ChallengeTokenView {
        ChallengeTokenView { client_id: self.client_id, user: self.user@ }
    }
}

impl ChallengeToken {
    /// A cookie for this client.
    pub fn new(client_id: u64, user: Vec<u8>) -> (r: ChallengeToken)
        requires
            user@.len() == USER,
        ensures
            challenge_wf(r@),
            r@.client_id == client_id,
            r@.user == user@,
    {
        ChallengeToken { client_id, user }
    }

    /// The client the cookie names.
    pub fn client_id(&self) -> (r: u64)
        ensures
            r == self@.client_id,
    {
        self.client_id
    }

    /// User data carried through the handshake.
    pub fn user(&self) -> (r: &Vec<u8>)
        ensures
            r@ == self@.user,
    {
        &self.user
    }

    /// Seals the cookie into a challenge packet body under the server-only
    /// key, with the challenge sequence as nonce and in clear prefix.
    pub fn encode_packet(&self, seq: u64, key: &[u8]) -> (r: Vec<u8>)
        requires
            challenge_wf(self@),
            key@.len() == 32,
        ensures
            r@ == spec_challenge_packet(key@, seq, self@),
            r@.len() == 8 + CHALLENGE_LEN,
    {
        let mut plain: Vec<u8> = Vec::new();
        write_le(&mut plain, self.client_id, 8);
        push_bytes(&mut plain, self.user.as_slice());
        proof {
            lemma_le_bytes_len(self@.client_id as int, 8);
            assert(plain@ =~= challenge_plain(self@));
        }
        let nonce = crate::protocol::build_nonce(seq);
        let ad: Vec<u8> = Vec::new();
        let sealed = crate::crypto::aead_seal(key, nonce.as_slice(), ad.as_slice(), plain.as_slice());
        let mut out: Vec<u8> = Vec::new();
        write_le(&mut out, seq, 8);
        push_bytes(&mut out, sealed.as_slice());
        proof {
            lemma_le_bytes_len(self@.client_id as int, 8);
            lemma_le_bytes_len(seq as int, 8);
            assert(plain@ =~= challenge_plain(self@));
            assert(ad@ =~= Seq::<u8>::empty());
            assert(out@ =~= spec_challenge_packet(key@, seq, self@));
        }
        out
    }

    /// Opens a challenge packet body and reads the cookie back. What
    /// `encode_packet` sealed decodes to the very cookie it came from.
    pub fn decode_packet(buf: &[u8], key: &[u8]) -> (r: Result<ChallengeToken, ()>)
        requires
            key@.len() == 32,
        ensures
            r is Ok ==> challenge_wf(r.unwrap()@),
            forall|s: u64, v: ChallengeTokenView|
                challenge_wf(v) && buf@.len() == 8 + CHALLENGE_LEN && buf@
                    == #[trigger] spec_challenge_packet(key@, s, v) ==> r is Ok && r.unwrap()@
                    == v,
    {
        proof {
            lemma_pow256_values();
        }
        if buf.len() != 8 + CHALLENGE_LEN {
            return Err(());
        }
        let seq = read_le(buf, 0, 8);
        let c = vstd::slice::slice_subrange(buf, 8, 8 + CHALLENGE_LEN);
        let nonce = crate::protocol::build_nonce(seq);
        let ad: Vec<u8> = Vec::new();
        proof {
            assert(ad@ =~= Seq::<u8>::empty());
        }
        let plain = match crate::crypto::aead_open(key, nonce.as_slice(), ad.as_slice(), c) {
            Some(p) => p,
            None => {
                proof {
                    assert forall|s: u64, v: ChallengeTokenView|
                        challenge_wf(v) && buf@ == #[trigger] spec_challenge_packet(
                            key@,
                            s,
                            v,
                        ) implies false by {
                        lemma_challenge_packet_parts(key@, s, v, buf@);
                        assert(buf@.subrange(0, 8) == le_bytes(s as int, 8));
                        lemma_le_round_trip_small(s as int, 8);
                        assert(seq == s);
                        assert(c@ == crate::crypto::sealed_of(
                            key@,
                            crate::protocol::nonce_bytes(s),
                            Seq::<u8>::empty(),
                            challenge_plain(v),
                        ));
                    }
                }
                return Err(());
            },
        };
        if plain.len() != 8 + USER {
            proof {
                assert forall|s: u64, v: ChallengeTokenView|
                    challenge_wf(v) && buf@ == #[trigger] spec_challenge_packet(
                        key@,
                        s,
                        v,
                    ) implies false by {
                    lemma_challenge_packet_parts(key@, s, v, buf@);
                    assert(buf@.subrange(0, 8) == le_bytes(s as int, 8));
                    lemma_le_round_trip_small(s as int, 8);
                    assert(seq == s);
                    assert(plain@ == challenge_plain(v));
                    lemma_le_bytes_len(v.client_id as int, 8);
                }
            }
            return Err(());
        }
        let client_id = read_le(plain.as_slice(), 0, 8);
        let user = vstd::slice::slice_to_vec(
            vstd::slice::slice_subrange(plain.as_slice(), 8, 8 + USER),
        );
        let r = ChallengeToken { client_id, user };
        proof {
            assert forall|s: u64, v: ChallengeTokenView|
                challenge_wf(v) && buf@ == #[trigger] spec_challenge_packet(key@, s, v) implies r@
                == v by {
                lemma_challenge_packet_parts(key@, s, v, buf@);
                assert(buf@.subrange(0, 8) == le_bytes(s as int, 8));
                lemma_le_round_trip_small(s as int, 8);
                assert(seq == s);
                lemma_le_bytes_len(v.client_id as int, 8);
                assert(plain@ == challenge_plain(v));
                assert(plain@.subrange(0, 8) =~= le_bytes(v.client_id as int, 8));
                lemma_le_round_trip_small(v.client_id as int, 8);
                assert(r@.user =~= v.user);
            }
        }
        Ok(r)
    }
}

/// Splits a challenge packet body into its clear sequence and sealed part.
proof fn lemma_challenge_packet_parts(key: Seq<u8>, s: u64, v: ChallengeTokenView, b: Seq<u8>)
    requires
        challenge_wf(v),
        b == spec_challenge_packet(key, s, v),
        b.len() == 8 + CHALLENGE_LEN,
    ensures
        b.subrange(0, 8) == le_bytes(s as int, 8),
        b.subrange(8, 8 + CHALLENGE_LEN as int) == crate::crypto::sealed_of(
            key,
            crate::protocol::nonce_bytes(s),
            Seq::<u8>::empty(),
            challenge_plain(v),
        ),
{
    lemma_le_bytes_len(s as int, 8);
    assert(b.subrange(0, 8) =~= le_bytes(s as int, 8));
    assert(b.subrange(8, 8 + CHALLENGE_LEN as int) =~= crate::crypto::sealed_of(
        key,
        crate::protocol::nonce_bytes(s),
        Seq::<u8>::empty(),
        challenge_plain(v),
    ));
}

/// The wire credential handed to a client: everything it needs to present
/// itself to a server, with the server-only part sealed.
pub struct PublicToken {
    create_timestamp: u64,
    expire_timestamp: u64,
    timeout_seconds: u32,
    nonce: Vec<u8>,
    token: Vec<u8>,
    client_key: Vec<u8>,
    server_key: Vec<u8>,
    data: Vec<u8>,
}

impl PublicToken {
    /// Mints a token: draws fresh session keys and a nonce, fills the
    /// private token, and seals it under the issuer's long-term key.
    /// `expire` and `timeout` are relative seconds; `now` is the clock.
    pub fn generate(
        data: Vec<u8>,
        user: Vec<u8>,
        expire: u64,
        timeout: u32,
        client_id: u64,
        protocol: u64,
        private_key: &[u8],
        addrs: Vec<Addr>,
        now: u64,
    ) -> (r: PublicToken)
        requires
            data@.len() == DATA,
            user@.len() == USER,
            1 <= addrs@.len() <= 8,
            private_key@.len() == 32,
            now + expire <= u64::MAX,
        ensures
            r.wf(),
            r.spec_create() == now,
            r.spec_expire() == now + expire,
            r.spec_timeout() == timeout,
            r.spec_data() == data@,
            r.spec_token() == xsealed_of(
                private_key@,
                r.spec_nonce(),
                xad_bytes(protocol, (now + expire) as u64),
                private_bytes(
                    PrivateTokenView {
                        client_id,
                        timeout,
                        addrs: addrs@,
                        client_key: r.spec_client_key(),
                        server_key: r.spec_server_key(),
                        user: user@,
                        data: data@,
                    },
                ),
            ),
    {
        let expire_timestamp = now + expire;
        let nonce = nonce_gen();
        let data_copy = vstd::slice::slice_to_vec(data.as_slice());
        let private = PrivateToken::generate(client_id, timeout, addrs, user, data);
        let client_key = vstd::slice::slice_to_vec(private.client_key().as_slice());
        let server_key = vstd::slice::slice_to_vec(private.server_key().as_slice());
        let token = private.encrypt(protocol, expire_timestamp, nonce.as_slice(), private_key);
        PublicToken {
            create_timestamp: now,
            expire_timestamp,
            timeout_seconds: timeout,
            nonce,
            token,
            client_key,
            server_key,
            data: data_copy,
        }
    }

    /// All parts have their wire sizes.
    pub open spec fn wf(&self) -> bool {
        &&& self.spec_nonce().len() == 24
        &&& self.spec_token().len() == PRIVATE_LEN
        &&& self.spec_client_key().len() == 32
        &&& self.spec_server_key().len() == 32
        &&& self.spec_data().len() == DATA
    }

    pub closed spec fn spec_create(&self) -> u64 {
        self.create_timestamp
    }

    pub closed spec fn spec_expire(&self) -> u64 {
        self.expire_timestamp
    }

    pub closed spec fn spec_timeout(&self) -> u32 {
        self.timeout_seconds
    }

    pub closed spec fn spec_nonce(&self) -> Seq<u8> {
        self.nonce@
    }

    pub closed spec fn spec_token(&self) -> Seq<u8> {
        self.token@
    }

    pub closed spec fn spec_client_key(&self) -> Seq<u8> {
        self.client_key@
    }

    pub closed spec fn spec_server_key(&self) -> Seq<u8> {
        self.server_key@
    }

    pub closed spec fn spec_data(&self) -> Seq<u8> {
        self.data@
    }

    /// When the token was minted, seconds since the epoch.
    pub fn create_timestamp(&self) -> (r: u64)
        ensures
            r == self.spec_create(),
    {
        self.create_timestamp
    }

    /// When the token dies, seconds since the epoch.
    pub fn expire_timestamp(&self) -> (r: u64)
        ensures
            r == self.spec_expire(),
    {
        self.expire_timestamp
    }

    /// Connection idle timeout, seconds.
    pub fn timeout_seconds(&self) -> (r: u32)
        ensures
            r == self.spec_timeout(),
    {
        self.timeout_seconds
    }

    /// The 24-byte nonce the private blob was sealed with.
    pub fn nonce(&self) -> (r: &Vec<u8>)
        ensures
            r@ == self.spec_nonce(),
    {
        &self.nonce
    }

    /// The sealed 1024-byte private blob.
    pub fn token(&self) -> (r: &Vec<u8>)
        ensures
            r@ == self.spec_token(),
    {
        &self.token
    }

    /// Client-to-server session key.
    pub fn client_key(&self) -> (r: &Vec<u8>)
        ensures
            r@ == self.spec_client_key(),
    {
        &self.client_key
    }

    /// Server-to-client session key.
    pub fn server_key(&self) -> (r: &Vec<u8>)
        ensures
            r@ == self.spec_server_key(),
    {
        &self.server_key
    }

    /// Opaque data bytes, as also sealed into the private token.
    pub fn data(&self) -> (r: &Vec<u8>)
        ensures
            r@ == self.spec_data(),
    {
        &self.data
    }
}

/// Writing one more address appends one more slot.
proof fn lemma_addr_slots_snoc(addrs: Seq<Addr>, i: int)
    requires
        0 <= i < addrs.len(),
    ensures
        addr_slots(addrs.take(i + 1)) == addr_slots(addrs.take(i)) + addr_slot_bytes(addrs[i]),
    decreases i,
{
    if i == 0 {
        assert(addrs.take(1).len() == 1);
        assert(addrs.take(1)[0] == addrs[0]);
        assert(addrs.take(1).drop_first() =~= Seq::<Addr>::empty());
        assert(addr_slots(addrs.take(1)) == addr_slot_bytes(addrs[0]) + addr_slots(
            Seq::<Addr>::empty(),
        ));
        assert(addr_slot_bytes(addrs[0]) + addr_slots(Seq::<Addr>::empty()) =~= addr_slot_bytes(
            addrs[0],
        ));
        assert(addrs.take(0).len() == 0);
        assert(addr_slots(addrs.take(0)) + addr_slot_bytes(addrs[0]) =~= addr_slot_bytes(
            addrs[0],
        ));
    } else {
        lemma_addr_slots_snoc(addrs.drop_first(), i - 1);
        assert(addrs.take(i + 1).drop_first() =~= addrs.drop_first().take(i));
        assert(addrs.take(i).drop_first() =~= addrs.drop_first().take(i - 1));
        assert(addrs.take(i + 1)[0] == addrs[0]);
        assert(addrs.take(i)[0] == addrs[0]);
        assert(addrs.drop_first()[i - 1] == addrs[i]);
    }
}

} // verus!
