//! Replay protection and packet admission filters.
//!
//! A sliding window of the most recent sequence numbers, keyed by
//! `seq mod W`, admits each sequence at most once: a sequence older than
//! `most_recent - W` is rejected outright, one equal to or below the value
//! already stored at its slot is rejected as a duplicate, and an admitted
//! sequence takes the slot over.

use vstd::prelude::*;
use crate::protocol::{CHALLENGE_PACKET_BYTES, MIN_PACKET_BYTES};

verus! {

/// Default number of window slots.
pub const REPLAY_PROTECTION_BUFFER_SIZE: usize = 256;

/// Sentinel for an empty window slot; never a real sequence number.
pub const INVALID_SEQUENCE: u64 = 0xFFFF_FFFF_FFFF_FFFF;

/// The kind of a decoded packet, as the admission filters see it.
#[derive(Clone, Copy, Debug, PartialEq, Eq, Structural)]
pub enum Kind {
    Request,
    Challenge,
    Disconnect,
    Payload,
}

/// The mathematical state of a replay window.
pub struct ReplayView {
    pub window: Seq<u64>,
    pub most_recent: u64,
}

/// A well-formed window: at least one slot, no sentinel as the high-water
/// mark, and every filled slot at or below the high-water mark.
pub open spec fn rp_wf(v: ReplayView) -> bool {
    &&& 1 <= v.window.len()
    &&& v.most_recent < INVALID_SEQUENCE
    &&& forall|i: int|
        0 <= i < v.window.len() && v.window[i] != INVALID_SEQUENCE ==> v.window[i]
            <= v.most_recent
}

/// The slot that `seq` is keyed to.
pub open spec fn rp_index(v: ReplayView, seq: u64) -> int {
    seq as int % v.window.len() as int
}

/// Whether `seq` would be admitted in state `v`.
pub open spec fn rp_admits(v: ReplayView, seq: u64) -> bool {
    &&& seq + v.window.len() > v.most_recent
    &&& (v.window[rp_index(v, seq)] == INVALID_SEQUENCE || v.window[rp_index(v, seq)] < seq)
}

/// The state after admitting `seq`.
pub open spec fn rp_record(v: ReplayView, seq: u64) -> ReplayView {
    ReplayView {
        window: v.window.update(rp_index(v, seq), seq),
        most_recent: if seq > v.most_recent {
            seq
        } else {
            v.most_recent
        },
    }
}

/// One arrival: admitted sequences are recorded, rejected ones change nothing.
pub open spec fn rp_step(v: ReplayView, seq: u64) -> ReplayView {
    if rp_admits(v, seq) {
        rp_record(v, seq)
    } else {
        v
    }
}

/// The state after a whole stream of arrivals.
pub open spec fn rp_run(v: ReplayView, ss: Seq<u64>) -> ReplayView
    decreases ss.len(),
{
    if ss.len() == 0 {
        v
    } else {
        rp_run(rp_step(v, ss[0]), ss.drop_first())
    }
}

/// An all-empty window of `len` slots.
pub open spec fn rp_fresh(len: nat) -> ReplayView {
    ReplayView { window: Seq::new(len, |i: int| INVALID_SEQUENCE), most_recent: 0 }
}

/// `seq`'s slot already holds `seq` itself or something newer.
pub open spec fn rp_locked(v: ReplayView, seq: u64) -> bool {
    v.window[rp_index(v, seq)] != INVALID_SEQUENCE && v.window[rp_index(v, seq)] >= seq
}

/// A locked sequence is not admitted.
pub proof fn lemma_locked_blocks(v: ReplayView, seq: u64)
    requires
        rp_locked(v, seq),
    ensures
        !rp_admits(v, seq),
{
}

/// One arrival cannot unlock a sequence: an admitted arrival sharing the
/// slot must be newer than what the slot held.
proof fn lemma_step_preserves_locked(v: ReplayView, seq: u64, t: u64)
    requires
        1 <= v.window.len(),
        rp_locked(v, seq),
        t != INVALID_SEQUENCE,
    ensures
        rp_locked(rp_step(v, t), seq),
        rp_step(v, t).window.len() == v.window.len(),
{
    if rp_admits(v, t) {
        vstd::arithmetic::div_mod::lemma_mod_bound(t as int, v.window.len() as int);
        vstd::arithmetic::div_mod::lemma_mod_bound(seq as int, v.window.len() as int);
    }
}

/// No stream of arrivals can unlock a sequence.
proof fn lemma_run_preserves_locked(v: ReplayView, ss: Seq<u64>, seq: u64)
    requires
        1 <= v.window.len(),
        rp_locked(v, seq),
        forall|k: int| 0 <= k < ss.len() ==> ss[k] != INVALID_SEQUENCE,
    ensures
        rp_locked(rp_run(v, ss), seq),
        rp_run(v, ss).window.len() == v.window.len(),
    decreases ss.len(),
{
    if ss.len() > 0 {
        lemma_step_preserves_locked(v, seq, ss[0]);
        lemma_run_preserves_locked(rp_step(v, ss[0]), ss.drop_first(), seq);
    }
}

/// Running a concatenation is running the parts in order.
pub proof fn lemma_run_append(v: ReplayView, a: Seq<u64>, b: Seq<u64>)
    ensures
        rp_run(v, a + b) == rp_run(rp_run(v, a), b),
    decreases a.len(),
{
    if a.len() == 0 {
        assert(a + b =~= b);
    } else {
        assert((a + b).drop_first() =~= a.drop_first() + b);
        lemma_run_append(rp_step(v, a[0]), a.drop_first(), b);
    }
}

/// One more arrival on the end of a stream is one more step.
pub proof fn lemma_run_snoc(v: ReplayView, ss: Seq<u64>, k: int)
    requires
        0 <= k < ss.len(),
    ensures
        rp_run(v, ss.take(k + 1)) == rp_step(rp_run(v, ss.take(k)), ss[k]),
{
    let x = ss[k];
    let single = seq![x];
    assert(ss.take(k + 1) =~= ss.take(k) + single);
    lemma_run_append(v, ss.take(k), single);
    let w = rp_run(v, ss.take(k));
    assert(single.len() == 1 && single[0] == x);
    assert(single.drop_first() =~= Seq::<u64>::empty());
    assert(rp_run(w, single) == rp_run(rp_step(w, x), single.drop_first()));
    assert(rp_run(rp_step(w, x), Seq::<u64>::empty()) == rp_step(w, x));
}

/// In any stream of arrivals, a sequence admitted once is rejected on every
/// later arrival: no sequence is admitted twice.
pub proof fn lemma_replay_admitted_at_most_once(v: ReplayView, ss: Seq<u64>, i: int, j: int)
    requires
        1 <= v.window.len(),
        forall|k: int| 0 <= k < ss.len() ==> ss[k] != INVALID_SEQUENCE,
        0 <= i < j < ss.len(),
        ss[i] == ss[j],
        rp_admits(rp_run(v, ss.take(i)), ss[i]),
    ensures
        !rp_admits(rp_run(v, ss.take(j)), ss[j]),
{
    let vi = rp_run(v, ss.take(i));
    lemma_run_window_len(v, ss.take(i));
    lemma_run_snoc(v, ss, i);
    let vi1 = rp_step(vi, ss[i]);
    assert(rp_locked(vi1, ss[i])) by {
        vstd::arithmetic::div_mod::lemma_mod_bound(ss[i] as int, vi.window.len() as int);
    }
    assert(ss.take(j) =~= ss.take(i + 1) + ss.take(j).skip(i + 1));
    lemma_run_append(v, ss.take(i + 1), ss.take(j).skip(i + 1));
    lemma_run_preserves_locked(vi1, ss.take(j).skip(i + 1), ss[i]);
    lemma_locked_blocks(rp_run(v, ss.take(j)), ss[j]);
}

/// A run never changes the number of slots.
proof fn lemma_run_window_len(v: ReplayView, ss: Seq<u64>)
    requires
        1 <= v.window.len(),
    ensures
        rp_run(v, ss).window.len() == v.window.len(),
    decreases ss.len(),
{
    if ss.len() > 0 {
        lemma_step_window_len(v, ss[0]);
        lemma_run_window_len(rp_step(v, ss[0]), ss.drop_first());
    }
}

/// A step never changes the number of slots.
proof fn lemma_step_window_len(v: ReplayView, t: u64)
    requires
        1 <= v.window.len(),
    ensures
        rp_step(v, t).window.len() == v.window.len(),
{
    if rp_admits(v, t) {
        vstd::arithmetic::div_mod::lemma_mod_bound(t as int, v.window.len() as int);
    }
}

/// A sequence older than the whole window is rejected.
pub proof fn lemma_replay_too_old_rejected(v: ReplayView, seq: u64)
    requires
        seq + v.window.len() <= v.most_recent,
    ensures
        !rp_admits(v, seq),
{
}

/// What a run from an empty window can hold: every filled slot carries an
/// arrival from the stream, keyed to its own slot, and the high-water mark
/// is an arrival from the stream or still zero.
pub open spec fn rp_from_stream(len: nat, pre: Seq<u64>, v: ReplayView) -> bool {
    &&& v.window.len() == len
    &&& (v.most_recent == 0 || pre.contains(v.most_recent))
    &&& forall|i: int|
        0 <= i < len ==> v.window[i] == INVALID_SEQUENCE || (pre.contains(v.window[i])
            && #[trigger] v.window[i] as int % len as int == i)
}

proof fn lemma_stream_inv(len: nat, pre: Seq<u64>)
    requires
        1 <= len,
    ensures
        rp_from_stream(len, pre, rp_run(rp_fresh(len), pre)),
    decreases pre.len(),
{
    if pre.len() == 0 {
    } else {
        let k = pre.len() - 1;
        let pre0 = pre.take(k as int);
        lemma_stream_inv(len, pre0);
        assert(pre.take(pre.len() as int) =~= pre);
        lemma_run_snoc(rp_fresh(len), pre, k as int);
        let v0 = rp_run(rp_fresh(len), pre0);
        let x = pre[k as int];
        assert(pre.contains(x));
        assert(forall|y: u64| pre0.contains(y) ==> pre.contains(y)) by {
            assert(forall|l: int|
                0 <= l < pre0.len() ==> pre0[l] == pre[l] && pre.contains(pre[l]));
        }
        if rp_admits(v0, x) {
            let vi = rp_record(v0, x);
            assert(vi.window[rp_index(v0, x)] == x);
        }
    }
}

/// Two congruent values a window apart or more: the larger is at least the
/// smaller plus the modulus.
proof fn lemma_congruent_gap(a: int, b: int, m: int)
    by (nonlinear_arith)
    requires
        0 < m,
        0 <= b < a,
        a % m == b % m,
    ensures
        b + m <= a,
{
}

/// From a fresh window, a stream of pairwise-distinct sequences in which
/// every arrival lies within the window of all earlier ones is admitted in
/// full: reordering within the window loses nothing.
pub proof fn lemma_replay_fresh_within_window_admitted(len: nat, ss: Seq<u64>, j: int)
    requires
        1 <= len,
        forall|k: int| 0 <= k < ss.len() ==> ss[k] != INVALID_SEQUENCE,
        forall|k: int, l: int| 0 <= k < l < ss.len() ==> ss[k] != ss[l],
        0 <= j < ss.len(),
        forall|k: int| 0 <= k < j ==> ss[j] + len > #[trigger] ss[k],
    ensures
        rp_admits(rp_run(rp_fresh(len), ss.take(j)), ss[j]),
{
    let pre = ss.take(j);
    let v = rp_run(rp_fresh(len), pre);
    lemma_stream_inv(len, pre);
    let s = ss[j];
    assert(s + len > v.most_recent) by {
        if v.most_recent != 0 {
            let k = choose|k: int| 0 <= k < pre.len() && pre[k] == v.most_recent;
            assert(ss[k] == v.most_recent);
        }
    }
    let w = v.window[rp_index(v, s)];
    if w != INVALID_SEQUENCE {
        let k = choose|k: int| 0 <= k < pre.len() && pre[k] == w;
        assert(ss[k] == w);
        assert(w != s);
        if w > s {
            lemma_congruent_gap(w as int, s as int, len as int);
        }
    }
}

/// Sliding-window duplicate detector.
pub struct ReplayProtection {
    received_packet: Vec<u64>,
    most_recent_sequence: u64,
}

impl View for ReplayProtection {
    type V = ReplayView;

    closed spec fn view(&self) -> ReplayView {
        ReplayView { window: self.received_packet@, most_recent: self.most_recent_sequence }
    }
}

impl ReplayProtection {
    /// An empty window with `len` slots.
    pub fn new(len: usize) -> (r: Self)
        requires
            1 <= len,
        ensures
            r@ == rp_fresh(len as nat),
            rp_wf(r@),
    {
        let mut received_packet: Vec<u64> = Vec::new();
        let mut i: usize = 0;
        while i < len
            invariant
                i <= len,
                received_packet@ =~= Seq::new(i as nat, |j: int| INVALID_SEQUENCE),
            decreases len - i,
        {
            received_packet.push(INVALID_SEQUENCE);
            i = i + 1;
        }
        proof {
            assert(received_packet@ =~= rp_fresh(len as nat).window);
        }
        ReplayProtection { received_packet, most_recent_sequence: 0 }
    }

    /// The highest sequence admitted so far.
    pub fn most_recent_sequence(&self) -> (r: u64)
        ensures
            r == self@.most_recent,
    {
        self.most_recent_sequence
    }

    /// Forgets everything; the window is as if newly made.
    pub fn reset(&mut self)
        requires
            1 <= old(self)@.window.len(),
        ensures
            final(self)@ == rp_fresh(old(self)@.window.len()),
            rp_wf(final(self)@),
    {
        self.most_recent_sequence = 0;
        let len = self.received_packet.len();
        let mut i: usize = 0;
        while i < len
            invariant
                i <= len,
                self.received_packet@.len() == len,
                forall|j: int| 0 <= j < i ==> self.received_packet@[j] == INVALID_SEQUENCE,
                self.most_recent_sequence == 0,
            decreases len - i,
        {
            self.received_packet.set(i, INVALID_SEQUENCE);
            i = i + 1;
        }
        proof {
            assert(self.received_packet@ =~= rp_fresh(old(self)@.window.len()).window);
        }
    }

    /// Tests and records one arrival: returns `true` exactly when `sequence`
    /// must be dropped as a replay or as older than the window.
    pub fn packet_already_received(&mut self, sequence: u64) -> (r: bool)
        requires
            rp_wf(old(self)@),
            sequence != INVALID_SEQUENCE,
        ensures
            r == !rp_admits(old(self)@, sequence),
            final(self)@ == rp_step(old(self)@, sequence),
            rp_wf(final(self)@),
    {
        let len = self.received_packet.len();
        let len64 = len as u64;
        if self.most_recent_sequence >= len64 && sequence <= self.most_recent_sequence - len64 {
            return true;
        }
        let index = (sequence % len64) as usize;
        let stored = self.received_packet[index];
        if stored != INVALID_SEQUENCE && stored >= sequence {
            return true;
        }
        if sequence > self.most_recent_sequence {
            self.most_recent_sequence = sequence;
        }
        self.received_packet.set(index, sequence);
        false
    }
}

impl Default for ReplayProtection {
    /// A window of the default size.
    fn default() -> (r: Self)
        ensures
            r@ == rp_fresh(REPLAY_PROTECTION_BUFFER_SIZE as nat),
            rp_wf(r@),
    {
        ReplayProtection::new(REPLAY_PROTECTION_BUFFER_SIZE)
    }
}

/// Admission control seen by the packet-processing loop: a filter may pass
/// judgement on a packet's kind and length, and may track duplicates.
pub trait Protection {
    fn packet_already_received(&mut self, seq: u64) -> bool;

    fn is_allowed(&mut self, kind: Kind, len: usize, seq: u64) -> bool;
}

/// Lets everything through.
pub struct NoFilter;

impl Protection for NoFilter {
    fn packet_already_received(&mut self, _seq: u64) -> (r: bool)
        ensures
            r == false,
    {
        false
    }

    fn is_allowed(&mut self, _kind: Kind, _len: usize, _seq: u64) -> (r: bool)
        ensures
            r == true,
    {
        true
    }
}

/// Admits only well-sized challenge packets.
pub struct ChallengeFilter;

impl Protection for ChallengeFilter {
    fn packet_already_received(&mut self, _seq: u64) -> (r: bool)
        ensures
            r == false,
    {
        false
    }

    fn is_allowed(&mut self, kind: Kind, len: usize, _seq: u64) -> (r: bool)
        ensures
            r == (kind == Kind::Challenge && len == CHALLENGE_PACKET_BYTES),
    {
        kind == Kind::Challenge && len == CHALLENGE_PACKET_BYTES
    }
}

/// Admits well-sized challenge and disconnect packets.
pub struct ChallengeOrDisconnectFilter;

impl Protection for ChallengeOrDisconnectFilter {
    fn packet_already_received(&mut self, _seq: u64) -> (r: bool)
        ensures
            r == false,
    {
        false
    }

    fn is_allowed(&mut self, kind: Kind, len: usize, _seq: u64) -> (r: bool)
        ensures
            r == ((kind == Kind::Challenge && len == CHALLENGE_PACKET_BYTES) || (kind
                == Kind::Disconnect && len == MIN_PACKET_BYTES)),
    {
        if kind == Kind::Challenge && len == CHALLENGE_PACKET_BYTES {
            return true;
        }
        kind == Kind::Disconnect && len == MIN_PACKET_BYTES
    }
}

/// Tracks no duplicates and judges nothing.
pub struct NoProtection;

impl Protection for NoProtection {
    fn packet_already_received(&mut self, _seq: u64) -> (r: bool)
        ensures
            r == false,
    {
        false
    }

    fn is_allowed(&mut self, _kind: Kind, _len: usize, _seq: u64) -> (r: bool)
        ensures
            r == true,
    {
        true
    }
}

impl Protection for ReplayProtection {
    fn packet_already_received(&mut self, seq: u64) -> (r: bool)
        ensures
            rp_wf(old(self)@) && seq != INVALID_SEQUENCE ==> r == !rp_admits(old(self)@, seq)
                && final(self)@ == rp_step(old(self)@, seq),
            !(rp_wf(old(self)@) && seq != INVALID_SEQUENCE) ==> r == true && final(self)@ == old(
                self,
            )@,
    {
        if seq == INVALID_SEQUENCE {
            return true;
        }
        if !rp_wf_exec_check(self) {
            return true;
        }
        ReplayProtection::packet_already_received(self, seq)
    }

    /// Request and Challenge kinds are gated by the handshake state machine,
    /// never by the replay filter; a disconnect must be minimal.
    fn is_allowed(&mut self, kind: Kind, len: usize, seq: u64) -> (r: bool)
        ensures
            kind == Kind::Request || kind == Kind::Challenge ==> r == false && final(self)@
                == old(self)@,
            kind == Kind::Disconnect && len != MIN_PACKET_BYTES ==> r == false && final(self)@
                == old(self)@,
            rp_wf(old(self)@) && seq != INVALID_SEQUENCE && (kind == Kind::Payload || (kind
                == Kind::Disconnect && len == MIN_PACKET_BYTES)) ==> r == rp_admits(
                old(self)@,
                seq,
            ) && final(self)@ == rp_step(old(self)@, seq),
    {
        if kind == Kind::Request || kind == Kind::Challenge {
            return false;
        }
        if kind == Kind::Disconnect && len != MIN_PACKET_BYTES {
            return false;
        }
        !Protection::packet_already_received(self, seq)
    }
}

/// Decides well-formedness at run time, so that the unguarded trait entry
/// can fall back to rejection instead of breaking the window's contract.
fn rp_wf_exec_check(rp: &ReplayProtection) -> (r: bool)
    ensures
        r == rp_wf(rp@),
{
    if rp.received_packet.len() < 1 {
        return false;
    }
    if rp.most_recent_sequence == INVALID_SEQUENCE {
        return false;
    }
    let len = rp.received_packet.len();
    let mut i: usize = 0;
    while i < len
        invariant
            i <= len,
            len == rp.received_packet@.len(),
            rp.most_recent_sequence < INVALID_SEQUENCE,
            1 <= len,
            forall|j: int|
                0 <= j < i && rp.received_packet@[j] != INVALID_SEQUENCE
                    ==> rp.received_packet@[j] <= rp.most_recent_sequence,
        decreases len - i,
    {
        let w = rp.received_packet[i];
        if w != INVALID_SEQUENCE && w > rp.most_recent_sequence {
            return false;
        }
        i = i + 1;
    }
    true
}

} // verus!
