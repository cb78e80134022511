//! The in-process network simulator.
//!
//! A shared in-memory switch: each directed edge carries a latency, a
//! jitter, and per-mille chances of loss and duplication. `send` stamps a
//! datagram with a delivery time drawn under the edge's figures (or delivers
//! at once where no edge is registered), `advance` moves the shared clock
//! and discards what sat undelivered past the dead time, and `recv_from`
//! hands out a deliverable datagram for an address, or nothing — the
//! non-blocking empty read.
//!
//! The random draws come from the process generator; the contracts state
//! what holds of every outcome.

use vstd::prelude::*;
use crate::addr::Addr;
use crate::assoc::{assoc_get, assoc_has, assoc_unique, lemma_assoc_absent, lemma_assoc_at_v,
    lemma_assoc_push_fresh, lemma_assoc_remove};

verus! {

/// Undelivered datagrams older than this are discarded, in milliseconds.
pub const DEAD_TIME: u64 = 42_000;

/// Per-edge figures: fixed delay, symmetric jitter, and per-mille chances
/// of loss and duplication.
#[derive(Clone, Copy, Debug, PartialEq, Eq, Structural)]
pub struct Config {
    pub latency: u64,
    pub jitter: u64,
    pub loss: u32,
    pub duplicate: u32,
}

/// The mathematical content of one in-flight datagram.
pub struct SimEntryView {
    pub from: Addr,
    pub to: Addr,
    pub delivery_time: u64,
    pub dead_time: u64,
    pub payload: Seq<u8>,
}

/// One datagram in flight.
pub struct SimEntry {
    from: Addr,
    to: Addr,
    delivery_time: u64,
    dead_time: u64,
    payload: Vec<u8>,
}

impl View for SimEntry {
    type V = SimEntryView;

    closed spec fn view(&self) -> SimEntryView {
        SimEntryView {
            from: self.from,
            to: self.to,
            delivery_time: self.delivery_time,
            dead_time: self.dead_time,
            payload: self.payload@,
        }
    }
}

/// The association form of the in-flight list.
pub open spec fn sim_entries(s: Seq<SimEntry>) -> Seq<SimEntryView> {
    s.map_values(|e: SimEntry| e@)
}

/// The association form of the edge table, keyed by the directed pair.
pub open spec fn edge_entries(s: Seq<(Addr, Addr, Config)>) -> Seq<((Addr, Addr), Config)> {
    s.map_values(|e: (Addr, Addr, Config)| ((e.0, e.1), e.2))
}

/// Whether an entry can be handed to `to` at `time`.
pub open spec fn sim_deliverable(e: SimEntryView, to: Addr, time: u64) -> bool {
    e.to == to && e.delivery_time <= time
}

/// The first index of a deliverable entry for `to`, or -1.
pub open spec fn sim_first(s: Seq<SimEntryView>, to: Addr, time: u64) -> int
    decreases s.len(),
{
    if s.len() == 0 {
        -1
    } else if sim_deliverable(s[0], to, time) {
        0
    } else {
        let r = sim_first(s.drop_first(), to, time);
        if r == -1 {
            -1
        } else {
            r + 1
        }
    }
}

/// `sim_first` is exactly the least deliverable index.
proof fn lemma_sim_first_at(s: Seq<SimEntryView>, to: Addr, time: u64, i: int)
    requires
        0 <= i <= s.len(),
        forall|j: int| 0 <= j < i ==> !sim_deliverable(#[trigger] s[j], to, time),
        i < s.len() ==> sim_deliverable(s[i], to, time),
    ensures
        i < s.len() ==> sim_first(s, to, time) == i,
        i == s.len() ==> sim_first(s, to, time) == -1,
    decreases s.len(),
{
    if s.len() > 0 {
        if !sim_deliverable(s[0], to, time) {
            assert(i > 0 || i == 0 && s.len() > 0 && !sim_deliverable(s[0], to, time));
            lemma_sim_first_at(s.drop_first(), to, time, i - 1);
        }
    }
}

/// The in-memory switch.
pub struct Simulator {
    configs: Vec<(Addr, Addr, Config)>,
    entries: Vec<SimEntry>,
    time: u64,
}

impl Simulator {
    /// The in-flight datagrams.
    pub closed spec fn entries_view(&self) -> Seq<SimEntryView> {
        sim_entries(self.entries@)
    }

    /// The registered edges and their figures.
    pub closed spec fn configs_view(&self) -> Seq<((Addr, Addr), Config)> {
        edge_entries(self.configs@)
    }

    /// The shared clock.
    pub closed spec fn spec_time(&self) -> u64 {
        self.time
    }

    /// Each directed edge is registered at most once.
    pub open spec fn wf(&self) -> bool {
        assoc_unique(self.configs_view())
    }

    /// A switch with no edges, nothing in flight, clock at zero.
    pub fn new() -> (r: Simulator)
        ensures
            r.wf(),
            r.entries_view().len() == 0,
            r.configs_view().len() == 0,
            r.spec_time() == 0,
    {
        Simulator { configs: Vec::new(), entries: Vec::new(), time: 0 }
    }

    /// As `new`; the capacity is a hint only.
    pub fn with_capacity(cap: usize) -> (r: Simulator)
        ensures
            r.wf(),
            r.entries_view().len() == 0,
            r.configs_view().len() == 0,
            r.spec_time() == 0,
    {
        let mut entries: Vec<SimEntry> = Vec::new();
        entries.reserve(cap);
        Simulator { configs: Vec::new(), entries, time: 0 }
    }

    /// Finds the position of the edge `from -> to` in the table.
    fn edge_position(&self, from: Addr, to: Addr) -> (r: Option<usize>)
        ensures
            r is Some <==> assoc_has(self.configs_view(), (from, to)),
            r is Some ==> 0 <= r.unwrap() < self.configs_view().len()
                && self.configs_view()[r.unwrap() as int].0 == (from, to),
    {
        let len = self.configs.len();
        let mut i: usize = 0;
        while i < len
            invariant
                i <= len,
                len == self.configs_view().len(),
                forall|j: int| 0 <= j < i ==> self.configs_view()[j].0 != (from, to),
            decreases len - i,
        {
            if self.configs[i].0 == from && self.configs[i].1 == to {
                proof {
                    assert(self.configs_view()[i as int].0 == (from, to));
                }
                return Some(i);
            }
            proof {
                assert(self.configs_view()[i as int].0 == (
                    self.configs@[i as int].0,
                    self.configs@[i as int].1,
                ));
            }
            i = i + 1;
        }
        None
    }

    /// Registers figures for the directed edge `from -> to`, replacing any
    /// earlier registration of the same edge.
    pub fn add_mapping(&mut self, from: Addr, to: Addr, config: Config)
        requires
            old(self).wf(),
        ensures
            final(self).wf(),
            final(self).entries_view() == old(self).entries_view(),
            final(self).spec_time() == old(self).spec_time(),
            assoc_has(final(self).configs_view(), (from, to)),
            assoc_get(final(self).configs_view(), (from, to)) == config,
            forall|e: (Addr, Addr)|
                e != (from, to) ==> (assoc_has(final(self).configs_view(), e) == assoc_has(
                    old(self).configs_view(),
                    e,
                ) && (assoc_has(old(self).configs_view(), e) ==> assoc_get(
                    final(self).configs_view(),
                    e,
                ) == assoc_get(old(self).configs_view(), e))),
    {
        self.remove_mapping(from, to);
        let ghost mid = self.configs_view();
        proof {
            lemma_assoc_push_fresh(mid, (from, to), config);
        }
        self.configs.push((from, to, config));
        proof {
            assert(self.configs_view() =~= mid.push(((from, to), config)));
        }
    }

    /// Drops the figures of the directed edge `from -> to`, if registered.
    pub fn remove_mapping(&mut self, from: Addr, to: Addr)
        requires
            old(self).wf(),
        ensures
            final(self).wf(),
            final(self).entries_view() == old(self).entries_view(),
            final(self).spec_time() == old(self).spec_time(),
            !assoc_has(final(self).configs_view(), (from, to)),
            forall|e: (Addr, Addr)|
                e != (from, to) ==> (assoc_has(final(self).configs_view(), e) == assoc_has(
                    old(self).configs_view(),
                    e,
                ) && (assoc_has(old(self).configs_view(), e) ==> assoc_get(
                    final(self).configs_view(),
                    e,
                ) == assoc_get(old(self).configs_view(), e))),
    {
        match self.edge_position(from, to) {
            Some(i) => {
                self.configs.remove(i);
                proof {
                    lemma_assoc_remove(old(self).configs_view(), i as int, (from, to));
                    assert(self.configs_view() =~= old(self).configs_view().remove(i as int));
                }
            },
            None => {
                proof {
                    lemma_assoc_absent(self.configs_view(), (from, to));
                }
            },
        }
    }

    /// The figures of the edge `from -> to`, if registered.
    fn find_config(&self, from: Addr, to: Addr) -> (r: Option<Config>)
        requires
            self.wf(),
        ensures
            r is Some <==> assoc_has(self.configs_view(), (from, to)),
            r is Some ==> r.unwrap() == assoc_get(self.configs_view(), (from, to)),
    {
        match self.edge_position(from, to) {
            Some(i) => {
                proof {
                    lemma_assoc_at_v(self.configs_view(), i as int, (from, to));
                    assert(self.configs_view()[i as int].1 == self.configs@[i as int].2);
                }
                Some(self.configs[i].2)
            },
            None => None,
        }
    }

    /// Queues one datagram. Under an edge's figures it may be dropped, be
    /// delayed by the latency give or take the jitter, or be doubled;
    /// without an edge exactly one copy is queued, deliverable at once, and
    /// with a lossless edge at least one copy is queued. Whatever the
    /// draws, every entry that appears carries exactly this datagram, is
    /// due between now and now plus latency plus jitter, and dies after the
    /// dead time.
    pub fn send(&mut self, from: Addr, to: Addr, payload: Vec<u8>)
        requires
            old(self).wf(),
        ensures
            final(self).wf(),
            final(self).spec_time() == old(self).spec_time(),
            final(self).configs_view() == old(self).configs_view(),
            final(self).entries_view().len() >= old(self).entries_view().len(),
            final(self).entries_view().len() <= old(self).entries_view().len() + 2,
            final(self).entries_view().take(old(self).entries_view().len() as int) == old(
                self,
            ).entries_view(),
            !assoc_has(old(self).configs_view(), (from, to)) ==> final(self).entries_view().len()
                == old(self).entries_view().len() + 1,
            assoc_has(old(self).configs_view(), (from, to)) && assoc_get(
                old(self).configs_view(),
                (from, to),
            ).loss == 0 ==> final(self).entries_view().len() >= old(self).entries_view().len()
                + 1,
            forall|j: int|
                old(self).entries_view().len() <= j < final(self).entries_view().len() ==> {
                    let e = #[trigger] final(self).entries_view()[j];
                    &&& e.from == from
                    &&& e.to == to
                    &&& e.payload == payload@
                    &&& e.delivery_time >= old(self).spec_time()
                    &&& (if assoc_has(old(self).configs_view(), (from, to)) {
                        let cfg = assoc_get(old(self).configs_view(), (from, to));
                        &&& e.delivery_time <= old(self).spec_time() + cfg.latency + cfg.jitter
                        &&& (e.delivery_time + cfg.jitter >= old(self).spec_time() + cfg.latency
                            || old(self).spec_time() + cfg.latency > u64::MAX)
                    } else {
                        e.delivery_time == old(self).spec_time()
                    })
                    &&& e.dead_time == if old(self).spec_time() + DEAD_TIME <= u64::MAX {
                        (old(self).spec_time() + DEAD_TIME) as u64
                    } else {
                        u64::MAX
                    }
                },
    {
        let ghost g0 = self.entries_view();
        let dead_time = match self.time.checked_add(DEAD_TIME) {
            Some(t) => t,
            None => u64::MAX,
        };
        let config = match self.find_config(from, to) {
            Some(c) => c,
            None => {
                let e = SimEntry { from, to, delivery_time: self.time, dead_time, payload };
                self.entries.push(e);
                proof {
                    assert(self.entries_view() =~= g0.push(self.entries@.last()@));
                    assert(self.entries_view().take(g0.len() as int) =~= g0);
                }
                return ;
            },
        };
        let draw_loss: u64 = rand::random();
        let loss_roll: u32 = (draw_loss % 1000) as u32;
        if loss_roll < config.loss {
            proof {
                assert(self.entries_view().take(g0.len() as int) =~= g0);
            }
            return ;
        }
        let base = match self.time.checked_add(config.latency) {
            Some(t) => t,
            None => u64::MAX,
        };
        let draw_jitter: u64 = rand::random();
        let span = match config.jitter.checked_mul(2) {
            Some(s) => match s.checked_add(1) {
                Some(s1) => s1,
                None => u64::MAX,
            },
            None => u64::MAX,
        };
        let offset = draw_jitter % span;
        let shifted = match base.checked_add(offset) {
            Some(t) => t,
            None => u64::MAX,
        };
        let delivery_time = if shifted >= config.jitter && shifted - config.jitter >= self.time {
            shifted - config.jitter
        } else {
            self.time
        };
        proof {
            assert(offset <= 2 * config.jitter);
            assert(delivery_time <= self.time + config.latency + config.jitter);
            assert(delivery_time + config.jitter >= self.time + config.latency || self.time
                + config.latency > u64::MAX) by {
                if self.time + config.latency <= u64::MAX {
                    assert(base == self.time + config.latency);
                    assert(shifted >= base);
                    if shifted >= config.jitter && shifted - config.jitter >= self.time {
                        assert(delivery_time == shifted - config.jitter);
                    } else {
                        assert(delivery_time == self.time);
                        assert(shifted < self.time + config.jitter);
                    }
                }
            }
        }
        let draw_dup: u64 = rand::random();
        let dup_roll: u32 = (draw_dup % 1000) as u32;
        let doubled = dup_roll < config.duplicate;
        if doubled {
            let copy = SimEntry {
                from,
                to,
                delivery_time,
                dead_time,
                payload: vstd::slice::slice_to_vec(payload.as_slice()),
            };
            self.entries.push(copy);
            proof {
                assert(self.entries_view() =~= g0.push(self.entries@.last()@));
            }
        }
        let ghost g1 = self.entries_view();
        let e = SimEntry { from, to, delivery_time, dead_time, payload };
        self.entries.push(e);
        proof {
            assert(self.entries_view() =~= g1.push(self.entries@.last()@));
            assert(self.entries_view().take(g0.len() as int) =~= g0);
        }
    }

    /// Moves the shared clock to `now` and discards what died: what
    /// survives is exactly the in-flight list with its dead entries taken
    /// out, unchanged and in order.
    pub fn advance(&mut self, now: u64)
        requires
            now >= old(self).spec_time(),
        ensures
            final(self).spec_time() == now,
            final(self).configs_view() == old(self).configs_view(),
            final(self).wf() == old(self).wf(),
            final(self).entries_view() == live_entries(old(self).entries_view(), now),
            forall|j: int|
                0 <= j < final(self).entries_view().len()
                    ==> (#[trigger] final(self).entries_view()[j]).dead_time > now,
    {
        self.time = now;
        let mut src: Vec<SimEntry> = Vec::new();
        core::mem::swap(&mut self.entries, &mut src);
        let kept = discard_dead(src, now);
        self.entries = kept;
        proof {
            lemma_live_entries_live(old(self).entries_view(), now);
        }
    }

    /// Hands out the first deliverable datagram held for `to`, or nothing:
    /// the non-blocking empty read.
    pub fn recv_from(&mut self, to: Addr) -> (r: Option<(Addr, Vec<u8>)>)
        ensures
            final(self).spec_time() == old(self).spec_time(),
            final(self).configs_view() == old(self).configs_view(),
            final(self).wf() == old(self).wf(),
            r is Some <==> sim_first(old(self).entries_view(), to, old(self).spec_time()) >= 0,
            r is Some ==> ({
                let i = sim_first(old(self).entries_view(), to, old(self).spec_time());
                &&& r.unwrap().0 == old(self).entries_view()[i].from
                &&& r.unwrap().1@ == old(self).entries_view()[i].payload
                &&& final(self).entries_view() == old(self).entries_view().remove(i)
            }),
            r is None ==> final(self).entries_view() == old(self).entries_view(),
    {
        let len = self.entries.len();
        let mut i: usize = 0;
        while i < len
            invariant
                i <= len,
                len == self.entries_view().len(),
                self.entries@ == old(self).entries@,
                self.configs@ == old(self).configs@,
                self.time == old(self).spec_time(),
                forall|j: int|
                    0 <= j < i ==> !sim_deliverable(
                        #[trigger] self.entries_view()[j],
                        to,
                        self.time,
                    ),
            decreases len - i,
        {
            let hit = self.entries[i].to == to && self.entries[i].delivery_time <= self.time;
            if hit {
                proof {
                    assert(sim_deliverable(self.entries_view()[i as int], to, self.time));
                    lemma_sim_first_at(self.entries_view(), to, self.time, i as int);
                }
                let e = self.entries.remove(i);
                proof {
                    assert(self.entries_view() =~= old(self).entries_view().remove(i as int));
                }
                return Some((e.from, e.payload));
            }
            proof {
                assert(!sim_deliverable(self.entries_view()[i as int], to, self.time));
            }
            i = i + 1;
        }
        proof {
            lemma_sim_first_at(self.entries_view(), to, self.time, len as int);
        }
        None
    }

    /// Drops everything in flight.
    pub fn clear(&mut self)
        ensures
            final(self).entries_view().len() == 0,
            final(self).spec_time() == old(self).spec_time(),
            final(self).configs_view() == old(self).configs_view(),
            final(self).wf() == old(self).wf(),
    {
        self.entries = Vec::new();
    }
}


/// The entries of `s` still alive at `now`, unchanged and in order.
pub open spec fn live_entries(s: Seq<SimEntryView>, now: u64) -> Seq<SimEntryView>
    decreases s.len(),
{
    if s.len() == 0 {
        Seq::empty()
    } else if s[0].dead_time > now {
        seq![s[0]] + live_entries(s.drop_first(), now)
    } else {
        live_entries(s.drop_first(), now)
    }
}

/// Every survivor of the filter is alive.
proof fn lemma_live_entries_live(s: Seq<SimEntryView>, now: u64)
    ensures
        forall|j: int|
            0 <= j < live_entries(s, now).len() ==> (#[trigger] live_entries(s, now)[j]).dead_time
                > now,
    decreases s.len(),
{
    if s.len() > 0 {
        lemma_live_entries_live(s.drop_first(), now);
        let rest = live_entries(s.drop_first(), now);
        assert forall|j: int|
            0 <= j < live_entries(s, now).len() implies (#[trigger] live_entries(
            s,
            now,
        )[j]).dead_time > now by {
            if s[0].dead_time > now {
                assert(live_entries(s, now) == seq![s[0]] + rest);
                if j >= 1 {
                    assert(live_entries(s, now)[j] == rest[j - 1]);
                }
            } else {
                assert(live_entries(s, now) == rest);
            }
        }
    }
}

/// Filtering one more entry appends it exactly when it is alive.
proof fn lemma_live_entries_snoc(s: Seq<SimEntryView>, now: u64, i: int)
    requires
        0 <= i < s.len(),
    ensures
        live_entries(s.take(i + 1), now) == if s[i].dead_time > now {
            live_entries(s.take(i), now).push(s[i])
        } else {
            live_entries(s.take(i), now)
        },
    decreases i,
{
    if i == 0 {
        assert(s.take(1).len() == 1);
        assert(s.take(1)[0] == s[0]);
        assert(s.take(1).drop_first() =~= Seq::<SimEntryView>::empty());
        assert(s.take(0) =~= Seq::<SimEntryView>::empty());
        assert(live_entries(Seq::<SimEntryView>::empty(), now) == Seq::<SimEntryView>::empty());
        if s[0].dead_time > now {
            assert(live_entries(s.take(1), now) == seq![s[0]]
                + Seq::<SimEntryView>::empty());
            assert(seq![s[0]] + Seq::<SimEntryView>::empty() =~= Seq::<
                SimEntryView,
            >::empty().push(s[0]));
        } else {
            assert(live_entries(s.take(1), now) == Seq::<SimEntryView>::empty());
        }
    } else {
        lemma_live_entries_snoc(s.drop_first(), now, i - 1);
        assert(s.take(i + 1).drop_first() =~= s.drop_first().take(i));
        assert(s.take(i).drop_first() =~= s.drop_first().take(i - 1));
        assert(s.take(i + 1)[0] == s[0]);
        assert(s.take(i)[0] == s[0]);
        assert(s.take(i + 1).len() == i + 1);
        assert(s.take(i).len() == i);
        assert(s.drop_first()[i - 1] == s[i]);
        let x = live_entries(s.drop_first().take(i - 1), now);
        let y = live_entries(s.drop_first().take(i), now);
        assert(live_entries(s.take(i + 1), now) == if s[0].dead_time > now {
            seq![s[0]] + y
        } else {
            y
        });
        assert(live_entries(s.take(i), now) == if s[0].dead_time > now {
            seq![s[0]] + x
        } else {
            x
        });
        if s[i].dead_time > now {
            assert(y == x.push(s[i]));
            if s[0].dead_time > now {
                assert(seq![s[0]] + x.push(s[i]) =~= (seq![s[0]] + x).push(s[i]));
            }
        } else {
            assert(y == x);
        }
    }
}

/// Duplicates one in-flight datagram, byte for byte.
fn copy_entry(e: &SimEntry) -> (r: SimEntry)
    ensures
        r@ == e@,
{
    SimEntry {
        from: e.from,
        to: e.to,
        delivery_time: e.delivery_time,
        dead_time: e.dead_time,
        payload: vstd::slice::slice_to_vec(e.payload.as_slice()),
    }
}

/// Keeps exactly the entries that have not died by `now`, in order.
fn discard_dead(v: Vec<SimEntry>, now: u64) -> (r: Vec<SimEntry>)
    ensures
        sim_entries(r@) == live_entries(sim_entries(v@), now),
{
    let ghost g = sim_entries(v@);
    let len = v.len();
    let mut kept: Vec<SimEntry> = Vec::new();
    let mut i: usize = 0;
    proof {
        assert(g.take(0) =~= Seq::<SimEntryView>::empty());
        assert(sim_entries(kept@) =~= live_entries(g.take(0), now));
    }
    while i < len
        invariant
            i <= len,
            len == g.len(),
            g == sim_entries(v@),
            sim_entries(kept@) == live_entries(g.take(i as int), now),
        decreases len - i,
    {
        proof {
            assert(g[i as int] == v@[i as int]@);
            lemma_live_entries_snoc(g, now, i as int);
        }
        if v[i].dead_time > now {
            let ghost kv = sim_entries(kept@);
            let e = copy_entry(&v[i]);
            kept.push(e);
            proof {
                assert(sim_entries(kept@) =~= kv.push(g[i as int]));
            }
        }
        i = i + 1;
    }
    proof {
        assert(g.take(len as int) =~= g);
    }
    kept
}

} // verus!
