//! The per-peer encryption mapping: send/recv keys with idle expiry.
//!
//! `find` returns an entry only while it has been touched within its idle
//! timeout, and refreshes it; an expired entry is evicted on the lookup that
//! finds it dead, so expired entries are unreachable.

use vstd::prelude::*;
use crate::addr::Addr;
use crate::assoc::{assoc_get, assoc_has, assoc_unique, lemma_assoc_absent, lemma_assoc_at,
    lemma_assoc_remove, lemma_assoc_update};

verus! {

/// The mathematical content of one entry.
pub struct KeysView {
    pub timeout: u64,
    pub last_access: u64,
    pub send_key: Seq<u8>,
    pub recv_key: Seq<u8>,
}

/// Keys that can seal and open packets.
pub open spec fn keys_wf(v: KeysView) -> bool {
    v.send_key.len() == 32 && v.recv_key.len() == 32
}

/// Whether an entry is dead at `time`: it has sat idle for its whole
/// timeout or longer.
pub open spec fn spec_keys_expired(v: KeysView, time: u64) -> bool {
    v.last_access + v.timeout <= time
}

/// One peer's key material.
pub struct Keys {
    timeout: u64,
    last_access: u64,
    send_key: Vec<u8>,
    recv_key: Vec<u8>,
}

impl View for Keys {
    type V = KeysView;

    closed spec fn view(&self) -> KeysView {
        KeysView {
            timeout: self.timeout,
            last_access: self.last_access,
            send_key: self.send_key@,
            recv_key: self.recv_key@,
        }
    }
}

impl Keys {
    /// Whether the entry is dead at `time`.
    pub fn expired(&self, time: u64) -> (r: bool)
        ensures
            r == spec_keys_expired(self@, time),
    {
        match self.last_access.checked_add(self.timeout) {
            Some(t) => t <= time,
            None => false,
        }
    }

    /// Makes the entry immortal: no clock value short of the end of time
    /// can expire it afterwards.
    pub fn disable_expire(&mut self)
        ensures
            final(self)@ == (KeysView { timeout: u64::MAX, ..old(self)@ }),
            forall|t: u64| t < u64::MAX ==> !spec_keys_expired(final(self)@, t),
    {
        self.timeout = u64::MAX;
    }

    /// Key for sealing what goes to this peer.
    pub fn send_key(&self) -> (r: &Vec<u8>)
        ensures
            r@ == self@.send_key,
    {
        &self.send_key
    }

    /// Key for opening what this peer sent.
    pub fn recv_key(&self) -> (r: &Vec<u8>)
        ensures
            r@ == self@.recv_key,
    {
        &self.recv_key
    }

    /// The idle timeout, in the caller's clock units.
    pub fn timeout(&self) -> (r: u64)
        ensures
            r == self@.timeout,
    {
        self.timeout
    }
}

/// The key table of established connections.
pub struct Mapping {
    entries: Vec<(Addr, Keys)>,
    time: u64,
}

impl Mapping {
    /// What the table holds, as an association sequence.
    pub closed spec fn entries_view(&self) -> Seq<(Addr, KeysView)> {
        self.entries@.map_values(|p: (Addr, Keys)| (p.0, p.1@))
    }

    /// The table's clock, advanced by `advance`.
    pub closed spec fn spec_time(&self) -> u64 {
        self.time
    }

    /// Unique addresses, usable keys.
    pub open spec fn wf(&self) -> bool {
        &&& assoc_unique(self.entries_view())
        &&& forall|i: int|
            0 <= i < self.entries_view().len() ==> keys_wf(#[trigger] self.entries_view()[i].1)
    }

    /// An empty table at clock zero.
    pub fn new() -> (r: Mapping)
        ensures
            r.wf(),
            r.entries_view().len() == 0,
            r.spec_time() == 0,
    {
        Mapping { entries: Vec::new(), time: 0 }
    }

    /// Drops every entry and restarts the clock at `time`.
    pub fn reset(&mut self, time: u64)
        ensures
            final(self).wf(),
            final(self).entries_view().len() == 0,
            final(self).spec_time() == time,
    {
        self.entries = Vec::new();
        self.time = time;
    }

    /// Moves the clock to `time`.
    pub fn advance(&mut self, time: u64)
        ensures
            final(self).entries_view() == old(self).entries_view(),
            final(self).spec_time() == time,
            final(self).wf() == old(self).wf(),
    {
        self.time = time;
    }

    /// Finds the position of `addr`, if it is present.
    fn position(&self, addr: Addr) -> (r: Option<usize>)
        ensures
            r is Some <==> assoc_has(self.entries_view(), addr),
            r is Some ==> 0 <= r.unwrap() < self.entries_view().len()
                && self.entries_view()[r.unwrap() as int].0 == addr,
    {
        let len = self.entries.len();
        let mut i: usize = 0;
        while i < len
            invariant
                i <= len,
                len == self.entries_view().len(),
                forall|j: int| 0 <= j < i ==> self.entries_view()[j].0 != addr,
            decreases len - i,
        {
            if self.entries[i].0 == addr {
                proof {
                    assert(self.entries_view()[i as int].0 == addr);
                }
                return Some(i);
            }
            proof {
                assert(self.entries_view()[i as int].0 == self.entries@[i as int].0);
            }
            i = i + 1;
        }
        None
    }

    /// Installs keys for a fresh peer; refuses to overwrite an entry.
    pub fn insert(&mut self, addr: Addr, send_key: Vec<u8>, recv_key: Vec<u8>, timeout: u64) -> (r:
        bool)
        requires
            old(self).wf(),
            send_key@.len() == 32,
            recv_key@.len() == 32,
        ensures
            final(self).wf(),
            r == !assoc_has(old(self).entries_view(), addr),
            final(self).spec_time() == old(self).spec_time(),
            r ==> final(self).entries_view() == old(self).entries_view().push(
                (
                    addr,
                    KeysView {
                        timeout,
                        last_access: old(self).spec_time(),
                        send_key: send_key@,
                        recv_key: recv_key@,
                    },
                ),
            ),
            !r ==> final(self).entries_view() == old(self).entries_view(),
    {
        match self.position(addr) {
            Some(_) => false,
            None => {
                let k = Keys { timeout, last_access: self.time, send_key, recv_key };
                self.entries.push((addr, k));
                proof {
                    assert(self.entries_view() =~= old(self).entries_view().push(
                        (addr, k@),
                    ));
                }
                true
            },
        }
    }

    /// Takes a peer's entry out; says whether there was one.
    pub fn remove(&mut self, addr: Addr) -> (r: bool)
        requires
            old(self).wf(),
        ensures
            final(self).wf(),
            r == assoc_has(old(self).entries_view(), addr),
            final(self).spec_time() == old(self).spec_time(),
            !assoc_has(final(self).entries_view(), addr),
            forall|a: Addr|
                a != addr ==> (assoc_has(final(self).entries_view(), a) == assoc_has(
                    old(self).entries_view(),
                    a,
                ) && (assoc_has(old(self).entries_view(), a) ==> assoc_get(
                    final(self).entries_view(),
                    a,
                ) == assoc_get(old(self).entries_view(), a))),
    {
        match self.position(addr) {
            Some(i) => {
                self.entries.remove(i);
                proof {
                    lemma_assoc_remove(old(self).entries_view(), i as int, addr);
                    assert(self.entries_view() =~= old(self).entries_view().remove(i as int));
                }
                true
            },
            None => {
                proof {
                    lemma_assoc_absent(self.entries_view(), addr);
                }
                false
            },
        }
    }

    /// Whether a peer has an entry at all, dead or alive.
    pub fn contains(&self, addr: Addr) -> (r: bool)
        ensures
            r == assoc_has(self.entries_view(), addr),
    {
        match self.position(addr) {
            Some(_) => true,
            None => false,
        }
    }

    /// Looks a peer up: a copy of its keys while the entry is alive, with
    /// its last access refreshed; a dead entry is evicted and nothing comes
    /// back. An expired entry is thus unreachable.
    pub fn find(&mut self, addr: Addr) -> (r: Option<Keys>)
        requires
            old(self).wf(),
        ensures
            final(self).wf(),
            final(self).spec_time() == old(self).spec_time(),
            r is Some <==> (assoc_has(old(self).entries_view(), addr) && !spec_keys_expired(
                assoc_get(old(self).entries_view(), addr),
                old(self).spec_time(),
            )),
            r is Some ==> r.unwrap()@ == (KeysView {
                last_access: old(self).spec_time(),
                ..assoc_get(old(self).entries_view(), addr)
            }) && assoc_has(final(self).entries_view(), addr) && assoc_get(
                final(self).entries_view(),
                addr,
            ) == r.unwrap()@,
            r is None ==> !assoc_has(final(self).entries_view(), addr),
            forall|a: Addr|
                a != addr ==> (assoc_has(final(self).entries_view(), a) == assoc_has(
                    old(self).entries_view(),
                    a,
                ) && (assoc_has(old(self).entries_view(), a) ==> assoc_get(
                    final(self).entries_view(),
                    a,
                ) == assoc_get(old(self).entries_view(), a))),
    {
        match self.position(addr) {
            Some(i) => {
                let expired = self.entries[i].1.expired(self.time);
                if expired {
                    self.entries.remove(i);
                    proof {
                        lemma_assoc_remove(old(self).entries_view(), i as int, addr);
                        assert(self.entries_view() =~= old(self).entries_view().remove(
                            i as int,
                        ));
                    }
                    None
                } else {
                    let send_key = vstd::slice::slice_to_vec(
                        self.entries[i].1.send_key.as_slice(),
                    );
                    let recv_key = vstd::slice::slice_to_vec(
                        self.entries[i].1.recv_key.as_slice(),
                    );
                    let timeout = self.entries[i].1.timeout;
                    let fresh = Keys { timeout, last_access: self.time, send_key, recv_key };
                    let copy = Keys {
                        timeout,
                        last_access: self.time,
                        send_key: vstd::slice::slice_to_vec(fresh.send_key.as_slice()),
                        recv_key: vstd::slice::slice_to_vec(fresh.recv_key.as_slice()),
                    };
                    self.entries.set(i, (addr, fresh));
                    proof {
                        lemma_assoc_update(old(self).entries_view(), i as int, addr, copy@);
                        assert(self.entries_view() =~= old(self).entries_view().update(
                            i as int,
                            (addr, copy@),
                        ));
                        assert(keys_wf(old(self).entries_view()[i as int].1));
                        assert forall|j: int|
                            0 <= j < self.entries_view().len() implies keys_wf(
                            #[trigger] self.entries_view()[j].1,
                        ) by {
                            if j != i {
                                assert(self.entries_view()[j] == old(self).entries_view()[j]);
                                assert(keys_wf(old(self).entries_view()[j].1));
                            }
                        }
                    }
                    Some(copy)
                }
            },
            None => {
                proof {
                    lemma_assoc_absent(self.entries_view(), addr);
                }
                None
            },
        }
    }

    /// A copy of the key for opening this peer's packets, dead or alive.
    pub fn recv_key(&self, addr: Addr) -> (r: Option<Vec<u8>>)
        requires
            self.wf(),
        ensures
            r is Some <==> assoc_has(self.entries_view(), addr),
            r is Some ==> r.unwrap()@ == assoc_get(self.entries_view(), addr).recv_key,
    {
        match self.position(addr) {
            Some(i) => {
                proof {
                    lemma_assoc_at(self.entries_view(), i as int, addr);
                }
                Some(vstd::slice::slice_to_vec(self.entries[i].1.recv_key.as_slice()))
            },
            None => None,
        }
    }
}

} // verus!
