//! The address book manages information about what peers exist, when they
//! were last seen, and what services they provide.

use vstd::prelude::*;
use std::collections::HashMap;

verus! {

broadcast use vstd::std_specs::hash::group_hash_axioms;

/// A single observation of a peer: its endpoint, advertised service bits and
/// the time of the most recent observation.
///
/// The endpoint and the service bits are opaque identifiers to the registry;
/// the time is a signed timestamp (for instance seconds since the Unix epoch).
#[derive(Copy, Clone, Debug, Eq, PartialEq, Structural)]
pub struct PeerRecord {
    /// Opaque identifier of the peer's network endpoint, the unique key.
    pub addr: u64,
    /// Opaque capability bitmask advertised by the peer.
    pub services: u64,
    /// Timestamp of the most recent observation of this peer.
    pub last_seen: i64,
}

/// The records of `s` are sorted by `last_seen`, ascending.
pub open spec fn sorted_by_time(s: Seq<PeerRecord>) -> bool {
    forall|i: int, j: int| 0 <= i < j < s.len() ==> #[trigger] s[i].last_seen <= #[trigger] s[j].last_seen
}

/// No address occurs twice in `s`.
pub open spec fn addrs_unique(s: Seq<PeerRecord>) -> bool {
    forall|i: int, j: int| 0 <= i < j < s.len() ==> (#[trigger] s[i].addr) != (#[trigger] s[j].addr)
}

/// `s` holds a record for address `a`.
pub open spec fn contains_addr(s: Seq<PeerRecord>, a: u64) -> bool {
    exists|i: int| 0 <= i < s.len() && (#[trigger] s[i].addr) == a
}

/// The dual-index consistency invariant: every record of the time-ordered
/// index `s` is the record the address map `m` holds for its address, every
/// address of `m` has a record in `s`, `s` is sorted by time, and no address
/// occurs twice in `s` — so each held address has exactly one consistent
/// record reachable from both indices.
pub open spec fn consistent(s: Seq<PeerRecord>, m: Map<u64, PeerRecord>) -> bool {
    &&& forall|i: int| 0 <= i < s.len() ==> m.contains_key((#[trigger] s[i]).addr) && m[s[i].addr] == s[i]
    &&& forall|a: u64| #[trigger] m.contains_key(a) ==> contains_addr(s, a)
    &&& sorted_by_time(s)
    &&& addrs_unique(s)
}

/// One observation applied to the address-keyed model: a strictly older event
/// for a held address is discarded, a newer-or-equal one replaces the held
/// timestamp and services together, and an event for a new address is added.
pub open spec fn upd(m: Map<u64, PeerRecord>, e: PeerRecord) -> Map<u64, PeerRecord> {
    if m.contains_key(e.addr) && e.last_seen < m[e.addr].last_seen {
        m
    } else {
        m.insert(e.addr, e)
    }
}

/// A batch of observations applied in order, each under the merge rule of
/// [`upd`]; later elements can overwrite earlier ones.
pub open spec fn upd_all(m: Map<u64, PeerRecord>, es: Seq<PeerRecord>) -> Map<u64, PeerRecord>
    decreases es.len(),
{
    if es.len() == 0 {
        m
    } else {
        upd(upd_all(m, es.drop_last()), es.last())
    }
}

/// The records of `s` last seen strictly before `cutoff`, in the order of `s`.
pub open spec fn older_than(s: Seq<PeerRecord>, cutoff: int) -> Seq<PeerRecord> {
    s.filter(|p: PeerRecord| p.last_seen < cutoff)
}

/// The position of the record for address `a` in `s`: the single one, when
/// the addresses of `s` are unique and one of them is `a`.
pub open spec fn addr_index(s: Seq<PeerRecord>, a: u64) -> int {
    choose|i: int| 0 <= i < s.len() && (#[trigger] s[i].addr) == a
}

/// The record `s` holds for address `a`.
pub open spec fn record_for(s: Seq<PeerRecord>, a: u64) -> PeerRecord {
    s[addr_index(s, a)]
}

/// `s` without the record for address `a`, if it holds one.
pub open spec fn without_addr(s: Seq<PeerRecord>, a: u64) -> Seq<PeerRecord> {
    if contains_addr(s, a) {
        s.remove(addr_index(s, a))
    } else {
        s
    }
}

/// Where an observation seen at `t` enters the ordered index `s`: after
/// every record seen at or before `t`.
pub open spec fn insertion_point(s: Seq<PeerRecord>, t: i64) -> int {
    older_than(s, t + 1).len() as int
}

/// One observation applied to the time-ordered model: the merge rule of
/// [`upd`] at the sequence level. A discarded event leaves the index alone;
/// an accepted one removes the stale record, if any, and enters at its
/// sorted place, after the records sharing its timestamp.
pub open spec fn seq_upd(s: Seq<PeerRecord>, e: PeerRecord) -> Seq<PeerRecord> {
    if contains_addr(s, e.addr) && e.last_seen < record_for(s, e.addr).last_seen {
        s
    } else {
        let base = without_addr(s, e.addr);
        base.insert(insertion_point(base, e.last_seen), e)
    }
}

/// A batch of observations applied in order at the sequence level, each under
/// the merge rule of [`seq_upd`].
pub open spec fn seq_upd_all(s: Seq<PeerRecord>, es: Seq<PeerRecord>) -> Seq<PeerRecord>
    decreases es.len(),
{
    if es.len() == 0 {
        s
    } else {
        seq_upd(seq_upd_all(s, es.drop_last()), es.last())
    }
}

/// A database of peers, their advertised services, and information on when
/// they were last seen.
///
/// Two indices cover the same set of records: an unordered map keyed by
/// address and a time-ordered list. [`AddressBook::wf`] ties them together;
/// every operation preserves it.
pub struct AddressBook {
    by_addr: HashMap<u64, (i64, u64)>,
    by_time: Vec<PeerRecord>,
}

impl AddressBook {
    /// The time-ordered index: all held records, ascending by `last_seen`.
    pub closed spec fn view(&self) -> Seq<PeerRecord> {
        self.by_time@
    }

    /// The address-keyed index, as a map from address to full record.
    pub closed spec fn map_view(&self) -> Map<u64, PeerRecord> {
        Map::new(
            |a: u64| self.by_addr@.contains_key(a),
            |a: u64| PeerRecord {
                addr: a,
                last_seen: self.by_addr@[a].0,
                services: self.by_addr@[a].1,
            },
        )
    }

    /// Well-formedness: the two indices hold consistent views of one record
    /// set. Established by [`AddressBook::new`] and preserved by every
    /// operation.
    pub open spec fn wf(&self) -> bool {
        consistent(self@, self.map_view())
    }

    /// An empty address book.
    pub fn new() -> (r: Self)
        ensures
            r.wf(),
            r@ === Seq::<PeerRecord>::empty(),
            r.map_view() === Map::<u64, PeerRecord>::empty(),
    {
        let r = AddressBook { by_addr: HashMap::new(), by_time: Vec::new() };
        proof {
            assert(r.map_view() =~= Map::<u64, PeerRecord>::empty());
            assert(r@ =~= Seq::<PeerRecord>::empty());
        }
        r
    }

    /// Update the address book with `event`, the observation of a peer.
    ///
    /// A strictly older observation than the held one is discarded; a
    /// newer-or-equal one replaces the held timestamp and services in both
    /// indices; an unseen address is added.
    pub fn update(&mut self, event: PeerRecord)
        requires
            old(self).wf(),
        ensures
            final(self).wf(),
            final(self).map_view() == upd(old(self).map_view(), event),
            final(self)@ == seq_upd(old(self)@, event),
    {
        let addr: u64 = event.addr;
        let prev: Option<(i64, u64)> = match self.by_addr.get(&addr) {
            Some(p) => Some(*p),
            None => None,
        };
        match prev {
            Some((prev_seen, _)) => {
                proof {
                    assert(old(self).map_view().contains_key(addr));
                    assert(old(self).map_view()[addr].last_seen == prev_seen);
                }
                if event.last_seen < prev_seen {
                    // Strictly older than the held observation: discard.
                    proof {
                        assert(upd(old(self).map_view(), event) =~= old(self).map_view());
                        assert(contains_addr(old(self)@, addr));
                        let ci: int = addr_index(old(self)@, addr);
                        assert(0 <= ci < old(self)@.len() && old(self)@[ci].addr == addr);
                        assert(old(self)@[ci] == old(self).map_view()[addr]);
                        assert(seq_upd(old(self)@, event) == old(self)@);
                    }
                    return;
                }
                let idx: usize = find_addr_index(&self.by_time, addr);
                let ghost s0 = self.by_time@;
                proof {
                    // The record at `idx` is the one the address map holds.
                    assert(self.map_view()[s0[idx as int].addr] == s0[idx as int]);
                }
                self.by_time.remove(idx);
                let ghost s1 = self.by_time@;
                proof {
                    assert forall|k: int| 0 <= k < s1.len() implies #[trigger] s1[k].addr != addr by {
                        if k < idx {
                            assert(s1[k] == s0[k]);
                        } else {
                            assert(s1[k] == s0[k + 1]);
                        }
                    }
                    assert forall|k: int| 0 <= k < s1.len()
                        implies old(self).map_view().contains_key((#[trigger] s1[k]).addr)
                            && old(self).map_view()[s1[k].addr] == s1[k] by {
                        if k < idx {
                            assert(s1[k] == s0[k]);
                        } else {
                            assert(s1[k] == s0[k + 1]);
                        }
                    }
                    assert forall|a: u64| #[trigger] old(self).map_view().contains_key(a)
                        && a != addr implies contains_addr(s1, a) by {
                        let w: int = choose|i: int| 0 <= i < s0.len() && (#[trigger] s0[i].addr) == a;
                        if w < idx {
                            assert(s1[w].addr == a);
                        } else {
                            assert(s0[idx as int].addr == addr);
                            assert(s1[w - 1].addr == a);
                        }
                    }
                    lemma_remove_keeps_order(s0, idx as int);
                }
                self.by_addr.insert(addr, (event.last_seen, event.services));
                let j: usize = find_insert_index(&self.by_time, event.last_seen);
                self.by_time.insert(j, event);
                proof {
                    assert(self.map_view() =~= old(self).map_view().insert(addr, event));
                    self.lemma_update_reestablishes(*old(self), event, s1, j as int);
                    // The sequence matches the model: the record at `idx` is
                    // the one the model removes, and `j` is where the model
                    // inserts the event.
                    assert(contains_addr(s0, addr));
                    let ci: int = addr_index(s0, addr);
                    assert(0 <= ci < s0.len() && s0[ci].addr == addr);
                    if ci < idx as int {
                        assert(s0[ci].addr != s0[idx as int].addr);
                    }
                    if (idx as int) < ci {
                        assert(s0[idx as int].addr != s0[ci].addr);
                    }
                    assert(ci == idx as int);
                    assert(record_for(s0, addr) == old(self).map_view()[addr]);
                    assert(without_addr(s0, addr) == s1);
                    lemma_filter_prefix(s1, event.last_seen + 1, j as int);
                    assert(insertion_point(s1, event.last_seen) == j as int);
                    assert(self@ == seq_upd(s0, event));
                }
            },
            None => {
                proof {
                    assert(!old(self).map_view().contains_key(addr));
                    assert forall|k: int| 0 <= k < self.by_time@.len()
                        implies #[trigger] self.by_time@[k].addr != addr by {
                        assert(old(self).map_view().contains_key(self.by_time@[k].addr));
                    }
                }
                let ghost s1 = self.by_time@;
                self.by_addr.insert(addr, (event.last_seen, event.services));
                let j: usize = find_insert_index(&self.by_time, event.last_seen);
                self.by_time.insert(j, event);
                proof {
                    assert(self.map_view() =~= old(self).map_view().insert(addr, event));
                    self.lemma_update_reestablishes(*old(self), event, s1, j as int);
                    // The sequence matches the model: no record leaves, and
                    // `j` is where the model inserts the event.
                    assert(!contains_addr(s1, addr));
                    assert(without_addr(s1, addr) == s1);
                    lemma_filter_prefix(s1, event.last_seen + 1, j as int);
                    assert(insertion_point(s1, event.last_seen) == j as int);
                    assert(self@ == seq_upd(s1, event));
                }
            },
        }
    }

    /// After the stale record for `event.addr` (if any) has left the ordered
    /// index, inserting `event` at its sorted place and writing it to the
    /// address map leaves the book well formed.
    proof fn lemma_update_reestablishes(
        &self,
        prev: AddressBook,
        event: PeerRecord,
        s1: Seq<PeerRecord>,
        j: int,
    )
        requires
            prev.wf(),
            forall|k: int| 0 <= k < s1.len() ==> (#[trigger] s1[k]).addr != event.addr,
            forall|k: int| 0 <= k < s1.len() ==> prev.map_view().contains_key((#[trigger] s1[k]).addr)
                && prev.map_view()[s1[k].addr] == s1[k],
            forall|a: u64| #[trigger] prev.map_view().contains_key(a) && a != event.addr
                ==> contains_addr(s1, a),
            sorted_by_time(s1),
            addrs_unique(s1),
            0 <= j <= s1.len(),
            forall|k: int| 0 <= k < j ==> (#[trigger] s1[k]).last_seen <= event.last_seen,
            forall|k: int| j <= k < s1.len() ==> (#[trigger] s1[k]).last_seen > event.last_seen,
            self@ == s1.insert(j, event),
            self.map_view() == prev.map_view().insert(event.addr, event),
        ensures
            self.wf(),
    {
        let s2 = self@;
        let m2 = self.map_view();
        assert forall|k: int| 0 <= k < s2.len()
            implies m2.contains_key((#[trigger] s2[k]).addr) && m2[s2[k].addr] == s2[k] by {
            if k < j {
                assert(s2[k] == s1[k]);
            } else if k == j {
                assert(s2[k] == event);
            } else {
                assert(s2[k] == s1[k - 1]);
            }
        }
        assert forall|a: u64| #[trigger] m2.contains_key(a) implies contains_addr(s2, a) by {
            if a == event.addr {
                assert(s2[j].addr == a);
            } else {
                let w: int = choose|i: int| 0 <= i < s1.len() && (#[trigger] s1[i].addr) == a;
                if w < j {
                    assert(s2[w].addr == a);
                } else {
                    assert(s2[w + 1].addr == a);
                }
            }
        }
        assert forall|i: int, k: int| 0 <= i < k < s2.len()
            implies #[trigger] s2[i].last_seen <= #[trigger] s2[k].last_seen by {
            assert(i < j ==> s2[i] == s1[i]);
            assert(i == j ==> s2[i] == event);
            assert(i > j ==> s2[i] == s1[i - 1]);
            assert(k < j ==> s2[k] == s1[k]);
            assert(k == j ==> s2[k] == event);
            assert(k > j ==> s2[k] == s1[k - 1]);
        }
        assert forall|i: int, k: int| 0 <= i < k < s2.len()
            implies (#[trigger] s2[i].addr) != (#[trigger] s2[k].addr) by {
            assert(i < j ==> s2[i] == s1[i]);
            assert(i == j ==> s2[i] == event);
            assert(i > j ==> s2[i] == s1[i - 1]);
            assert(k < j ==> s2[k] == s1[k]);
            assert(k == j ==> s2[k] == event);
            assert(k > j ==> s2[k] == s1[k - 1]);
        }
    }

    /// All peers, ordered from most recently seen to least recently seen.
    pub fn peers(&self) -> (r: Vec<PeerRecord>)
        ensures
            r@ == self@.reverse(),
    {
        let mut r: Vec<PeerRecord> = Vec::new();
        let mut i: usize = self.by_time.len();
        while i > 0
            invariant
                i <= self@.len(),
                r@.len() == self@.len() - i,
                forall|k: int| 0 <= k < r@.len() ==> #[trigger] r@[k] == self@[self@.len() - 1 - k],
            decreases i,
        {
            i -= 1;
            r.push(self.by_time[i]);
        }
        proof {
            assert(r@ =~= self@.reverse());
        }
        r
    }

    /// Peers last seen strictly before `cutoff`, ordered from most recently
    /// seen to least recently seen: exactly the filtered view of the ordered
    /// index, reversed.
    pub fn disconnected_peers_at(&self, cutoff: i64) -> (r: Vec<PeerRecord>)
        requires
            self.wf(),
        ensures
            r@ == older_than(self@, cutoff as int).reverse(),
    {
        let k: usize = find_cutoff_index(&self.by_time, cutoff);
        proof {
            lemma_filter_prefix(self@, cutoff as int, k as int);
        }
        let mut r: Vec<PeerRecord> = Vec::new();
        let mut i: usize = k;
        while i > 0
            invariant
                i <= k <= self@.len(),
                r@.len() == k - i,
                forall|m: int| 0 <= m < r@.len() ==> #[trigger] r@[m] == self@[k - 1 - m],
            decreases i,
        {
            i -= 1;
            r.push(self.by_time[i]);
        }
        proof {
            assert(r@ =~= self@.subrange(0, k as int).reverse());
        }
        r
    }

    /// Peers known to be disconnected: a peer whose last observation is
    /// strictly older than `now - live_peer_duration` cannot still be
    /// connected, since within that interval a live peer either sends a
    /// message or is disconnected. A peer seen exactly at the cutoff is still
    /// possibly live and excluded. Ordered from most recently seen to least
    /// recently seen.
    pub fn disconnected_peers(&self, now: i64, live_peer_duration: i64) -> (r: Vec<PeerRecord>)
        requires
            self.wf(),
            0 <= live_peer_duration,
            i64::MIN + live_peer_duration <= now,
        ensures
            r@ == older_than(self@, now - live_peer_duration).reverse(),
    {
        self.disconnected_peers_at(now - live_peer_duration)
    }

    /// Peers known to be disconnected as of the system clock's present time,
    /// ordered from most recently seen to least recently seen. The clock is
    /// read once; whatever instant it reports, the result is the
    /// disconnected view at some single cutoff.
    pub fn disconnected_peers_now(&self, live_peer_duration: i64) -> (r: Vec<PeerRecord>)
        requires
            self.wf(),
            0 <= live_peer_duration,
        ensures
            exists|cutoff: int| r@ == older_than(self@, cutoff).reverse(),
    {
        let now: i64 = current_timestamp();
        let cutoff: i64 = if now >= i64::MIN + live_peer_duration {
            now - live_peer_duration
        } else {
            i64::MIN
        };
        let r = self.disconnected_peers_at(cutoff);
        proof {
            assert(r@ == older_than(self@, cutoff as int).reverse());
        }
        r
    }

    /// Removes and returns the most recently seen record, from both indices;
    /// `None` on an empty book.
    pub fn drain_next(&mut self) -> (r: Option<PeerRecord>)
        requires
            old(self).wf(),
        ensures
            final(self).wf(),
            old(self)@.len() == 0 ==> r is None && final(self)@ == old(self)@
                && final(self).map_view() == old(self).map_view(),
            old(self)@.len() > 0 ==> {
                &&& r == Some(old(self)@.last())
                &&& final(self)@ == old(self)@.drop_last()
                &&& final(self).map_view() == old(self).map_view().remove(old(self)@.last().addr)
            },
    {
        if self.by_time.len() == 0 {
            return None;
        }
        let rec = self.by_time.pop().unwrap();
        self.by_addr.remove(&rec.addr);
        proof {
            let s0 = old(self)@;
            let s1 = self@;
            assert(rec == s0.last());
            assert forall|k: int| 0 <= k < s1.len() implies #[trigger] s1[k].addr != rec.addr by {
                assert(s1[k] == s0[k]);
                assert(s0[k].addr != s0[s0.len() - 1].addr);
            }
            assert(self.map_view() =~= old(self).map_view().remove(rec.addr));
            assert forall|a: u64| #[trigger] self.map_view().contains_key(a)
                implies contains_addr(s1, a) by {
                let w: int = choose|i: int| 0 <= i < s0.len() && (#[trigger] s0[i].addr) == a;
                assert(w < s0.len() - 1);
                assert(s1[w].addr == a);
            }
        }
        Some(rec)
    }

    /// Removes the `count` most recently seen records — all of them, if
    /// fewer are held — from both indices and returns them, ordered from
    /// most recently seen to least recently seen. The oldest records stay,
    /// in their order.
    pub fn drain_many(&mut self, count: usize) -> (r: Vec<PeerRecord>)
        requires
            old(self).wf(),
        ensures
            final(self).wf(),
            final(self)@ == old(self)@.subrange(
                0,
                old(self)@.len() - vstd::math::min(count as int, old(self)@.len() as int),
            ),
            r@ == old(self)@.subrange(
                old(self)@.len() - vstd::math::min(count as int, old(self)@.len() as int),
                old(self)@.len() as int,
            ).reverse(),
    {
        let ghost s0 = old(self)@;
        let mut r: Vec<PeerRecord> = Vec::new();
        let mut taken: usize = 0;
        while taken < count && self.by_time.len() > 0
            invariant
                self.wf(),
                taken <= count,
                taken as int == s0.len() - self@.len(),
                self@ == s0.subrange(0, s0.len() - taken),
                r@.len() == taken,
                forall|i: int| 0 <= i < r@.len() ==> #[trigger] r@[i] == s0[s0.len() - 1 - i],
            decreases count - taken,
        {
            let ghost before = self@;
            let rec = self.drain_next().unwrap();
            proof {
                assert(rec == before.last());
                assert(before.last() == s0[s0.len() - 1 - taken]);
                assert(self@ =~= s0.subrange(0, s0.len() - (taken + 1)));
            }
            r.push(rec);
            taken += 1;
        }
        proof {
            let t: int = vstd::math::min(count as int, s0.len() as int);
            assert(taken == t);
            assert(r@ =~= s0.subrange(s0.len() - t, s0.len() as int).reverse());
        }
        r
    }

    /// Drains the whole book, removing entries from both indices in order
    /// from most recently seen to least recently seen, and returns them in
    /// that order. The book is empty afterwards.
    pub fn drain_recent(&mut self) -> (r: Vec<PeerRecord>)
        requires
            old(self).wf(),
        ensures
            final(self).wf(),
            final(self)@ === Seq::<PeerRecord>::empty(),
            final(self).map_view() === Map::<u64, PeerRecord>::empty(),
            r@ == old(self)@.reverse(),
    {
        let count: usize = self.by_time.len();
        let r = self.drain_many(count);
        proof {
            assert(self@ =~= Seq::<PeerRecord>::empty());
            assert forall|a: u64| !(#[trigger] self.map_view().contains_key(a)) by {
                if self.map_view().contains_key(a) {
                    assert(contains_addr(self@, a));
                }
            }
            assert(self.map_view() =~= Map::<u64, PeerRecord>::empty());
            assert(r@ =~= old(self)@.reverse());
        }
        r
    }

    /// Bulk ingest: applies [`AddressBook::update`] to each record in order,
    /// so later elements of the batch can overwrite earlier ones under the
    /// same merge rule.
    pub fn extend(&mut self, records: &Vec<PeerRecord>)
        requires
            old(self).wf(),
        ensures
            final(self).wf(),
            final(self).map_view() == upd_all(old(self).map_view(), records@),
            final(self)@ == seq_upd_all(old(self)@, records@),
    {
        let ghost m0 = old(self).map_view();
        let ghost v0 = old(self)@;
        let mut i: usize = 0;
        while i < records.len()
            invariant
                self.wf(),
                i <= records@.len(),
                self.map_view() == upd_all(m0, records@.subrange(0, i as int)),
                self@ == seq_upd_all(v0, records@.subrange(0, i as int)),
            decreases records@.len() - i,
        {
            self.update(records[i]);
            proof {
                let pre = records@.subrange(0, i as int);
                let post = records@.subrange(0, i + 1);
                assert(post.drop_last() =~= pre);
                assert(post.last() == records@[i as int]);
            }
            i += 1;
        }
        proof {
            assert(records@.subrange(0, records@.len() as int) =~= records@);
        }
    }
}

impl Default for AddressBook {
    /// An empty address book, as [`AddressBook::new`] gives.
    fn default() -> (r: Self)
        ensures
            r.wf(),
            r@ === Seq::<PeerRecord>::empty(),
            r.map_view() === Map::<u64, PeerRecord>::empty(),
    {
        AddressBook::new()
    }
}

/// Relies on `std::time::SystemTime::now` and
/// `SystemTime::duration_since` against the Unix epoch: the present time of
/// the system clock as whole seconds since the epoch, negative for a clock
/// set before it, saturating at the ends of the range. Both outcomes of
/// `duration_since` are handled, so the call returns on every clock state;
/// nothing more can be promised of the value.
#[verifier::external_body]
fn current_timestamp() -> i64 {
    match std::time::SystemTime::now().duration_since(std::time::UNIX_EPOCH) {
        Ok(since) => {
            let secs = since.as_secs();
            if secs > i64::MAX as u64 { i64::MAX } else { secs as i64 }
        },
        Err(before) => {
            let secs = before.duration().as_secs();
            if secs > i64::MAX as u64 { i64::MIN } else { -(secs as i64) }
        },
    }
}

/// For an address held by consistent indices there is exactly one record in
/// the time-ordered index, and it is the record the address map holds.
pub proof fn lemma_exactly_one_entry(s: Seq<PeerRecord>, m: Map<u64, PeerRecord>, a: u64)
    requires
        consistent(s, m),
        m.contains_key(a),
    ensures
        exists|i: int| 0 <= i < s.len() && (#[trigger] s[i].addr) == a,
        forall|i: int, j: int| 0 <= i < s.len() && 0 <= j < s.len()
            && (#[trigger] s[i].addr) == a && (#[trigger] s[j].addr) == a ==> i == j,
        forall|i: int| 0 <= i < s.len() && (#[trigger] s[i].addr) == a ==> s[i] == m[a],
{
    assert(contains_addr(s, a));
    assert forall|i: int, j: int| 0 <= i < s.len() && 0 <= j < s.len()
        && (#[trigger] s[i].addr) == a && (#[trigger] s[j].addr) == a implies i == j by {
        if i < j {
            assert(s[i].addr != s[j].addr);
        } else if j < i {
            assert(s[j].addr != s[i].addr);
        }
    }
}

/// A strictly older observation than the held one never changes the held
/// record: neither its services nor its timestamp.
pub proof fn lemma_stale_rejected(m: Map<u64, PeerRecord>, e: PeerRecord)
    requires
        m.contains_key(e.addr),
        e.last_seen < m[e.addr].last_seen,
    ensures
        upd(m, e) == m,
{
}

/// An observation carrying the timestamp already held replaces the record:
/// the latest-reported capability set for an observation instant wins.
pub proof fn lemma_equal_timestamp_overwrites(m: Map<u64, PeerRecord>, e: PeerRecord)
    requires
        m.contains_key(e.addr),
        e.last_seen == m[e.addr].last_seen,
    ensures
        upd(m, e) == m.insert(e.addr, e),
        upd(m, e)[e.addr] == e,
{
}

/// Last-seen-wins is order independent: two observations of one address with
/// distinct timestamps leave the same state whichever arrives first. Unless
/// the held record is already newer than both, that state holds the record
/// with the newer of the two timestamps.
pub proof fn lemma_update_order_independent(
    m: Map<u64, PeerRecord>,
    e1: PeerRecord,
    e2: PeerRecord,
)
    requires
        e1.addr == e2.addr,
        e1.last_seen < e2.last_seen,
    ensures
        upd(upd(m, e1), e2) == upd(upd(m, e2), e1),
        m.contains_key(e1.addr) && m[e1.addr].last_seen > e2.last_seen
            ==> upd(upd(m, e1), e2)[e1.addr] == m[e1.addr],
        !(m.contains_key(e1.addr) && m[e1.addr].last_seen > e2.last_seen)
            ==> upd(upd(m, e1), e2)[e1.addr] == e2,
{
    assert(upd(upd(m, e1), e2) =~= upd(upd(m, e2), e1));
}

/// Repeating an identical observation changes nothing: the second
/// application is an equal-timestamp overwrite with the very record already
/// held, at the address map and at the time-ordered index alike.
pub proof fn lemma_update_idempotent(s: Seq<PeerRecord>, m: Map<u64, PeerRecord>, e: PeerRecord)
    requires
        addrs_unique(s),
    ensures
        upd(upd(m, e), e) == upd(m, e),
        seq_upd(seq_upd(s, e), e) == seq_upd(s, e),
{
    broadcast use vstd::seq_lib::group_filter_ensures;

    assert(upd(upd(m, e), e) =~= upd(m, e));
    if !(contains_addr(s, e.addr) && e.last_seen < record_for(s, e.addr).last_seen) {
        let base = without_addr(s, e.addr);
        let p: int = insertion_point(base, e.last_seen);
        let s1 = seq_upd(s, e);
        assert(0 <= p <= base.len());
        assert(s1 == base.insert(p, e));
        assert(s1[p] == e);
        // `base` holds no record for the event's address, so in `s1` the
        // single one sits at `p`.
        assert forall|k: int| 0 <= k < base.len() implies (#[trigger] base[k]).addr != e.addr by {
            if contains_addr(s, e.addr) {
                let ci: int = addr_index(s, e.addr);
                assert(0 <= ci < s.len() && s[ci].addr == e.addr);
                if k < ci {
                    assert(base[k] == s[k]);
                    assert(s[k].addr != s[ci].addr);
                } else {
                    assert(base[k] == s[k + 1]);
                    assert(s[ci].addr != s[k + 1].addr);
                }
            }
        }
        assert(contains_addr(s1, e.addr));
        let ci1: int = addr_index(s1, e.addr);
        assert(0 <= ci1 < s1.len() && s1[ci1].addr == e.addr);
        if ci1 != p {
            if ci1 < p {
                assert(s1[ci1] == base[ci1]);
            } else {
                assert(s1[ci1] == base[ci1 - 1]);
            }
        }
        assert(ci1 == p);
        assert(record_for(s1, e.addr) == e);
        // The second application removes `e` again and puts it back in the
        // same place.
        assert(s1.remove(p) =~= base);
        assert(without_addr(s1, e.addr) == base);
        assert(seq_upd(s1, e) == base.insert(p, e));
    }
}

/// The reverse of a time-sorted sequence — the order in which `peers` and
/// `drain_recent` hand records out — runs from most recently seen to least
/// recently seen.
pub proof fn lemma_reverse_descending(s: Seq<PeerRecord>)
    requires
        sorted_by_time(s),
    ensures
        forall|i: int, j: int| 0 <= i < j < s.len()
            ==> (#[trigger] s.reverse()[i]).last_seen >= (#[trigger] s.reverse()[j]).last_seen,
{
    assert forall|i: int, j: int| 0 <= i < j < s.len()
        implies (#[trigger] s.reverse()[i]).last_seen >= (#[trigger] s.reverse()[j]).last_seen by {
        assert(s[s.len() - 1 - j].last_seen <= s[s.len() - 1 - i].last_seen);
    }
}

/// The liveness boundary is exclusive: a record seen strictly before the
/// cutoff is in the disconnected view, one seen at the cutoff or later is
/// not.
pub proof fn lemma_liveness_boundary(s: Seq<PeerRecord>, cutoff: int, i: int)
    requires
        0 <= i < s.len(),
    ensures
        s[i].last_seen < cutoff ==> older_than(s, cutoff).contains(s[i]),
        s[i].last_seen >= cutoff ==> !older_than(s, cutoff).contains(s[i]),
{
    broadcast use vstd::seq_lib::group_filter_ensures;

    if s[i].last_seen < cutoff {
        assert(older_than(s, cutoff).contains(s[i]));
    } else {
        if older_than(s, cutoff).contains(s[i]) {
            let w: int = choose|k: int| 0 <= k < older_than(s, cutoff).len()
                && older_than(s, cutoff)[k] == s[i];
            assert(older_than(s, cutoff)[w].last_seen < cutoff);
        }
    }
}

/// Removing one record keeps the ordered index sorted and its addresses
/// unique.
proof fn lemma_remove_keeps_order(s0: Seq<PeerRecord>, idx: int)
    requires
        0 <= idx < s0.len(),
        sorted_by_time(s0),
        addrs_unique(s0),
    ensures
        sorted_by_time(s0.remove(idx)),
        addrs_unique(s0.remove(idx)),
{
    let s1 = s0.remove(idx);
    assert forall|i: int, j: int| 0 <= i < j < s1.len()
        implies #[trigger] s1[i].last_seen <= #[trigger] s1[j].last_seen by {
        assert(s1[i] == if i < idx { s0[i] } else { s0[i + 1] });
        assert(s1[j] == if j < idx { s0[j] } else { s0[j + 1] });
    }
    assert forall|i: int, j: int| 0 <= i < j < s1.len()
        implies (#[trigger] s1[i].addr) != (#[trigger] s1[j].addr) by {
        assert(s1[i] == if i < idx { s0[i] } else { s0[i + 1] });
        assert(s1[j] == if j < idx { s0[j] } else { s0[j + 1] });
    }
}

/// The position of the record for `addr` in `v`.
fn find_addr_index(v: &Vec<PeerRecord>, addr: u64) -> (idx: usize)
    requires
        contains_addr(v@, addr),
    ensures
        idx < v@.len(),
        v@[idx as int].addr == addr,
{
    let ghost w: int = choose|k: int| 0 <= k < v@.len() && (#[trigger] v@[k].addr) == addr;
    let mut i: usize = 0;
    while v.len() > i && v[i].addr != addr
        invariant
            0 <= w < v@.len(),
            v@[w].addr == addr,
            i <= w,
        decreases v@.len() - i,
    {
        i += 1;
    }
    i
}

/// The first position whose record was last seen after `t`; records before it
/// were last seen at or before `t`.
fn find_insert_index(v: &Vec<PeerRecord>, t: i64) -> (idx: usize)
    requires
        sorted_by_time(v@),
    ensures
        idx <= v@.len(),
        forall|j: int| 0 <= j < idx ==> (#[trigger] v@[j]).last_seen <= t,
        forall|j: int| idx <= j < v@.len() ==> (#[trigger] v@[j]).last_seen > t,
{
    let mut lo: usize = 0;
    let mut hi: usize = v.len();
    while lo < hi
        invariant
            lo <= hi <= v@.len(),
            forall|j: int| 0 <= j < lo ==> (#[trigger] v@[j]).last_seen <= t,
            forall|j: int| hi <= j < v@.len() ==> (#[trigger] v@[j]).last_seen > t,
            sorted_by_time(v@),
        decreases hi - lo,
    {
        let mid: usize = lo + (hi - lo) / 2;
        if v[mid].last_seen <= t {
            proof {
                assert forall|j: int| 0 <= j < mid + 1
                    implies (#[trigger] v@[j]).last_seen <= t by {
                    assert(v@[j].last_seen <= v@[mid as int].last_seen);
                }
            }
            lo = mid + 1;
        } else {
            proof {
                assert forall|j: int| mid <= j < v@.len()
                    implies (#[trigger] v@[j]).last_seen > t by {
                    assert(v@[mid as int].last_seen <= v@[j].last_seen);
                }
            }
            hi = mid;
        }
    }
    lo
}

/// The first position whose record was last seen at or after `cutoff`;
/// records before it were last seen strictly earlier.
fn find_cutoff_index(v: &Vec<PeerRecord>, cutoff: i64) -> (idx: usize)
    requires
        sorted_by_time(v@),
    ensures
        idx <= v@.len(),
        forall|j: int| 0 <= j < idx ==> (#[trigger] v@[j]).last_seen < cutoff,
        forall|j: int| idx <= j < v@.len() ==> (#[trigger] v@[j]).last_seen >= cutoff,
{
    let mut lo: usize = 0;
    let mut hi: usize = v.len();
    while lo < hi
        invariant
            lo <= hi <= v@.len(),
            forall|j: int| 0 <= j < lo ==> (#[trigger] v@[j]).last_seen < cutoff,
            forall|j: int| hi <= j < v@.len() ==> (#[trigger] v@[j]).last_seen >= cutoff,
            sorted_by_time(v@),
        decreases hi - lo,
    {
        let mid: usize = lo + (hi - lo) / 2;
        if v[mid].last_seen < cutoff {
            proof {
                assert forall|j: int| 0 <= j < mid + 1
                    implies (#[trigger] v@[j]).last_seen < cutoff by {
                    assert(v@[j].last_seen <= v@[mid as int].last_seen);
                }
            }
            lo = mid + 1;
        } else {
            proof {
                assert forall|j: int| mid <= j < v@.len()
                    implies (#[trigger] v@[j]).last_seen >= cutoff by {
                    assert(v@[mid as int].last_seen <= v@[j].last_seen);
                }
            }
            hi = mid;
        }
    }
    lo
}

/// In a sequence sorted by time whose first `k` records are strictly older
/// than `cutoff` and whose remainder is not, the records older than `cutoff`
/// are exactly that prefix.
pub proof fn lemma_filter_prefix(s: Seq<PeerRecord>, cutoff: int, k: int)
    requires
        0 <= k <= s.len(),
        forall|j: int| 0 <= j < k ==> (#[trigger] s[j]).last_seen < cutoff,
        forall|j: int| k <= j < s.len() ==> (#[trigger] s[j]).last_seen >= cutoff,
    ensures
        older_than(s, cutoff) == s.subrange(0, k),
    decreases s.len(),
{
    reveal(Seq::filter);
    if s.len() == 0 {
        assert(older_than(s, cutoff) =~= s.subrange(0, 0));
    } else if k == s.len() {
        lemma_filter_prefix(s.drop_last(), cutoff, k - 1);
        assert(older_than(s, cutoff) == older_than(s.drop_last(), cutoff).push(s.last()));
        assert(older_than(s, cutoff) =~= s.subrange(0, k));
    } else {
        lemma_filter_prefix(s.drop_last(), cutoff, k);
        assert(older_than(s, cutoff) == older_than(s.drop_last(), cutoff));
        assert(s.drop_last().subrange(0, k) =~= s.subrange(0, k));
    }
}

} // verus!
