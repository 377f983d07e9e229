use zebra_network::address_book::{AddressBook, PeerRecord};

fn rec(addr: u64, services: u64, last_seen: i64) -> PeerRecord {
    PeerRecord { addr, services, last_seen }
}

#[test]
fn peers_empty_on_new() {
    let book = AddressBook::new();
    assert_eq!(book.peers(), vec![]);
}

#[test]
fn update_new_address_is_held() {
    let mut book = AddressBook::new();
    book.update(rec(7, 0x5, 42));
    assert_eq!(book.peers(), vec![rec(7, 0x5, 42)]);
}

#[test]
fn stale_update_rejected() {
    let mut book = AddressBook::new();
    book.update(rec(1, 0x1, 100));
    book.update(rec(1, 0x3, 50));
    assert_eq!(book.peers(), vec![rec(1, 0x1, 100)]);
}

#[test]
fn equal_timestamp_overwrites() {
    let mut book = AddressBook::new();
    book.update(rec(1, 0x1, 100));
    book.update(rec(1, 0x7, 100));
    assert_eq!(book.peers(), vec![rec(1, 0x7, 100)]);
}

#[test]
fn newer_update_replaces_both_fields() {
    let mut book = AddressBook::new();
    book.update(rec(1, 0x1, 100));
    book.update(rec(1, 0x2, 200));
    assert_eq!(book.peers(), vec![rec(1, 0x2, 200)]);
}

#[test]
fn monotonic_updates_order_independent() {
    let mut first = AddressBook::new();
    first.update(rec(9, 0x1, 100));
    first.update(rec(9, 0x3, 200));
    let mut second = AddressBook::new();
    second.update(rec(9, 0x3, 200));
    second.update(rec(9, 0x1, 100));
    assert_eq!(first.peers(), vec![rec(9, 0x3, 200)]);
    assert_eq!(first.peers(), second.peers());
}

#[test]
fn example_scenario() {
    let mut book = AddressBook::new();
    book.update(rec(1, 0x1, 100));
    book.update(rec(1, 0x3, 50));
    assert_eq!(book.peers(), vec![rec(1, 0x1, 100)]);
    book.update(rec(1, 0x7, 100));
    assert_eq!(book.peers(), vec![rec(1, 0x7, 100)]);
    let drained = book.drain_recent();
    assert_eq!(drained, vec![rec(1, 0x7, 100)]);
    assert_eq!(book.peers(), vec![]);
}

#[test]
fn peers_ordered_most_recent_first() {
    let mut book = AddressBook::new();
    book.update(rec(1, 0, 300));
    book.update(rec(2, 0, 100));
    book.update(rec(3, 0, 200));
    assert_eq!(
        book.peers(),
        vec![rec(1, 0, 300), rec(3, 0, 200), rec(2, 0, 100)]
    );
}

#[test]
fn timestamp_collision_keeps_both_addresses() {
    let mut book = AddressBook::new();
    book.update(rec(1, 0xa, 100));
    book.update(rec(2, 0xb, 100));
    let peers = book.peers();
    assert_eq!(peers.len(), 2);
    assert!(peers.contains(&rec(1, 0xa, 100)));
    assert!(peers.contains(&rec(2, 0xb, 100)));
}

#[test]
fn liveness_boundary_is_exclusive() {
    let now: i64 = 1000;
    let live_peer_duration: i64 = 400;
    let mut book = AddressBook::new();
    // Last seen exactly at the cutoff: still possibly live, excluded.
    book.update(rec(1, 0, 600));
    // Last seen just before the cutoff: cannot be connected, included.
    book.update(rec(2, 0, 599));
    let disconnected = book.disconnected_peers(now, live_peer_duration);
    assert_eq!(disconnected, vec![rec(2, 0, 599)]);
}

#[test]
fn disconnected_peers_ordered_most_recent_first() {
    let mut book = AddressBook::new();
    book.update(rec(1, 0, 10));
    book.update(rec(2, 0, 30));
    book.update(rec(3, 0, 20));
    book.update(rec(4, 0, 500));
    let disconnected = book.disconnected_peers(600, 100);
    assert_eq!(
        disconnected,
        vec![rec(2, 0, 30), rec(3, 0, 20), rec(1, 0, 10)]
    );
}

#[test]
fn disconnected_peers_empty_when_all_live() {
    let mut book = AddressBook::new();
    book.update(rec(1, 0, 950));
    book.update(rec(2, 0, 901));
    assert_eq!(book.disconnected_peers(1000, 100), vec![]);
}

#[test]
fn drain_yields_all_descending_and_empties() {
    let mut book = AddressBook::new();
    book.update(rec(5, 0, 50));
    book.update(rec(3, 0, 300));
    book.update(rec(8, 0, 80));
    book.update(rec(2, 0, 200));
    let drained = book.drain_recent();
    assert_eq!(
        drained,
        vec![rec(3, 0, 300), rec(2, 0, 200), rec(8, 0, 80), rec(5, 0, 50)]
    );
    assert_eq!(book.peers(), vec![]);
    assert_eq!(book.drain_next(), None);
}

#[test]
fn partial_drain_leaves_oldest_remainder() {
    let mut book = AddressBook::new();
    book.update(rec(1, 0, 100));
    book.update(rec(2, 0, 200));
    book.update(rec(3, 0, 300));
    book.update(rec(4, 0, 400));
    assert_eq!(book.drain_next(), Some(rec(4, 0, 400)));
    assert_eq!(book.drain_next(), Some(rec(3, 0, 300)));
    assert_eq!(book.peers(), vec![rec(2, 0, 200), rec(1, 0, 100)]);
}

#[test]
fn drain_with_timestamp_ties_yields_all() {
    let mut book = AddressBook::new();
    book.update(rec(1, 0, 100));
    book.update(rec(2, 0, 100));
    book.update(rec(3, 0, 50));
    let drained = book.drain_recent();
    assert_eq!(drained.len(), 3);
    assert!(drained.contains(&rec(1, 0, 100)));
    assert!(drained.contains(&rec(2, 0, 100)));
    assert_eq!(drained[2], rec(3, 0, 50));
    for pair in drained.windows(2) {
        assert!(pair[0].last_seen >= pair[1].last_seen);
    }
    assert_eq!(book.peers(), vec![]);
}

#[test]
fn repeated_identical_update_changes_nothing() {
    let mut book = AddressBook::new();
    book.update(rec(1, 0x1, 100));
    book.update(rec(2, 0x2, 100));
    book.update(rec(3, 0x3, 50));
    let before = book.peers();
    book.update(rec(2, 0x2, 100));
    assert_eq!(book.peers(), before);
}

#[test]
fn drain_many_takes_freshest_and_keeps_order() {
    let mut book = AddressBook::new();
    book.update(rec(1, 0, 100));
    book.update(rec(2, 0, 200));
    book.update(rec(3, 0, 300));
    book.update(rec(4, 0, 400));
    let drained = book.drain_many(2);
    assert_eq!(drained, vec![rec(4, 0, 400), rec(3, 0, 300)]);
    assert_eq!(book.peers(), vec![rec(2, 0, 200), rec(1, 0, 100)]);
}

#[test]
fn drain_many_zero_takes_nothing() {
    let mut book = AddressBook::new();
    book.update(rec(1, 0, 100));
    assert_eq!(book.drain_many(0), vec![]);
    assert_eq!(book.peers(), vec![rec(1, 0, 100)]);
}

#[test]
fn drain_many_beyond_held_takes_all() {
    let mut book = AddressBook::new();
    book.update(rec(1, 0, 100));
    book.update(rec(2, 0, 200));
    let drained = book.drain_many(10);
    assert_eq!(drained, vec![rec(2, 0, 200), rec(1, 0, 100)]);
    assert_eq!(book.peers(), vec![]);
}

#[test]
fn drain_next_on_empty_is_none() {
    let mut book = AddressBook::new();
    assert_eq!(book.drain_next(), None);
}

#[test]
fn extend_applies_batch_in_order() {
    let mut book = AddressBook::new();
    book.update(rec(1, 0x1, 100));
    let batch = vec![
        rec(2, 0x2, 150),
        rec(1, 0x3, 50),  // stale for address 1: discarded
        rec(2, 0x4, 150), // equal timestamp: overwrites
        rec(3, 0x5, 120),
    ];
    book.extend(&batch);
    assert_eq!(
        book.peers(),
        vec![rec(2, 0x4, 150), rec(3, 0x5, 120), rec(1, 0x1, 100)]
    );
}

#[test]
fn indices_stay_consistent_under_many_updates() {
    let mut book = AddressBook::new();
    for round in 0..3i64 {
        for addr in 0..20u64 {
            book.update(rec(addr, addr + round as u64, 100 * round + addr as i64));
        }
    }
    let peers = book.peers();
    // One record per address, holding the newest observation.
    assert_eq!(peers.len(), 20);
    for addr in 0..20u64 {
        let held: Vec<&PeerRecord> = peers.iter().filter(|p| p.addr == addr).collect();
        assert_eq!(held.len(), 1);
        assert_eq!(*held[0], rec(addr, addr + 2, 200 + addr as i64));
    }
    // Ordered from most recently seen to least recently seen.
    for pair in peers.windows(2) {
        assert!(pair[0].last_seen >= pair[1].last_seen);
    }
}

#[test]
fn disconnected_peers_now_runs_on_wall_clock() {
    let mut book = AddressBook::new();
    // Seen at the epoch, far older than any present wall-clock cutoff.
    book.update(rec(1, 0, 0));
    let disconnected = book.disconnected_peers_now(3600);
    assert_eq!(disconnected, vec![rec(1, 0, 0)]);
}
