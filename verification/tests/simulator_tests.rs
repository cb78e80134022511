//! The in-memory switch: delivery, the empty read, and the dead time.

use oni_net::addr::Addr;
use oni_net::simulator::{Config, Simulator, DEAD_TIME};

#[test]
fn all() {
    let mut sim = Simulator::new();

    let from = Addr::v4(127, 0, 0, 1, 1111);
    let to = Addr::v4(127, 0, 0, 1, 2222);

    let mut now: u64 = 0;
    for i in 0..5u8 {
        sim.send(from, to, vec![i]);
        now += 1;
        sim.advance(now);

        let (addr, payload) = sim.recv_from(to).unwrap();
        assert_eq!(payload.len(), 1);
        assert_eq!(addr, from);
        assert_eq!(payload[0], i);

        // the next read finds nothing: the non-blocking empty read
        assert!(sim.recv_from(to).is_none());
    }
}

#[test]
fn latency_delays_delivery() {
    let mut sim = Simulator::new();
    let from = Addr::v4(10, 0, 0, 1, 1);
    let to = Addr::v4(10, 0, 0, 2, 2);
    sim.add_mapping(from, to, Config { latency: 50, jitter: 0, loss: 0, duplicate: 0 });

    sim.send(from, to, vec![42]);
    sim.advance(10);
    assert!(sim.recv_from(to).is_none(), "not due yet");
    sim.advance(60);
    let (_, payload) = sim.recv_from(to).unwrap();
    assert_eq!(payload, vec![42]);
}

#[test]
fn total_loss_drops_everything() {
    let mut sim = Simulator::new();
    let from = Addr::v4(10, 0, 0, 1, 1);
    let to = Addr::v4(10, 0, 0, 2, 2);
    sim.add_mapping(from, to, Config { latency: 0, jitter: 0, loss: 1000, duplicate: 0 });

    for i in 0..20u8 {
        sim.send(from, to, vec![i]);
    }
    sim.advance(100);
    assert!(sim.recv_from(to).is_none());
}

#[test]
fn certain_duplication_doubles() {
    let mut sim = Simulator::new();
    let from = Addr::v4(10, 0, 0, 1, 1);
    let to = Addr::v4(10, 0, 0, 2, 2);
    sim.add_mapping(from, to, Config { latency: 0, jitter: 0, loss: 0, duplicate: 1000 });

    sim.send(from, to, vec![7]);
    sim.advance(1);
    assert_eq!(sim.recv_from(to).unwrap().1, vec![7]);
    assert_eq!(sim.recv_from(to).unwrap().1, vec![7]);
    assert!(sim.recv_from(to).is_none());
}

#[test]
fn dead_time_discards_stale() {
    let mut sim = Simulator::new();
    let from = Addr::v4(10, 0, 0, 1, 1);
    let to = Addr::v4(10, 0, 0, 2, 2);

    sim.send(from, to, vec![1]);
    // past the dead time the datagram is gone even though it was due
    sim.advance(DEAD_TIME + 1);
    assert!(sim.recv_from(to).is_none());
}

#[test]
fn clear_empties_the_switch() {
    let mut sim = Simulator::new();
    let from = Addr::v4(10, 0, 0, 1, 1);
    let to = Addr::v4(10, 0, 0, 2, 2);
    sim.send(from, to, vec![1]);
    sim.clear();
    sim.advance(1);
    assert!(sim.recv_from(to).is_none());
}

#[test]
fn jitter_band_bounds_delivery() {
    let mut sim = Simulator::new();
    let from = Addr::v4(10, 0, 0, 1, 1);
    let to = Addr::v4(10, 0, 0, 2, 2);
    sim.add_mapping(from, to, Config { latency: 50, jitter: 5, loss: 0, duplicate: 0 });

    // whatever the draw, delivery falls within latency plus or minus jitter
    sim.send(from, to, vec![3]);
    sim.advance(44);
    assert!(sim.recv_from(to).is_none(), "nothing is due before the band");
    sim.advance(55);
    let (_, payload) = sim.recv_from(to).unwrap();
    assert_eq!(payload, vec![3]);
}
