//! The encryption mapping: lookup, removal, idle expiry, re-insertion.

use oni_net::addr::Addr;
use oni_net::crypto::keygen;
use oni_net::encryption_manager::Mapping;

const TEST_TIMEOUT_SECONDS: u64 = 15;
const TEST_TIMEOUT: u64 = TEST_TIMEOUT_SECONDS * 1000;

struct Peer {
    addr: Addr,
    send_key: Vec<u8>,
    recv_key: Vec<u8>,
}

#[test]
fn encryption_manager() {
    let mut manager = Mapping::new();

    // generate some test encryption mappings
    let mapping: Vec<Peer> = (0..5u16)
        .map(|id| Peer {
            addr: Addr::v4(127, 0, 0, (id + 1) as u8, 20000 + id),
            send_key: keygen(),
            recv_key: keygen(),
        })
        .collect();

    let first = mapping.first().unwrap();
    let last = mapping.last().unwrap();

    // add the encryption mappings to the manager and look them up by addr
    for map in &mapping {
        assert!(manager.find(map.addr).is_none());
        assert!(manager.insert(
            map.addr,
            map.send_key.clone(),
            map.recv_key.clone(),
            TEST_TIMEOUT,
        ));
        let e = manager.find(map.addr).unwrap();
        assert_eq!(e.send_key().as_slice(), map.send_key.as_slice());
        assert_eq!(e.recv_key().as_slice(), map.recv_key.as_slice());
    }

    // removing an encryption mapping that does not exist returns false
    {
        let addr = Addr::v4(127, 0, 0, 1, 50000);
        assert!(!manager.remove(addr));
    }

    // remove the first and last encryption mappings
    assert!(manager.remove(first.addr));
    assert!(manager.remove(last.addr));

    // the removed mappings can no longer be looked up by addr
    for map in &mapping {
        let e = manager.find(map.addr);
        if map.addr == first.addr || map.addr == last.addr {
            assert!(e.is_none());
        } else {
            let e = e.unwrap();
            assert_eq!(e.send_key().as_slice(), map.send_key.as_slice());
            assert_eq!(e.recv_key().as_slice(), map.recv_key.as_slice());
        }
    }

    // add the two mappings back in
    assert!(manager.insert(
        first.addr,
        first.send_key.clone(),
        first.recv_key.clone(),
        TEST_TIMEOUT,
    ));
    assert!(manager.insert(
        last.addr,
        last.send_key.clone(),
        last.recv_key.clone(),
        TEST_TIMEOUT,
    ));

    // all encryption mappings can be looked up again
    for map in &mapping {
        let e = manager.find(map.addr).unwrap();
        assert_eq!(e.send_key().as_slice(), map.send_key.as_slice());
        assert_eq!(e.recv_key().as_slice(), map.recv_key.as_slice());
    }

    // mappings time out: after twice the timeout of idleness every lookup
    // comes back empty
    manager.advance(2 * TEST_TIMEOUT);
    for map in &mapping {
        assert!(manager.find(map.addr).is_none());
    }

    // the same addresses can be inserted afresh after the timeout
    for map in &mapping {
        assert!(manager.find(map.addr).is_none());
        assert!(manager.insert(
            map.addr,
            map.send_key.clone(),
            map.recv_key.clone(),
            TEST_TIMEOUT,
        ));
        let e = manager.find(map.addr).unwrap();
        assert_eq!(e.send_key().as_slice(), map.send_key.as_slice());
        assert_eq!(e.recv_key().as_slice(), map.recv_key.as_slice());
    }

    // reset drops every mapping
    manager.reset(0);
    for map in &mapping {
        assert!(manager.find(map.addr).is_none());
    }

    // expiry is judged against the last access: alive strictly inside the
    // timeout, gone the instant the timeout is reached
    assert!(manager.insert(
        first.addr,
        first.send_key.clone(),
        first.recv_key.clone(),
        TEST_TIMEOUT,
    ));
    manager.advance(TEST_TIMEOUT - 1);
    assert!(manager.find(first.addr).is_some());
    manager.advance(2 * TEST_TIMEOUT);
    assert!(manager.find(first.addr).is_none());
}

#[test]
fn insert_refuses_overwrite() {
    let mut manager = Mapping::new();
    let addr = Addr::v4(10, 0, 0, 1, 1234);
    let k1 = keygen();
    let k2 = keygen();
    assert!(manager.insert(addr, k1.clone(), k1.clone(), 1000));
    assert!(!manager.insert(addr, k2.clone(), k2.clone(), 1000));
    // the first keys stand
    let e = manager.find(addr).unwrap();
    assert_eq!(e.send_key().as_slice(), k1.as_slice());
}

#[test]
fn disable_expire_makes_entry_immortal() {
    let mut manager = Mapping::new();
    let addr = Addr::v4(10, 0, 0, 2, 1234);
    let k = keygen();
    assert!(manager.insert(addr, k.clone(), k.clone(), 10));
    let mut e = manager.find(addr).unwrap();
    e.disable_expire();
    assert!(!e.expired(u64::MAX - 1));
    assert_eq!(e.timeout(), u64::MAX);
}

#[test]
fn expiry_at_the_exact_boundary() {
    let mut manager = Mapping::new();
    let addr = Addr::v4(10, 0, 0, 3, 1234);
    let k = keygen();
    assert!(manager.insert(addr, k.clone(), k.clone(), TEST_TIMEOUT));
    // the instant the idle time reaches the timeout, the entry is dead
    manager.advance(TEST_TIMEOUT);
    assert!(manager.find(addr).is_none());
}
