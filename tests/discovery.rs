use flip_flop::discovery::{Identified, Identify, MAX_ADDRESSES, MIN_PACKET_SIZE, MIN_PAYLOAD_SIZE};

#[test]
fn test_set_get_bits() {
    let mut identify = Identify {
        addresses: [0; MIN_PAYLOAD_SIZE],
    };
    identify.set_address(1);
    identify.set_address(9);
    assert_eq!(identify.addresses[0], 0b00000010);
    assert_eq!(identify.addresses[1], 0b00000010);
    assert!(identify.is_address_set(1));
    assert!(identify.is_address_set(9));
    assert!(!identify.is_address_set(10));
}

#[test]
fn test_identified_with_none_free() {
    let mut identify = Identify {
        addresses: [0; MIN_PAYLOAD_SIZE],
    };
    for address in 0..MAX_ADDRESSES {
        identify.set_address(address as u8);
    }
    assert_eq!(
        Identified::with_random_address(identify.iter(), 1, 0b00000010),
        None
    );
}

#[test]
fn test_identified_with_one_free() {
    let mut identify = Identify {
        addresses: [0; MIN_PAYLOAD_SIZE],
    };
    for address in 2..MAX_ADDRESSES {
        identify.set_address(address as u8);
    }
    assert_eq!(
        Identified::with_random_address(identify.iter(), 1, 0b00000010),
        Some(Identified {
            server_address: 1,
            server_ports: 0b00000010,
        })
    );
}

#[test]
fn test_identified_with_three_free() {
    let mut identify = Identify {
        addresses: [0; MIN_PAYLOAD_SIZE],
    };
    identify.set_address(0);
    for address in 4..MAX_ADDRESSES {
        identify.set_address(address as u8);
    }
    assert_eq!(
        Identified::with_random_address(identify.iter(), 2, 0b00000010),
        Some(Identified {
            server_address: 3,
            server_ports: 0b00000010,
        })
    );
}

#[test]
fn test_identified_with_all_but_first_free() {
    let mut identify = Identify {
        addresses: [0; MIN_PAYLOAD_SIZE],
    };
    identify.set_address(0);
    assert_eq!(
        Identified::with_random_address(identify.iter(), 254, 0b00000010),
        Some(Identified {
            server_address: 255,
            server_ports: 0b00000010,
        })
    );
}

#[test]
fn test_iter_with_skip() {
    let mut identify = Identify {
        addresses: [0; MIN_PAYLOAD_SIZE],
    };
    identify.set_address(0);
    identify.set_address(3);

    // The first known address after address 0.
    let mut iter = identify.iter();
    let mut found = None;
    let mut index = 0usize;
    while let Some(is_set) = iter.next() {
        if index >= 1 && is_set {
            found = Some((index, is_set));
            break;
        }
        index += 1;
    }
    assert_eq!(found, Some((3, true)));
}

#[test]
fn iter_walks_all_addresses_once() {
    let mut identify = Identify::new();
    identify.set_address(255);
    let mut iter = identify.iter();
    let mut seen = Vec::new();
    while let Some(is_set) = iter.next() {
        seen.push(is_set);
    }
    assert_eq!(seen.len(), MAX_ADDRESSES);
    assert!(seen[0] && seen[255]);
    assert_eq!(seen.iter().filter(|b| **b).count(), 2);
    assert_eq!(iter.next(), None);
}

#[test]
fn new_bit_set_knows_only_the_client() {
    let identify = Identify::new();
    assert!(identify.is_address_set(0));
    for a in 1..=255u8 {
        assert!(!identify.is_address_set(a));
    }
}

#[test]
fn free_address_choice_skips_known_ones() {
    // Addresses 0 and 3 taken: the free ones are 1, 2, 4, 5, ...
    let mut identify = Identify::new();
    identify.set_address(3);
    let pick = |r: u32| {
        Identified::with_random_address(identify.iter(), r, 0)
            .unwrap()
            .server_address
    };
    assert_eq!(pick(0), 1);
    assert_eq!(pick(1), 2);
    assert_eq!(pick(2), 4);
    assert_eq!(pick(253), 255);
    assert_eq!(pick(254), 1);
    for r in 0..1000u32 {
        let a = pick(r);
        assert!(!identify.is_address_set(a));
    }
}

#[test]
fn round_with_a_collision_leaves_the_address_unknown() {
    let mut identify = Identify::new();
    let no_collision = identify.record_replies(&[5, 7, 5, 9]);
    assert!(!no_collision);
    assert!(!identify.is_address_set(5));
    assert!(identify.is_address_set(7));
    assert!(identify.is_address_set(9));
    assert!(identify.is_address_set(0));
}

#[test]
fn round_without_collision_records_all() {
    let mut identify = Identify::new();
    assert!(identify.record_replies(&[1, 2, 200]));
    assert!(identify.is_address_set(1));
    assert!(identify.is_address_set(2));
    assert!(identify.is_address_set(200));
    assert!(!identify.is_address_set(3));
    assert!(identify.record_replies(&[]));
}

#[test]
fn server_replies_only_when_unknown() {
    let mut identify = Identify::new();
    identify.set_address(4);
    assert!(identify.should_reply(None));
    assert!(!identify.should_reply(Some(4)));
    assert!(identify.should_reply(Some(5)));
}

#[test]
fn packet_sizes() {
    assert_eq!(MIN_PAYLOAD_SIZE, 32);
    assert_eq!(MIN_PACKET_SIZE, 42);
}
