use port_proxy::udp::{PeerAddr, UdpAction, UdpEvent, UdpRelay, DEFAULT_SESSIONS};

fn peer(n: u16) -> PeerAddr {
    PeerAddr { ip: 0x7f00_0001, port: 40000 + n }
}

fn datagram(relay: &mut UdpRelay, n: u16) -> UdpAction {
    relay.step(UdpEvent::FromClient { peer: peer(n) })
}

fn answer(relay: &mut UdpRelay, slot: usize) -> UdpAction {
    relay.step(UdpEvent::FromContainer { slot })
}

fn forward(slot: usize, fresh: bool) -> UdpAction {
    UdpAction::Forward { slot, fresh, port: 5353 }
}

#[test]
fn udp_relay_starts_empty() {
    let relay = UdpRelay::new(5353, 4);
    assert_eq!(relay.public_port(), 5353);
    assert_eq!(relay.capacity(), 4);
    assert_eq!(relay.session_count(), 0);
    assert_eq!(DEFAULT_SESSIONS, 16);
}

#[test]
fn udp_datagram_goes_to_the_container_and_the_answer_back() {
    let mut relay = UdpRelay::new(5353, 4);
    assert_eq!(datagram(&mut relay, 1), forward(0, true));
    assert_eq!(relay.session_count(), 1);
    assert_eq!(answer(&mut relay, 0), UdpAction::Reply { peer: peer(1) });
    assert_eq!(datagram(&mut relay, 1), forward(0, false));
    assert_eq!(answer(&mut relay, 0), UdpAction::Reply { peer: peer(1) });
    assert_eq!(relay.session_count(), 1);
}

#[test]
fn udp_answers_go_to_the_client_that_caused_them() {
    let mut relay = UdpRelay::new(5353, 4);
    assert_eq!(datagram(&mut relay, 1), forward(0, true));
    assert_eq!(datagram(&mut relay, 2), forward(1, true));
    assert_eq!(answer(&mut relay, 0), UdpAction::Reply { peer: peer(1) });
    assert_eq!(answer(&mut relay, 1), UdpAction::Reply { peer: peer(2) });
    assert_eq!(datagram(&mut relay, 2), forward(1, false));
    assert_eq!(datagram(&mut relay, 1), forward(0, false));
    assert_eq!(datagram(&mut relay, 2), forward(1, false));
    assert_eq!(answer(&mut relay, 0), UdpAction::Reply { peer: peer(1) });
    assert_eq!(answer(&mut relay, 1), UdpAction::Reply { peer: peer(2) });
    assert_eq!(answer(&mut relay, 1), UdpAction::Reply { peer: peer(2) });
    assert_eq!(relay.session_count(), 2);
}

#[test]
fn udp_clients_differ_by_address_or_port() {
    let mut relay = UdpRelay::new(5353, 4);
    let a = PeerAddr { ip: 0x7f00_0001, port: 1000 };
    let b = PeerAddr { ip: 0x7f00_0002, port: 1000 };
    let c = PeerAddr { ip: 0x7f00_0001, port: 1001 };
    assert_eq!(relay.step(UdpEvent::FromClient { peer: a }), forward(0, true));
    assert_eq!(relay.step(UdpEvent::FromClient { peer: b }), forward(1, true));
    assert_eq!(relay.step(UdpEvent::FromClient { peer: c }), forward(2, true));
    assert_eq!(relay.step(UdpEvent::FromClient { peer: a }), forward(0, false));
    assert_eq!(answer(&mut relay, 1), UdpAction::Reply { peer: b });
    assert_eq!(answer(&mut relay, 2), UdpAction::Reply { peer: c });
}

#[test]
fn udp_answer_on_an_unused_slot_is_dropped() {
    let mut relay = UdpRelay::new(5353, 4);
    assert_eq!(answer(&mut relay, 0), UdpAction::Discard);
    datagram(&mut relay, 1);
    assert_eq!(answer(&mut relay, 1), UdpAction::Discard);
    assert_eq!(answer(&mut relay, 4), UdpAction::Discard);
    assert_eq!(answer(&mut relay, usize::MAX), UdpAction::Discard);
    assert_eq!(relay.session_count(), 1);
}

#[test]
fn udp_full_table_gives_the_longest_silent_session_away() {
    let mut relay = UdpRelay::new(5353, 3);
    assert_eq!(datagram(&mut relay, 1), forward(0, true));
    assert_eq!(datagram(&mut relay, 2), forward(1, true));
    assert_eq!(datagram(&mut relay, 3), forward(2, true));
    assert_eq!(datagram(&mut relay, 1), forward(0, false));
    assert_eq!(datagram(&mut relay, 4), forward(1, true));
    assert_eq!(relay.session_count(), 3);
    assert_eq!(answer(&mut relay, 1), UdpAction::Reply { peer: peer(4) });
    assert_eq!(answer(&mut relay, 0), UdpAction::Reply { peer: peer(1) });
    assert_eq!(answer(&mut relay, 2), UdpAction::Reply { peer: peer(3) });
    assert_eq!(datagram(&mut relay, 2), forward(2, true));
    assert_eq!(answer(&mut relay, 2), UdpAction::Reply { peer: peer(2) });
    assert_eq!(datagram(&mut relay, 3), forward(0, true));
    assert_eq!(datagram(&mut relay, 4), forward(1, false));
    assert_eq!(relay.session_count(), 3);
}

#[test]
fn udp_single_session_follows_the_last_client() {
    let mut relay = UdpRelay::new(5353, 1);
    assert_eq!(datagram(&mut relay, 1), forward(0, true));
    assert_eq!(answer(&mut relay, 0), UdpAction::Reply { peer: peer(1) });
    assert_eq!(datagram(&mut relay, 2), forward(0, true));
    assert_eq!(answer(&mut relay, 0), UdpAction::Reply { peer: peer(2) });
    assert_eq!(datagram(&mut relay, 2), forward(0, false));
    assert_eq!(datagram(&mut relay, 1), forward(0, true));
    assert_eq!(answer(&mut relay, 0), UdpAction::Reply { peer: peer(1) });
    assert_eq!(relay.session_count(), 1);
}

#[test]
fn udp_relay_without_room_drops_everything() {
    let mut relay = UdpRelay::new(5353, 0);
    assert_eq!(datagram(&mut relay, 1), UdpAction::Discard);
    assert_eq!(answer(&mut relay, 0), UdpAction::Discard);
    assert_eq!(relay.session_count(), 0);
}

#[test]
fn udp_failure_ends_all_sessions() {
    let mut relay = UdpRelay::new(5353, 4);
    datagram(&mut relay, 1);
    datagram(&mut relay, 2);
    assert_eq!(relay.step(UdpEvent::Failed), UdpAction::Reset);
    assert_eq!(relay.session_count(), 0);
    assert_eq!(relay.public_port(), 5353);
    assert_eq!(relay.capacity(), 4);
    assert_eq!(answer(&mut relay, 0), UdpAction::Discard);
    assert_eq!(datagram(&mut relay, 2), forward(0, true));
    assert_eq!(answer(&mut relay, 0), UdpAction::Reply { peer: peer(2) });
    assert_eq!(relay.step(UdpEvent::Failed), UdpAction::Reset);
    assert_eq!(relay.step(UdpEvent::Failed), UdpAction::Reset);
    assert_eq!(relay.session_count(), 0);
}

#[test]
fn udp_session_outlives_fewer_other_datagrams_than_sessions() {
    let capacity = 8;
    for others in 0..capacity as u16 {
        let mut relay = UdpRelay::new(5353, capacity);
        for n in 100..105 {
            datagram(&mut relay, n);
        }
        let slot = match datagram(&mut relay, 1) {
            UdpAction::Forward { slot, fresh: true, port: 5353 } => slot,
            other => panic!("unexpected {:?}", other),
        };
        for n in 0..others {
            let action = datagram(&mut relay, 200 + n);
            match action {
                UdpAction::Forward { slot: other, .. } => assert_ne!(other, slot),
                other => panic!("unexpected {:?}", other),
            }
            answer(&mut relay, n as usize % capacity);
        }
        assert_eq!(answer(&mut relay, slot), UdpAction::Reply { peer: peer(1) });
    }
    let mut relay = UdpRelay::new(5353, capacity);
    let slot = match datagram(&mut relay, 1) {
        UdpAction::Forward { slot, .. } => slot,
        other => panic!("unexpected {:?}", other),
    };
    for n in 0..capacity as u16 {
        datagram(&mut relay, 200 + n);
    }
    assert_eq!(answer(&mut relay, slot), UdpAction::Reply { peer: peer(200 + capacity as u16 - 1) });
}

#[test]
fn udp_slots_stay_below_the_capacity_and_apart() {
    let capacity = 5;
    let mut relay = UdpRelay::new(5353, capacity);
    let mut owner: Vec<Option<PeerAddr>> = vec![None; capacity];
    let mut state: u32 = 12345;
    for _ in 0..5000 {
        state = state.wrapping_mul(1664525).wrapping_add(1013904223);
        let n = ((state >> 16) % 9) as u16;
        if (state >> 8) % 4 == 0 {
            let slot = ((state >> 20) % 7) as usize;
            let expected = match owner.get(slot).copied().flatten() {
                Some(peer) => UdpAction::Reply { peer },
                None => UdpAction::Discard,
            };
            assert_eq!(answer(&mut relay, slot), expected);
        } else {
            match datagram(&mut relay, n) {
                UdpAction::Forward { slot, fresh, port } => {
                    assert!(slot < capacity);
                    assert_eq!(port, 5353);
                    assert_eq!(fresh, owner[slot] != Some(peer(n)));
                    if fresh {
                        assert!(!owner.contains(&Some(peer(n))));
                    }
                    owner[slot] = Some(peer(n));
                }
                other => panic!("unexpected {:?}", other),
            }
        }
        assert!(relay.session_count() <= capacity);
        assert_eq!(relay.session_count(), owner.iter().filter(|o| o.is_some()).count());
    }
}
