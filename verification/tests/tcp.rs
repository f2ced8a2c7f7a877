use port_proxy::tcp::{Direction, Flow, TcpAction, TcpEvent, TcpPhase, TcpRelay};

const UP: Direction = Direction::Upstream;
const DOWN: Direction = Direction::Downstream;

fn all_events() -> Vec<TcpEvent> {
    vec![
        TcpEvent::Accepted,
        TcpEvent::AcceptFailed,
        TcpEvent::Connected,
        TcpEvent::ConnectFailed,
        TcpEvent::Eof(UP),
        TcpEvent::Eof(DOWN),
        TcpEvent::CopyFailed(UP),
        TcpEvent::CopyFailed(DOWN),
        TcpEvent::HalfClosed(UP),
        TcpEvent::HalfClosed(DOWN),
        TcpEvent::HalfCloseFailed(UP),
        TcpEvent::HalfCloseFailed(DOWN),
    ]
}

fn relaying(upstream: Flow, downstream: Flow) -> TcpRelay {
    TcpRelay { public_port: 9090, phase: TcpPhase::Relaying { upstream, downstream } }
}

fn is_failure(event: TcpEvent) -> bool {
    matches!(
        event,
        TcpEvent::AcceptFailed
            | TcpEvent::ConnectFailed
            | TcpEvent::CopyFailed(_)
            | TcpEvent::HalfCloseFailed(_)
    )
}

#[test]
fn tcp_relay_starts_by_accepting() {
    let (relay, first) = TcpRelay::new(9090);
    assert_eq!(relay, TcpRelay { public_port: 9090, phase: TcpPhase::Accepting });
    assert_eq!(first, TcpAction::Accept);
}

#[test]
fn tcp_relay_serves_a_connection_to_its_end() {
    let (mut relay, _) = TcpRelay::new(9090);
    assert_eq!(relay.step(TcpEvent::Accepted), TcpAction::Connect { port: 9090 });
    assert_eq!(relay.phase, TcpPhase::Connecting);
    assert_eq!(relay.step(TcpEvent::Connected), TcpAction::Relay);
    assert_eq!(relay, relaying(Flow::Copying, Flow::Copying));
    assert_eq!(relay.step(TcpEvent::Eof(UP)), TcpAction::HalfClose(UP));
    assert_eq!(relay, relaying(Flow::Closing, Flow::Copying));
    assert_eq!(relay.step(TcpEvent::HalfClosed(UP)), TcpAction::Continue);
    assert_eq!(relay, relaying(Flow::Closed, Flow::Copying));
    assert_eq!(relay.step(TcpEvent::Eof(DOWN)), TcpAction::HalfClose(DOWN));
    assert_eq!(relay, relaying(Flow::Closed, Flow::Closing));
    assert_eq!(relay.step(TcpEvent::HalfClosed(DOWN)), TcpAction::Accept);
    assert_eq!(relay, TcpRelay { public_port: 9090, phase: TcpPhase::Accepting });
}

#[test]
fn tcp_directions_may_end_in_any_order() {
    let orders: [[TcpEvent; 4]; 6] = [
        [TcpEvent::Eof(UP), TcpEvent::HalfClosed(UP), TcpEvent::Eof(DOWN), TcpEvent::HalfClosed(DOWN)],
        [TcpEvent::Eof(UP), TcpEvent::Eof(DOWN), TcpEvent::HalfClosed(UP), TcpEvent::HalfClosed(DOWN)],
        [TcpEvent::Eof(UP), TcpEvent::Eof(DOWN), TcpEvent::HalfClosed(DOWN), TcpEvent::HalfClosed(UP)],
        [TcpEvent::Eof(DOWN), TcpEvent::HalfClosed(DOWN), TcpEvent::Eof(UP), TcpEvent::HalfClosed(UP)],
        [TcpEvent::Eof(DOWN), TcpEvent::Eof(UP), TcpEvent::HalfClosed(DOWN), TcpEvent::HalfClosed(UP)],
        [TcpEvent::Eof(DOWN), TcpEvent::Eof(UP), TcpEvent::HalfClosed(UP), TcpEvent::HalfClosed(DOWN)],
    ];
    for order in orders {
        let mut relay = relaying(Flow::Copying, Flow::Copying);
        let mut half_closes = Vec::new();
        for (n, event) in order.iter().enumerate() {
            assert!(relay.awaits(*event));
            let action = relay.step(*event);
            if let TcpAction::HalfClose(direction) = action {
                half_closes.push(direction);
            }
            if n < 3 {
                assert!(matches!(relay.phase, TcpPhase::Relaying { .. }));
                assert_ne!(action, TcpAction::Accept);
            } else {
                assert_eq!(action, TcpAction::Accept);
                assert_eq!(relay.phase, TcpPhase::Accepting);
            }
        }
        half_closes.sort_by_key(|d| *d == DOWN);
        assert_eq!(half_closes, vec![UP, DOWN]);
    }
}

#[test]
fn tcp_end_of_input_half_closes_only_its_own_direction() {
    for other in [Flow::Copying, Flow::Closing, Flow::Closed] {
        let mut relay = relaying(Flow::Copying, other);
        assert_eq!(relay.step(TcpEvent::Eof(UP)), TcpAction::HalfClose(UP));
        assert_eq!(relay, relaying(Flow::Closing, other));
        let mut relay = relaying(other, Flow::Copying);
        assert_eq!(relay.step(TcpEvent::Eof(DOWN)), TcpAction::HalfClose(DOWN));
        assert_eq!(relay, relaying(other, Flow::Closing));
    }
}

#[test]
fn tcp_failed_connect_goes_back_to_accepting() {
    let (mut relay, _) = TcpRelay::new(9090);
    relay.step(TcpEvent::Accepted);
    assert_eq!(relay.step(TcpEvent::ConnectFailed), TcpAction::Accept);
    assert_eq!(relay.phase, TcpPhase::Accepting);
    assert_eq!(relay.step(TcpEvent::Accepted), TcpAction::Connect { port: 9090 });
}

#[test]
fn tcp_failed_accept_accepts_again() {
    let (mut relay, _) = TcpRelay::new(9090);
    for _ in 0..5 {
        assert_eq!(relay.step(TcpEvent::AcceptFailed), TcpAction::Accept);
        assert_eq!(relay.phase, TcpPhase::Accepting);
    }
}

#[test]
fn tcp_every_awaited_failure_means_the_next_client() {
    let flows = [Flow::Copying, Flow::Closing, Flow::Closed];
    let mut phases = vec![TcpPhase::Accepting, TcpPhase::Connecting];
    for upstream in flows {
        for downstream in flows {
            phases.push(TcpPhase::Relaying { upstream, downstream });
        }
    }
    for phase in phases {
        for event in all_events() {
            let mut relay = TcpRelay { public_port: 7, phase };
            let awaited = relay.awaits(event);
            let action = relay.step(event);
            assert_eq!(relay.public_port, 7);
            if !awaited {
                assert_eq!(action, TcpAction::Continue);
                assert_eq!(relay.phase, phase);
            } else if is_failure(event) {
                assert_eq!(action, TcpAction::Accept);
                assert_eq!(relay.phase, TcpPhase::Accepting);
            } else {
                assert_ne!(relay.phase, phase);
            }
            if let TcpAction::Connect { port } = action {
                assert_eq!(port, 7);
            }
        }
    }
}

#[test]
fn tcp_relay_awaits_what_is_under_way() {
    let (relay, _) = TcpRelay::new(1);
    let awaited: Vec<TcpEvent> = all_events().into_iter().filter(|e| relay.awaits(*e)).collect();
    assert_eq!(awaited, vec![TcpEvent::Accepted, TcpEvent::AcceptFailed]);
    let relay = TcpRelay { public_port: 1, phase: TcpPhase::Connecting };
    let awaited: Vec<TcpEvent> = all_events().into_iter().filter(|e| relay.awaits(*e)).collect();
    assert_eq!(awaited, vec![TcpEvent::Connected, TcpEvent::ConnectFailed]);
    let relay = relaying(Flow::Copying, Flow::Closing);
    let awaited: Vec<TcpEvent> = all_events().into_iter().filter(|e| relay.awaits(*e)).collect();
    assert_eq!(
        awaited,
        vec![
            TcpEvent::Eof(UP),
            TcpEvent::CopyFailed(UP),
            TcpEvent::HalfClosed(DOWN),
            TcpEvent::HalfCloseFailed(DOWN),
        ]
    );
    let relay = relaying(Flow::Closed, Flow::Copying);
    let awaited: Vec<TcpEvent> = all_events().into_iter().filter(|e| relay.awaits(*e)).collect();
    assert_eq!(awaited, vec![TcpEvent::Eof(DOWN), TcpEvent::CopyFailed(DOWN)]);
}

#[test]
fn tcp_copy_failure_drops_the_connection_at_once() {
    for downstream in [Flow::Copying, Flow::Closing, Flow::Closed] {
        let mut relay = relaying(Flow::Copying, downstream);
        assert_eq!(relay.step(TcpEvent::CopyFailed(UP)), TcpAction::Accept);
        assert_eq!(relay.phase, TcpPhase::Accepting);
    }
    let mut relay = relaying(Flow::Closing, Flow::Copying);
    assert_eq!(relay.step(TcpEvent::HalfCloseFailed(UP)), TcpAction::Accept);
    assert_eq!(relay.phase, TcpPhase::Accepting);
}

#[test]
fn tcp_stale_reports_change_nothing() {
    let mut relay = relaying(Flow::Closed, Flow::Copying);
    assert_eq!(relay.step(TcpEvent::Eof(UP)), TcpAction::Continue);
    assert_eq!(relay.step(TcpEvent::CopyFailed(UP)), TcpAction::Continue);
    assert_eq!(relay.step(TcpEvent::HalfClosed(UP)), TcpAction::Continue);
    assert_eq!(relay.step(TcpEvent::Accepted), TcpAction::Continue);
    assert_eq!(relay.step(TcpEvent::ConnectFailed), TcpAction::Continue);
    assert_eq!(relay, relaying(Flow::Closed, Flow::Copying));
}
