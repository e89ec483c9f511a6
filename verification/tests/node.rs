use upnp_test::events::{Event, GatewayEvent, IdentifyEvent, PeerInfo, PingEvent, PingOutcome, Report, Severity};
use upnp_test::state::{GatewayStatus, NodeState};

fn s(text: &str) -> String {
    String::from(text)
}

fn info(agent: &str) -> PeerInfo {
    PeerInfo {
        protocol_version: s("/upnp-test/1.0.0"),
        agent_version: s(agent),
        listen_addrs: vec![s("/ip4/10.0.0.2/tcp/4001")],
        observed_addr: s("/ip4/198.51.100.7/tcp/40001"),
    }
}

#[test]
fn mapping_makes_address_reachable() {
    let mut node = NodeState::new();
    node.begin_discovery();
    assert_eq!(node.gateway, GatewayStatus::Probing);
    let addr = s("/ip4/203.0.113.5/tcp/4001");
    let r = node.handle_event(Event::Gateway(GatewayEvent::NewExternalAddr(addr.clone())));
    assert_eq!(r, Report::MappedAddressUsable { address: addr.clone() });
    assert_eq!(r.severity(), Severity::Info);
    assert!(node.is_reachable_via(&addr));
    assert_eq!(node.gateway, GatewayStatus::Mapped);
}

#[test]
fn expiry_removes_reachability_immediately() {
    let mut node = NodeState::new();
    let addr = s("/ip4/203.0.113.5/tcp/4001");
    node.handle_event(Event::Gateway(GatewayEvent::NewExternalAddr(addr.clone())));
    let r = node.handle_event(Event::Gateway(GatewayEvent::ExpiredExternalAddr(addr.clone())));
    assert_eq!(r, Report::MappingExpired { address: addr.clone() });
    assert_eq!(r.severity(), Severity::Warn);
    assert!(!node.is_reachable_via(&addr));
    assert_eq!(node.gateway, GatewayStatus::Unmapped);
}

#[test]
fn expiry_is_per_address() {
    let mut node = NodeState::new();
    let a1 = s("/ip4/203.0.113.5/tcp/4001");
    let a2 = s("/ip4/203.0.113.9/tcp/4001");
    node.handle_event(Event::Gateway(GatewayEvent::NewExternalAddr(a1.clone())));
    node.handle_event(Event::Gateway(GatewayEvent::NewExternalAddr(a2.clone())));
    node.handle_event(Event::Gateway(GatewayEvent::ExpiredExternalAddr(a1.clone())));
    assert!(!node.is_reachable_via(&a1));
    assert!(node.is_reachable_via(&a2));
    assert_eq!(node.gateway, GatewayStatus::Mapped);
}

#[test]
fn duplicate_mapping_is_idempotent() {
    let mut node = NodeState::new();
    let addr = s("/ip4/203.0.113.5/tcp/4001");
    let r1 = node.handle_event(Event::Gateway(GatewayEvent::NewExternalAddr(addr.clone())));
    let r2 = node.handle_event(Event::Gateway(GatewayEvent::NewExternalAddr(addr.clone())));
    // the duplicate changes nothing: only the same log line repeats
    assert_eq!(r1, r2);
    assert!(node.is_reachable_via(&addr));
    // a single expiry then removes the address entirely
    node.handle_event(Event::Gateway(GatewayEvent::ExpiredExternalAddr(addr.clone())));
    assert!(!node.is_reachable_via(&addr));
}

#[test]
fn gateway_absent_and_non_routable_are_warnings() {
    let mut node = NodeState::new();
    node.begin_discovery();
    let r = node.handle_event(Event::Gateway(GatewayEvent::GatewayNotFound));
    assert_eq!(r, Report::GatewayAbsent);
    assert_eq!(r.severity(), Severity::Warn);
    assert_eq!(node.gateway, GatewayStatus::GatewayAbsent);
    let r = node.handle_event(Event::Gateway(GatewayEvent::NonRoutableGateway));
    assert_eq!(r, Report::GatewayNonRoutable);
    assert_eq!(r.severity(), Severity::Warn);
    assert_eq!(node.gateway, GatewayStatus::GatewayNonRoutable);
}

#[test]
fn connection_lifecycle_is_tracked() {
    let mut node = NodeState::new();
    let peer = s("12D3KooWPeerA");
    let r = node.handle_event(Event::ConnectionEstablished {
        peer: peer.clone(),
        remote_addr: s("/ip4/192.0.2.1/tcp/4001"),
    });
    assert_eq!(
        r,
        Report::ConnectionRecorded {
            peer: peer.clone(),
            remote_addr: s("/ip4/192.0.2.1/tcp/4001"),
        }
    );
    assert_eq!(node.open_connections_to(&peer), 1);
    let r = node.handle_event(Event::ConnectionClosed { peer: peer.clone(), cause: None });
    assert_eq!(r, Report::ConnectionDropped { peer: peer.clone(), cause: None });
    assert_eq!(r.severity(), Severity::Warn);
    assert_eq!(node.open_connections_to(&peer), 0);
}

#[test]
fn close_without_record_leaves_table_empty() {
    let mut node = NodeState::new();
    let peer = s("12D3KooWPeerA");
    node.handle_event(Event::ConnectionEstablished {
        peer: peer.clone(),
        remote_addr: s("/ip4/192.0.2.1/tcp/4001"),
    });
    node.handle_event(Event::ConnectionClosed { peer: peer.clone(), cause: None });
    // a stale close for the same peer finds nothing to remove
    node.handle_event(Event::ConnectionClosed {
        peer: peer.clone(),
        cause: Some(s("keep-alive timeout")),
    });
    assert_eq!(node.open_connections_to(&peer), 0);
}

#[test]
fn connections_to_one_peer_are_counted_independently() {
    let mut node = NodeState::new();
    let peer = s("12D3KooWPeerA");
    node.handle_event(Event::ConnectionEstablished {
        peer: peer.clone(),
        remote_addr: s("/ip4/192.0.2.1/tcp/4001"),
    });
    node.handle_event(Event::ConnectionEstablished {
        peer: peer.clone(),
        remote_addr: s("/ip4/192.0.2.1/tcp/4002"),
    });
    assert_eq!(node.open_connections_to(&peer), 2);
    node.handle_event(Event::ConnectionClosed { peer: peer.clone(), cause: None });
    assert_eq!(node.open_connections_to(&peer), 1);
}

#[test]
fn latest_identify_result_wins() {
    let mut node = NodeState::new();
    let peer = s("12D3KooWPeerA");
    let first = info("agent-one/0.1");
    let second = info("agent-two/0.2");

    node.handle_event(Event::ConnectionEstablished {
        peer: peer.clone(),
        remote_addr: s("/ip4/192.0.2.1/tcp/4001"),
    });
    let r = node.handle_event(Event::Identify(IdentifyEvent::Received {
        peer: peer.clone(),
        info: info("agent-one/0.1"),
    }));
    assert_eq!(r, Report::PeerIdentified { peer: peer.clone(), info: info("agent-one/0.1") });
    assert_eq!(node.identify_info_of(&peer), Some(&first));

    // first connection closes; a second one opens and re-identifies
    node.handle_event(Event::ConnectionClosed { peer: peer.clone(), cause: None });
    node.handle_event(Event::ConnectionEstablished {
        peer: peer.clone(),
        remote_addr: s("/ip4/192.0.2.1/tcp/4002"),
    });
    node.handle_event(Event::Identify(IdentifyEvent::Received {
        peer: peer.clone(),
        info: info("agent-two/0.2"),
    }));
    assert_eq!(node.identify_info_of(&peer), Some(&second));
    assert_ne!(node.identify_info_of(&peer), Some(&first));
}

#[test]
fn peer_metadata_does_not_outlive_its_last_connection() {
    let mut node = NodeState::new();
    let peer = s("12D3KooWPeerA");
    node.handle_event(Event::ConnectionEstablished {
        peer: peer.clone(),
        remote_addr: s("/ip4/192.0.2.1/tcp/4001"),
    });
    node.handle_event(Event::ConnectionEstablished {
        peer: peer.clone(),
        remote_addr: s("/ip4/192.0.2.1/tcp/4002"),
    });
    node.handle_event(Event::Identify(IdentifyEvent::Received {
        peer: peer.clone(),
        info: info("agent-one/0.1"),
    }));
    // one connection remains: the metadata stays
    node.handle_event(Event::ConnectionClosed { peer: peer.clone(), cause: None });
    assert_eq!(node.identify_info_of(&peer), Some(&info("agent-one/0.1")));
    // the last connection closes: the metadata goes with it
    node.handle_event(Event::ConnectionClosed { peer: peer.clone(), cause: None });
    assert_eq!(node.identify_info_of(&peer), None);
}

#[test]
fn identify_confirmations_and_errors_are_reported() {
    let mut node = NodeState::new();
    let peer = s("12D3KooWPeerA");
    let r = node.handle_event(Event::Identify(IdentifyEvent::Sent { peer: peer.clone() }));
    assert_eq!(r, Report::IdentifySent { peer: peer.clone() });
    assert_eq!(r.severity(), Severity::Info);
    let r = node.handle_event(Event::Identify(IdentifyEvent::Pushed { peer: peer.clone() }));
    assert_eq!(r, Report::IdentifyPushed { peer: peer.clone() });
    let r = node.handle_event(Event::Identify(IdentifyEvent::Error {
        peer: Some(peer.clone()),
        reason: s("stream reset"),
    }));
    assert_eq!(
        r,
        Report::IdentifyFailed { peer: Some(peer.clone()), reason: s("stream reset") }
    );
    assert_eq!(r.severity(), Severity::Error);
}

#[test]
fn ping_outcomes_are_reported() {
    let mut node = NodeState::new();
    let peer = s("12D3KooWPeerA");
    let r = node.handle_event(Event::Ping(PingEvent {
        peer: peer.clone(),
        result: PingOutcome::Success { rtt_micros: 2500 },
    }));
    assert_eq!(r, Report::PingSuccess { peer: peer.clone(), rtt_micros: 2500 });
    assert_eq!(r.severity(), Severity::Info);
    let r = node.handle_event(Event::Ping(PingEvent {
        peer: peer.clone(),
        result: PingOutcome::Failure { reason: s("timeout") },
    }));
    assert_eq!(r, Report::PingFailure { peer: peer.clone(), reason: s("timeout") });
    assert_eq!(r.severity(), Severity::Warn);
}

#[test]
fn outgoing_error_is_nonfatal_and_records_nothing() {
    let mut node = NodeState::new();
    let peer = s("12D3KooWPeerB");
    let r = node.handle_event(Event::OutgoingConnectionError {
        peer: Some(peer.clone()),
        reason: s("connection refused"),
    });
    assert_eq!(
        r,
        Report::OutgoingFailed { peer: Some(peer.clone()), reason: s("connection refused") }
    );
    assert_eq!(r.severity(), Severity::Error);
    // no Established was seen, so nothing is recorded for that peer
    assert_eq!(node.open_connections_to(&peer), 0);
    // and the node keeps processing subsequent events
    let r = node.handle_event(Event::NewListenAddr { address: s("/ip4/0.0.0.0/tcp/4001") });
    assert_eq!(r, Report::ListenAddrBound { address: s("/ip4/0.0.0.0/tcp/4001") });
}

#[test]
fn incoming_attempt_and_error_are_reported() {
    let mut node = NodeState::new();
    let r = node.handle_event(Event::IncomingConnection {
        local_addr: s("/ip4/0.0.0.0/tcp/4001"),
        remote_addr: s("/ip4/192.0.2.9/tcp/55000"),
    });
    assert_eq!(
        r,
        Report::IncomingAttempt {
            local_addr: s("/ip4/0.0.0.0/tcp/4001"),
            remote_addr: s("/ip4/192.0.2.9/tcp/55000"),
        }
    );
    assert_eq!(r.severity(), Severity::Info);
    let r = node.handle_event(Event::IncomingConnectionError {
        local_addr: s("/ip4/0.0.0.0/tcp/4001"),
        remote_addr: s("/ip4/192.0.2.9/tcp/55000"),
        reason: s("handshake failed"),
    });
    assert_eq!(r.severity(), Severity::Error);
}
