use upnp_test::dial::{begin_node, listen_addr_string, plan_dial, u16_to_dec, DialPlan};
use upnp_test::events::{Event, GatewayEvent, Report};
use upnp_test::state::GatewayStatus;

fn s(text: &str) -> String {
    String::from(text)
}

#[test]
fn listen_address_renders_the_port() {
    assert_eq!(listen_addr_string(4001), s("/ip4/0.0.0.0/tcp/4001"));
    assert_eq!(listen_addr_string(0), s("/ip4/0.0.0.0/tcp/0"));
    assert_eq!(listen_addr_string(65535), s("/ip4/0.0.0.0/tcp/65535"));
}

#[test]
fn port_renders_in_decimal() {
    assert_eq!(u16_to_dec(0), s("0"));
    assert_eq!(u16_to_dec(7), s("7"));
    assert_eq!(u16_to_dec(10), s("10"));
    assert_eq!(u16_to_dec(4001), s("4001"));
    assert_eq!(u16_to_dec(65535), s("65535"));
}

#[test]
fn listen_address_is_a_well_formed_multiaddr() {
    // the built string must be accepted by the real multiaddress parser
    let built = listen_addr_string(4001);
    match plan_dial(Some(built.clone())) {
        DialPlan::Dial { addr, input } => {
            assert_eq!(input, built);
            assert_eq!(addr.to_string(), built);
        }
        _ => panic!("the listen address must parse"),
    }
}

#[test]
fn well_formed_target_yields_a_dial() {
    match plan_dial(Some(s("/ip4/127.0.0.1/tcp/4001"))) {
        DialPlan::Dial { addr: _, input } => assert_eq!(input, s("/ip4/127.0.0.1/tcp/4001")),
        _ => panic!("a well-formed target must be dialed"),
    }
}

#[test]
fn malformed_target_is_reported_not_fatal() {
    match plan_dial(Some(s("not a multiaddr"))) {
        DialPlan::Invalid { input } => assert_eq!(input, s("not a multiaddr")),
        _ => panic!("a malformed target must be classified invalid"),
    }
}

#[test]
fn no_target_means_no_dial() {
    assert!(matches!(plan_dial(None), DialPlan::NoTarget));
}

#[test]
fn startup_survives_a_malformed_dial_target() {
    let mut startup = begin_node(4001, Some(s("definitely not an address")));
    assert!(matches!(startup.dial, DialPlan::Invalid { .. }));
    assert_eq!(startup.listen_addr, s("/ip4/0.0.0.0/tcp/4001"));
    assert_eq!(startup.state.gateway, GatewayStatus::Probing);
    // the dispatch loop still begins: incoming and gateway events are handled
    let r = startup.state.handle_event(Event::IncomingConnection {
        local_addr: s("/ip4/0.0.0.0/tcp/4001"),
        remote_addr: s("/ip4/192.0.2.9/tcp/55000"),
    });
    assert!(matches!(r, Report::IncomingAttempt { .. }));
    let addr = s("/ip4/203.0.113.5/tcp/4001");
    startup.state.handle_event(Event::Gateway(GatewayEvent::NewExternalAddr(addr.clone())));
    assert!(startup.state.is_reachable_via(&addr));
}

#[test]
fn startup_with_a_good_target_plans_the_dial() {
    let startup = begin_node(9000, Some(s("/ip4/127.0.0.1/tcp/4001")));
    assert!(matches!(startup.dial, DialPlan::Dial { .. }));
    assert_eq!(startup.listen_addr, s("/ip4/0.0.0.0/tcp/9000"));
    assert_eq!(startup.state.gateway, GatewayStatus::Probing);
}
