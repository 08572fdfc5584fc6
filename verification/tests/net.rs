use lan_chat::net::{
    join_targets, multicast_interfaces, reader_step, send_outcome, Destination, Iface, Net,
    ReadEvent, ReaderStep, SendOutcome, DEFAULT_GROUP, DEFAULT_PORT,
};
use lan_chat::protocol::{Envelope, Payload};

fn iface(loopback: bool, v6: bool, index: Option<u32>, name: &str) -> Iface {
    Iface { loopback, v6, index, name: name.into() }
}

fn targets(list: &[(u32, &str)]) -> Vec<(u32, String)> {
    list.iter().map(|(i, n)| (*i, n.to_string())).collect()
}

#[test]
fn default_group_is_ff12() {
    assert_eq!(DEFAULT_GROUP, [0xff12, 0, 0, 0, 0, 0, 0x4c41, 0x4e43]);
    assert_eq!(DEFAULT_PORT, 45654);
}

#[test]
fn only_usable_interfaces_are_listed_once() {
    let found = vec![
        iface(true, true, Some(1), "lo"),
        iface(false, false, Some(2), "eth0"),
        iface(false, true, Some(2), "eth0"),
        iface(false, true, Some(2), "eth0:1"),
        iface(false, true, None, "tun"),
        iface(false, true, Some(0), "odd"),
        iface(false, true, Some(5), "wlan0"),
    ];
    assert_eq!(multicast_interfaces(&found), targets(&[(2, "eth0"), (5, "wlan0")]));
    assert_eq!(multicast_interfaces(&vec![]), vec![]);
}

#[test]
fn an_index_pins_one_interface() {
    let found = targets(&[(2, "eth0"), (5, "wlan0")]);
    assert_eq!(join_targets(0, found.clone()), found);
    assert_eq!(join_targets(17, found), targets(&[(17, "index 17")]));
    assert_eq!(join_targets(u32::MAX, vec![]), targets(&[(u32::MAX, "index 4294967295")]));
}

#[test]
fn joined_interfaces_are_those_that_worked() {
    let t = targets(&[(2, "a"), (3, "b"), (4, "c")]);
    let net = Net::join(DEFAULT_GROUP, 1234, &t, &vec![true, false, true]);
    assert!(!net.needs_fallback());
    assert!(net.is_joined(2) && !net.is_joined(3) && net.is_joined(4));
    assert_eq!(net.group(), (DEFAULT_GROUP, 1234));
}

#[test]
fn nothing_joined_falls_back_to_the_system() {
    let t = targets(&[(2, "a")]);
    let mut net = Net::join(DEFAULT_GROUP, DEFAULT_PORT, &t, &vec![false]);
    assert!(net.needs_fallback());
    net.add_iface(0);
    assert!(!net.needs_fallback());
    assert!(net.is_joined(0));
}

#[test]
fn rescanning_finds_what_is_new() {
    let t = targets(&[(2, "a")]);
    let mut net = Net::join(DEFAULT_GROUP, DEFAULT_PORT, &t, &vec![true]);
    let found = targets(&[(2, "a"), (9, "wlan0")]);
    assert_eq!(net.new_targets(found.clone()), targets(&[(9, "wlan0")]));
    net.add_iface(9);
    assert_eq!(net.new_targets(found), vec![]);
}

#[test]
fn a_failed_join_is_tried_again() {
    let t = targets(&[(2, "a")]);
    let mut net = Net::join(DEFAULT_GROUP, DEFAULT_PORT, &t, &vec![true]);
    let found = targets(&[(2, "a"), (8, "vpn"), (9, "wlan0")]);
    // Of the two new ones only the second can be joined.
    assert_eq!(net.new_targets(found.clone()), targets(&[(8, "vpn"), (9, "wlan0")]));
    net.add_iface(9);
    assert_eq!(net.new_targets(found), targets(&[(8, "vpn")]));
    let env = Envelope::new(1, Payload::Hello { name: "a".into() });
    let (_, to) = net.send(&env);
    let used: Vec<u32> = to.iter().map(|d| d.iface).collect();
    assert_eq!(used, vec![2, 9]);
}

#[test]
fn link_scoped_groups_carry_the_interface() {
    let env = Envelope::new(1, Payload::Text { name: "alice".into(), body: "hello ipv6".into() });
    let t = targets(&[(2, "a"), (7, "b")]);
    let oks = vec![true, true];
    let net = Net::join(DEFAULT_GROUP, DEFAULT_PORT, &t, &oks);
    let (bytes, to) = net.send(&env);
    assert_eq!(bytes, env.encode());
    assert_eq!(
        to,
        vec![Destination { iface: 2, scope_id: 2 }, Destination { iface: 7, scope_id: 7 }]
    );

    // ff15 is site-local: the scope id stays out of the address.
    let mut wide = DEFAULT_GROUP;
    wide[0] = 0xff15;
    let (_, to) = Net::join(wide, DEFAULT_PORT, &t, &oks).send(&env);
    assert_eq!(
        to,
        vec![Destination { iface: 2, scope_id: 0 }, Destination { iface: 7, scope_id: 0 }]
    );

    let mut node = DEFAULT_GROUP;
    node[0] = 0xff01;
    let (_, to) = Net::join(node, DEFAULT_PORT, &t, &vec![false, true]).send(&env);
    assert_eq!(to, vec![Destination { iface: 7, scope_id: 7 }]);
}

#[test]
fn one_copy_is_enough() {
    assert_eq!(send_outcome(&vec![false, true, false]), SendOutcome::Sent);
    assert_eq!(send_outcome(&vec![false, false]), SendOutcome::Failed(1));
    assert_eq!(send_outcome(&vec![]), SendOutcome::NoInterfaces);
}

#[test]
fn the_reader_delivers_ours_and_skips_the_rest() {
    let env = Envelope::new(1, Payload::Hello { name: "a".into() });
    let bytes = env.encode();
    match reader_step(ReadEvent::Datagram { bytes: &bytes, has_sender: true }) {
        ReaderStep::Deliver(got) => assert_eq!(got, env),
        other => panic!("{other:?}"),
    }
    let skipped = [
        reader_step(ReadEvent::Datagram { bytes: &bytes, has_sender: false }),
        reader_step(ReadEvent::Datagram { bytes: b"noise", has_sender: true }),
        reader_step(ReadEvent::Failed { interrupted: true }),
    ];
    for step in skipped {
        assert!(matches!(step, ReaderStep::Skip));
    }
    assert!(matches!(reader_step(ReadEvent::Failed { interrupted: false }), ReaderStep::Stop));
}
