use linkseeker::addr::{IpAddress, SockAddr};
use linkseeker::tracker::{LinkSeekTracker, OutboundItem, RdvRemote};

fn v4(a: u8, b: u8, c: u8, d: u8, port: u16) -> SockAddr {
    let bits = u32::from_be_bytes([a, b, c, d]);
    SockAddr { ip: IpAddress::V4 { bits }, port }
}

fn assert_item(item: &OutboundItem, bytes: &[u8], dest: SockAddr, socket_n: usize) {
    assert_eq!(item.bytes, bytes.to_vec());
    assert_eq!(item.dest, dest);
    assert_eq!(item.socket_n, socket_n);
}

#[test]
fn register_and_ping() {
    let mut t = LinkSeekTracker::new();
    let peer = v4(192, 0, 2, 1, 5000);
    t.process_incoming(b"Uregister", 0, peer);
    let out = t.take_outbound();
    assert_eq!(out.len(), 2);
    assert_eq!(out[0].bytes, out[1].bytes);
    assert!(out[0].bytes.starts_with(b"Uregisterok/id="));
    assert_eq!(out[0].dest, peer);
    assert_eq!(out[0].socket_n, 0);

    t.process_incoming(b"Uping/id=7", 0, peer);
    let out = t.take_outbound();
    assert_eq!(out.len(), 2);
    assert_item(&out[0], b"Upong/id=7", peer, 0);
    assert_item(&out[1], b"Upong/id=7", peer, 0);
}

#[test]
fn successful_request_orders_both_sides() {
    let mut t = LinkSeekTracker::new();
    let host = v4(198, 51, 100, 9, 4000);
    let client = v4(203, 0, 113, 2, 6000);
    t.rdv_hosts.push((42, RdvRemote { socket_addr: host, expiring: 60_000 }));

    t.process_incoming(b"Urequest/id=42/useproxy=0", 1, client);
    let out = t.take_outbound();
    assert_eq!(out.len(), 4);
    // the order toward the host is queued first, then the one toward the
    // requester; each is sent twice
    assert_item(&out[0], b"Upunchorder/remote=203.0.113.2:6000", host, 1);
    assert_item(&out[1], b"Upunchorder/remote=203.0.113.2:6000", host, 1);
    assert_item(&out[2], b"Upunchorder/remote=198.51.100.9:4000", client, 1);
    assert_item(&out[3], b"Upunchorder/remote=198.51.100.9:4000", client, 1);
}

#[test]
fn unknown_id_gets_requesterr() {
    let mut t = LinkSeekTracker::new();
    let client = v4(203, 0, 113, 2, 6000);
    t.process_incoming(b"Urequest/id=99/useproxy=0", 0, client);
    let out = t.take_outbound();
    assert_eq!(out.len(), 2);
    assert_item(&out[0], b"Urequesterr/msg=host code does not exist", client, 0);
    assert_item(&out[1], b"Urequesterr/msg=host code does not exist", client, 0);
}

#[test]
fn punch_check_same_source_is_feasible() {
    let mut t = LinkSeekTracker::new();
    let peer = v4(198, 51, 100, 9, 4000);
    t.process_incoming(b"Upunchcheck/id=5", 0, peer);
    assert_eq!(t.take_outbound().len(), 0);

    t.process_incoming(b"Upunchcheck/id=5", 2, peer);
    let out = t.take_outbound();
    assert_eq!(out.len(), 4);
    // the reply to the second probe is queued first, then the reply to the
    // first probe, each on the socket that received it
    assert_item(&out[0], b"Upunchcheckr/ok=1", peer, 2);
    assert_item(&out[1], b"Upunchcheckr/ok=1", peer, 2);
    assert_item(&out[2], b"Upunchcheckr/ok=1", peer, 0);
    assert_item(&out[3], b"Upunchcheckr/ok=1", peer, 0);
    assert_eq!(t.punch_checks.len(), 0);
}

#[test]
fn punch_check_changed_port_is_infeasible() {
    let mut t = LinkSeekTracker::new();
    let first = v4(198, 51, 100, 9, 4000);
    let second = v4(198, 51, 100, 9, 4001);
    t.process_incoming(b"Upunchcheck/id=5", 0, first);
    assert_eq!(t.take_outbound().len(), 0);

    t.process_incoming(b"Upunchcheck/id=5", 2, second);
    let out = t.take_outbound();
    assert_eq!(out.len(), 4);
    assert_item(&out[0], b"Upunchcheckr/ok=0", second, 2);
    assert_item(&out[1], b"Upunchcheckr/ok=0", second, 2);
    assert_item(&out[2], b"Upunchcheckr/ok=0", first, 0);
    assert_item(&out[3], b"Upunchcheckr/ok=0", first, 0);
}

#[test]
fn punch_check_duplicate_probe_is_ignored() {
    let mut t = LinkSeekTracker::new();
    let peer = v4(198, 51, 100, 9, 4000);
    t.process_incoming(b"Upunchcheck/id=5", 0, peer);
    t.process_incoming(b"Upunchcheck/id=5", 0, peer);
    assert_eq!(t.take_outbound().len(), 0);
    assert_eq!(t.punch_checks.len(), 1);
}

#[test]
fn proxy_setup_and_forwarding() {
    let mut t = LinkSeekTracker::new();
    let caller = v4(198, 51, 100, 9, 4000);
    let remote = v4(203, 0, 113, 7, 7000);
    t.process_incoming(b"Uproxy/remote=203.0.113.7:7000", 0, caller);
    let out = t.take_outbound();
    assert_eq!(out.len(), 2);
    assert_item(&out[0], b"Uproxyr/remote=203.0.113.7:7000/ok=1", caller, 0);
    assert_item(&out[1], b"Uproxyr/remote=203.0.113.7:7000/ok=1", caller, 0);

    // payload from the caller goes to the remote, from a different socket
    let payload = [0u8, 1, 2, 255, 42];
    t.process_incoming(&payload, 0, caller);
    let out = t.take_outbound();
    assert_eq!(out.len(), 1);
    assert_eq!(out[0].bytes, payload.to_vec());
    assert_eq!(out[0].dest, remote);
    assert_eq!(out[0].socket_n, 3);

    // payload from the remote on that socket goes back to the caller
    let reply = [9u8, 8, 7];
    t.process_incoming(&reply, 3, remote);
    let out = t.take_outbound();
    assert_eq!(out.len(), 1);
    assert_eq!(out[0].bytes, reply.to_vec());
    assert_eq!(out[0].dest, caller);
    assert_eq!(out[0].socket_n, 0);
}

#[test]
fn proxy_is_idempotent_per_pair() {
    let mut t = LinkSeekTracker::new();
    let caller = v4(198, 51, 100, 9, 4000);
    t.process_incoming(b"Uproxy/remote=203.0.113.7:7000", 0, caller);
    t.take_outbound();
    t.process_incoming(b"Uproxy/remote=203.0.113.7:7000", 0, caller);
    assert_eq!(t.take_outbound().len(), 0);
    assert_eq!(t.proxy_list.len(), 1);
}

#[test]
fn proxy_runs_out_of_sockets() {
    let mut t = LinkSeekTracker::new();
    let remote = v4(203, 0, 113, 7, 7000);
    // distinct callers all asking to relay toward the same remote, each
    // arriving on socket 0: indices 3, 2 and 1 get used up
    for (i, port) in [4000u16, 4001, 4002].iter().enumerate() {
        let caller = v4(198, 51, 100, 9, *port);
        t.process_incoming(b"Uproxy/remote=203.0.113.7:7000", 0, caller);
        let out = t.take_outbound();
        assert!(out[0].bytes.ends_with(b"/ok=1"));
        assert_eq!(t.proxy_list[i].out_socket_n, 3 - i);
        assert_eq!(t.proxy_list[i].outgoing, remote);
    }
    // socket 0 is where the request arrives, so nothing is left
    let caller = v4(198, 51, 100, 9, 4003);
    t.process_incoming(b"Uproxy/remote=203.0.113.7:7000", 0, caller);
    let out = t.take_outbound();
    assert_eq!(out.len(), 2);
    assert_item(&out[0], b"Uproxyr/remote=203.0.113.7:7000/ok=0", caller, 0);
    assert_eq!(t.proxy_list.len(), 3);
}

#[test]
fn unmatched_payload_is_dropped() {
    let mut t = LinkSeekTracker::new();
    t.process_incoming(&[1, 2, 3], 0, v4(10, 0, 0, 1, 1000));
    assert_eq!(t.take_outbound().len(), 0);
}

#[test]
fn register_twice_keeps_identity() {
    let mut t = LinkSeekTracker::new();
    let peer = v4(192, 0, 2, 1, 5000);
    let id1 = t.register_or_refresh(peer);
    assert_eq!(t.rdv_hosts.len(), 1);
    let id2 = t.register_or_refresh(peer);
    assert_eq!(id1, id2);
    assert_eq!(t.rdv_hosts.len(), 1);
    assert_eq!(t.lookup(id1), Some(peer));
}

#[test]
fn sweep_removes_expired_registration() {
    let mut t = LinkSeekTracker::new();
    let peer = v4(192, 0, 2, 1, 5000);
    let id = t.register_or_refresh(peer);
    // the registration expires sixty seconds after it was made
    t.cleanup(59_999);
    assert_eq!(t.lookup(id), Some(peer));
    t.cleanup(60_000);
    assert_eq!(t.lookup(id), None);
    assert_eq!(t.rdv_hosts.len(), 0);
}

#[test]
fn sweep_removes_idle_session_keeps_active_one() {
    let mut t = LinkSeekTracker::new();
    let caller = v4(198, 51, 100, 9, 4000);
    let remote = v4(203, 0, 113, 7, 7000);
    t.process_incoming(b"Uproxy/remote=203.0.113.7:7000", 0, caller);
    t.take_outbound();
    // a forwarded packet at 50s refreshes the session
    t.cleanup(50_000);
    t.process_incoming(&[1], 0, caller);
    t.take_outbound();
    // at 100s the session has been active 50s ago: it stays
    t.cleanup(100_000);
    assert_eq!(t.proxy_list.len(), 1);
    assert_eq!(t.proxy_list[0].in_packets, 1);
    assert_eq!(t.proxy_list[0].outgoing, remote);
    // idle for sixty more seconds: it goes
    t.cleanup(170_000);
    assert_eq!(t.proxy_list.len(), 0);
}

#[test]
fn sweep_removes_stale_punch_check() {
    let mut t = LinkSeekTracker::new();
    let peer = v4(198, 51, 100, 9, 4000);
    t.process_incoming(b"Upunchcheck/id=5", 0, peer);
    assert_eq!(t.punch_checks.len(), 1);
    t.cleanup(60_000);
    assert_eq!(t.punch_checks.len(), 0);
}

#[test]
fn forwarding_counts_both_directions() {
    let mut t = LinkSeekTracker::new();
    let caller = v4(198, 51, 100, 9, 4000);
    let remote = v4(203, 0, 113, 7, 7000);
    t.process_incoming(b"Uproxy/remote=203.0.113.7:7000", 0, caller);
    t.take_outbound();
    t.process_incoming(&[1], 0, caller);
    t.process_incoming(&[2], 0, caller);
    t.process_incoming(&[3], 3, remote);
    t.take_outbound();
    assert_eq!(t.proxy_list[0].in_packets, 2);
    assert_eq!(t.proxy_list[0].out_packets, 1);
}
