use std::collections::HashSet;

use erbium::dhcp::{dispatch, handle_discover, handle_pkt, handle_request, DhcpError};
use erbium::packet::{
    parse, DhcpOptions, DhcpPacket, ParseError, DHCPACK, DHCPDISCOVER, DHCPINFORM, DHCPOFFER,
    DHCPREQUEST, OPTION_ADDRESSREQUEST, OPTION_CLIENTID, OPTION_DOMAINNAME, OPTION_LEASETIME,
    OPTION_MSGTYPE, OPTION_PARAMLIST, OPTION_ROUTER, OPTION_SERVERID,
};
use erbium::policy::{
    apply_policies, check_policies, check_policy, Config, DhcpRequest, Ipv4Subnet, Policy,
    PolicyMatch, Response,
};
use erbium::pool::{lease_duration, HistoryRow, LeaseRow, Pool, PoolError};

fn ip(a: u8, b: u8, c: u8, d: u8) -> u32 {
    u32::from_be_bytes([a, b, c, d])
}

fn subnet_policy(addresses: Vec<u32>) -> Policy {
    let mut p = Policy::new();
    p.match_subnet = Some(Ipv4Subnet::new(ip(192, 0, 2, 0), 24).unwrap());
    p.apply_address = Some(addresses);
    p
}

fn range(lo: u8, hi: u8) -> Vec<u32> {
    (lo..=hi).map(|d| ip(192, 0, 2, d)).collect()
}

fn request(msgtype: u8, serverip: u32) -> DhcpRequest {
    let mut req = DhcpRequest::default();
    req.pkt.xid = 0xDEADBEEF;
    req.serverip = serverip;
    req.pkt.options.set_option(OPTION_MSGTYPE, &[msgtype]);
    req
}

fn empty_response() -> Response {
    Response { options: DhcpOptions::new(), address: None, minlease: None, maxlease: None }
}

fn option(p: &DhcpPacket, code: u8) -> Option<Vec<u8>> {
    p.options.get_option(code)
}

#[test]
fn test_policy() {
    let mut cfg = Policy::new();
    cfg.match_subnet = Some(Ipv4Subnet::new(ip(192, 0, 2, 0), 24).unwrap());
    let mut req = DhcpRequest::default();
    req.serverip = ip(192, 0, 2, 67);
    let mut resp = empty_response();
    let policies = vec![cfg];

    assert_eq!(apply_policies(&req, &policies, &mut resp), true);
}

#[test]
fn discover_with_subnet_matched_policy() {
    let conf = Config { policies: vec![subnet_policy(range(10, 20))] };
    let mut pool = Pool::new_in_memory();
    let req = request(DHCPDISCOVER, ip(192, 0, 2, 1));
    assert_eq!(&req.pkt.chaddr[0..6], &[0x00, 0x00, 0x5E, 0x00, 0x53, 0x00]);
    let reply = handle_discover(&mut pool, &req, &conf, 0).unwrap();
    assert_eq!(reply.yiaddr, ip(192, 0, 2, 10));
    assert_eq!(reply.xid, 0xDEADBEEF);
    assert_eq!(reply.op, 2);
    assert_eq!(reply.ciaddr, 0);
    assert_eq!(reply.siaddr, 0);
    assert_eq!(reply.chaddr, req.pkt.chaddr);
    assert_eq!(option(&reply, OPTION_MSGTYPE), Some(vec![DHCPOFFER]));
    assert_eq!(option(&reply, OPTION_SERVERID), Some(vec![192, 0, 2, 1]));
    assert_eq!(reply.options.get_serverid(), Some(ip(192, 0, 2, 1)));
}

#[test]
fn discover_through_wire_bytes() {
    let conf = Config { policies: vec![subnet_policy(range(10, 20))] };
    let mut pool = Pool::new_in_memory();
    let req = request(DHCPDISCOVER, ip(192, 0, 2, 1));
    let bytes = req.pkt.serialise();
    let ids = HashSet::new();
    let reply = handle_pkt(&mut pool, &bytes, ip(192, 0, 2, 1), &ids, 1, &conf, 0).unwrap();
    assert_eq!(reply.yiaddr, ip(192, 0, 2, 10));
    assert_eq!(reply.xid, 0xDEADBEEF);
    let again = parse(&reply.serialise()).unwrap();
    assert_eq!(again.yiaddr, ip(192, 0, 2, 10));
    assert_eq!(again.options.get_messagetype(), Some(DHCPOFFER));
}

#[test]
fn request_for_another_server_is_ignored() {
    let conf = Config { policies: vec![subnet_policy(range(10, 20))] };
    let mut pool = Pool::new_in_memory();
    let mut req = request(DHCPREQUEST, ip(192, 0, 2, 1));
    req.pkt.options.set_option(OPTION_SERVERID, &[10, 0, 0, 1]);
    let mut ids = HashSet::new();
    ids.insert(ip(192, 0, 2, 1));
    let r = handle_request(&mut pool, &req, &ids, &conf, 0);
    assert!(matches!(r, Err(DhcpError::OtherServer)));
    // Nothing was allocated: a discover still gets the lowest address.
    let d = handle_discover(&mut pool, &request(DHCPDISCOVER, ip(192, 0, 2, 1)), &conf, 0);
    assert_eq!(d.unwrap().yiaddr, ip(192, 0, 2, 10));
}

#[test]
fn request_for_this_server_is_acknowledged() {
    let conf = Config { policies: vec![subnet_policy(range(10, 20))] };
    let mut pool = Pool::new_in_memory();
    let mut req = request(DHCPREQUEST, ip(192, 0, 2, 1));
    req.pkt.ciaddr = ip(192, 0, 2, 15);
    req.pkt.options.set_option(OPTION_SERVERID, &[192, 0, 2, 1]);
    let mut ids = HashSet::new();
    ids.insert(ip(192, 0, 2, 1));
    let reply = handle_request(&mut pool, &req, &ids, &conf, 0).unwrap();
    assert_eq!(reply.yiaddr, ip(192, 0, 2, 10));
    assert_eq!(reply.ciaddr, ip(192, 0, 2, 15));
    assert_eq!(option(&reply, OPTION_MSGTYPE), Some(vec![DHCPACK]));
    assert_eq!(option(&reply, OPTION_LEASETIME), Some(3600u32.to_be_bytes().to_vec()));
}

#[test]
fn requested_address_honoured() {
    let conf = Config { policies: vec![subnet_policy(vec![ip(192, 0, 2, 10), ip(192, 0, 2, 11)])] };
    let mut pool = Pool::new_in_memory();
    let mut req = request(DHCPDISCOVER, ip(192, 0, 2, 1));
    req.pkt.options.set_option(OPTION_ADDRESSREQUEST, &[192, 0, 2, 11]);
    let reply = handle_discover(&mut pool, &req, &conf, 0).unwrap();
    assert_eq!(reply.yiaddr, ip(192, 0, 2, 11));
}

#[test]
fn sticky_reassignment_after_expiry() {
    let conf = Config { policies: vec![subnet_policy(range(10, 20))] };
    let mut pool = Pool::new_in_memory();
    let req = request(DHCPDISCOVER, ip(192, 0, 2, 1));
    assert_eq!(handle_discover(&mut pool, &req, &conf, 0).unwrap().yiaddr, ip(192, 0, 2, 10));
    // The lease (3600 s) has expired at 5000.
    assert_eq!(handle_discover(&mut pool, &req, &conf, 5000).unwrap().yiaddr, ip(192, 0, 2, 10));
}

#[test]
fn sticky_reassignment_prefers_history_over_lowest() {
    let conf = Config { policies: vec![subnet_policy(range(10, 20))] };
    let mut pool = Pool::new_in_memory();
    let mut first = request(DHCPDISCOVER, ip(192, 0, 2, 1));
    first.pkt.options.set_option(OPTION_ADDRESSREQUEST, &[192, 0, 2, 13]);
    assert_eq!(handle_discover(&mut pool, &first, &conf, 0).unwrap().yiaddr, ip(192, 0, 2, 13));
    let again = request(DHCPDISCOVER, ip(192, 0, 2, 1));
    assert_eq!(handle_discover(&mut pool, &again, &conf, 5000).unwrap().yiaddr, ip(192, 0, 2, 13));
}

#[test]
fn same_client_keeps_its_unexpired_lease() {
    let conf = Config { policies: vec![subnet_policy(range(10, 20))] };
    let mut pool = Pool::new_in_memory();
    let req = request(DHCPDISCOVER, ip(192, 0, 2, 1));
    let a = handle_discover(&mut pool, &req, &conf, 100).unwrap().yiaddr;
    let mut hinted = request(DHCPDISCOVER, ip(192, 0, 2, 1));
    hinted.pkt.options.set_option(OPTION_ADDRESSREQUEST, &[192, 0, 2, 19]);
    let b = handle_discover(&mut pool, &hinted, &conf, 200).unwrap().yiaddr;
    assert_eq!(a, b);
}

#[test]
fn exhaustion_gives_no_leases_available() {
    let conf = Config { policies: vec![subnet_policy(vec![ip(192, 0, 2, 10)])] };
    let mut pool = Pool::new_in_memory();
    let mut other = request(DHCPDISCOVER, ip(192, 0, 2, 1));
    other.pkt.chaddr[5] = 0x01;
    assert_eq!(handle_discover(&mut pool, &other, &conf, 0).unwrap().yiaddr, ip(192, 0, 2, 10));
    let req = request(DHCPDISCOVER, ip(192, 0, 2, 1));
    let r = handle_discover(&mut pool, &req, &conf, 10);
    assert!(matches!(r, Err(DhcpError::NoLeasesAvailable)));
}

#[test]
fn distinct_clients_get_distinct_addresses() {
    let conf = Config { policies: vec![subnet_policy(range(10, 12))] };
    let mut pool = Pool::new_in_memory();
    let mut seen = Vec::new();
    for n in 0..3u8 {
        let mut req = request(DHCPDISCOVER, ip(192, 0, 2, 1));
        req.pkt.chaddr[5] = n;
        seen.push(handle_discover(&mut pool, &req, &conf, 0).unwrap().yiaddr);
    }
    assert_eq!(seen, vec![ip(192, 0, 2, 10), ip(192, 0, 2, 11), ip(192, 0, 2, 12)]);
}

#[test]
fn parameter_request_list_filters_applied_options() {
    let mut p = subnet_policy(range(10, 20));
    p.apply_other = vec![(OPTION_ROUTER, vec![192, 0, 2, 1]), (OPTION_DOMAINNAME, b"ex".to_vec())];
    let conf = Config { policies: vec![p] };
    let mut pool = Pool::new_in_memory();
    let mut req = request(DHCPDISCOVER, ip(192, 0, 2, 1));
    req.pkt.options.set_option(OPTION_PARAMLIST, &[OPTION_ROUTER]);
    let reply = handle_discover(&mut pool, &req, &conf, 0).unwrap();
    assert_eq!(option(&reply, OPTION_ROUTER), Some(vec![192, 0, 2, 1]));
    assert_eq!(option(&reply, OPTION_DOMAINNAME), None);
}

#[test]
fn no_policy_configured() {
    let conf = Config { policies: vec![subnet_policy(range(10, 20))] };
    let mut pool = Pool::new_in_memory();
    let req = request(DHCPDISCOVER, ip(198, 51, 100, 1));
    let r = handle_discover(&mut pool, &req, &conf, 0);
    assert!(matches!(r, Err(DhcpError::NoPolicyConfigured)));
}

#[test]
fn policy_without_addresses_gives_no_leases() {
    let mut p = Policy::new();
    p.match_subnet = Some(Ipv4Subnet::new(ip(192, 0, 2, 0), 24).unwrap());
    let conf = Config { policies: vec![p] };
    let mut pool = Pool::new_in_memory();
    let r = handle_discover(&mut pool, &request(DHCPDISCOVER, ip(192, 0, 2, 1)), &conf, 0);
    assert!(matches!(r, Err(DhcpError::NoLeasesAvailable)));
}

#[test]
fn unknown_and_missing_message_types() {
    let conf = Config { policies: vec![subnet_policy(range(10, 20))] };
    let mut pool = Pool::new_in_memory();
    let ids = HashSet::new();
    let r = dispatch(&mut pool, &request(DHCPINFORM, ip(192, 0, 2, 1)), &ids, &conf, 0);
    assert!(matches!(r, Err(DhcpError::UnknownMessageType(8))));
    let bare = DhcpRequest::default();
    let r = dispatch(&mut pool, &bare, &ids, &conf, 0);
    assert!(matches!(r, Err(DhcpError::ParseError(ParseError::InvalidPacket))));
}

#[test]
fn short_input_is_a_parse_error() {
    let conf = Config { policies: vec![] };
    let mut pool = Pool::new_in_memory();
    let ids = HashSet::new();
    let r = handle_pkt(&mut pool, &[1, 2, 3], 0, &ids, 0, &conf, 0);
    assert!(matches!(r, Err(DhcpError::ParseError(ParseError::ShortPacket))));
}

#[test]
fn bare_parent_delegates_to_children() {
    let mut parent = Policy::new();
    parent.apply_address = Some(vec![ip(192, 0, 2, 50)]);
    let mut child = Policy::new();
    child.match_subnet = Some(Ipv4Subnet::new(ip(192, 0, 2, 0), 24).unwrap());
    child.apply_address = Some(vec![ip(192, 0, 2, 60)]);
    parent.policies = vec![child];
    let policies = vec![parent];

    let inside = request(DHCPDISCOVER, ip(192, 0, 2, 1));
    assert!(check_policies(&inside, &policies));
    let mut resp = empty_response();
    assert!(apply_policies(&inside, &policies, &mut resp));
    assert_eq!(resp.address, Some(vec![ip(192, 0, 2, 60)]));

    let outside = request(DHCPDISCOVER, ip(10, 0, 0, 1));
    assert!(!check_policies(&outside, &policies));
    let mut resp = empty_response();
    assert!(!apply_policies(&outside, &policies, &mut resp));
    assert_eq!(resp.address, None);
}

#[test]
fn match_states() {
    let req = request(DHCPDISCOVER, ip(192, 0, 2, 1));
    assert_eq!(check_policy(&req, &Policy::new()), PolicyMatch::NoMatch);
    let mut chaddr = Policy::new();
    chaddr.match_chaddr = Some(vec![0x00, 0x00, 0x5E, 0x00, 0x53, 0x00]);
    assert_eq!(check_policy(&req, &chaddr), PolicyMatch::MatchSucceeded);
    chaddr.match_chaddr = Some(vec![0x00, 0x00, 0x5E, 0x00, 0x53, 0x01]);
    assert_eq!(check_policy(&req, &chaddr), PolicyMatch::MatchFailed);
    let mut other = Policy::new();
    other.match_other = vec![(OPTION_CLIENTID, vec![1, 2, 3])];
    assert_eq!(check_policy(&req, &other), PolicyMatch::MatchFailed);
    let mut with_id = request(DHCPDISCOVER, ip(192, 0, 2, 1));
    with_id.pkt.options.set_option(OPTION_CLIENTID, &[1, 2, 3]);
    assert_eq!(check_policy(&with_id, &other), PolicyMatch::MatchSucceeded);
}

#[test]
fn subnet_membership() {
    let s = Ipv4Subnet::new(ip(192, 0, 2, 0), 24).unwrap();
    assert!(s.contains(ip(192, 0, 2, 255)));
    assert!(!s.contains(ip(192, 0, 3, 0)));
    assert!(Ipv4Subnet::new(0, 0).unwrap().contains(ip(8, 8, 8, 8)));
    assert!(Ipv4Subnet::new(0, 33).is_none());
}

#[test]
fn lease_duration_bounds() {
    assert_eq!(lease_duration(None, None), 3600);
    assert_eq!(lease_duration(None, Some(600)), 600);
    assert_eq!(lease_duration(Some(7200), None), 7200);
    assert_eq!(lease_duration(Some(100), Some(600)), 600);
}

#[test]
fn allocator_errors_and_renewal() {
    let mut pool = Pool::new_in_memory();
    let cands = vec![ip(192, 0, 2, 10)];
    let l = pool.allocate_address(b"a", None, &cands, 0, 60).unwrap();
    assert_eq!(l.ip, ip(192, 0, 2, 10));
    assert_eq!(l.expire, 60);
    assert!(matches!(
        pool.allocate_address(b"b", Some(ip(192, 0, 2, 10)), &cands, 30, 60),
        Err(PoolError::NoAssignableAddress)
    ));
    // After expiry another client may take it.
    assert_eq!(pool.allocate_address(b"b", None, &cands, 61, 60).unwrap().ip, ip(192, 0, 2, 10));
    assert!(matches!(
        pool.allocate_address(b"a", None, &cands, 62, 60),
        Err(PoolError::NoAssignableAddress)
    ));
}

fn sample_packet() -> DhcpPacket {
    let mut req = DhcpRequest::default();
    req.pkt.xid = 0x01020304;
    req.pkt.secs = 7;
    req.pkt.flags = 0x8000;
    req.pkt.giaddr = ip(10, 1, 2, 3);
    req.pkt.options.set_option(OPTION_MSGTYPE, &[DHCPDISCOVER]);
    req.pkt.options.set_option(OPTION_CLIENTID, &[1, 0, 0, 0x5e, 0, 0x53, 0]);
    req.pkt.options.set_option(OPTION_PARAMLIST, &[1, 3, 6, 15]);
    req.pkt
}

#[test]
fn serialise_then_parse_is_identity() {
    let p = sample_packet();
    let bytes = p.serialise();
    assert_eq!(&bytes[236..240], &[99, 130, 83, 99]);
    assert_eq!(*bytes.last().unwrap(), 255);
    let q = parse(&bytes).unwrap();
    assert_eq!(q.xid, p.xid);
    assert_eq!(q.secs, 7);
    assert_eq!(q.flags, 0x8000);
    assert_eq!(q.giaddr, p.giaddr);
    assert_eq!(q.chaddr, p.chaddr);
    for code in 0..=255u8 {
        assert_eq!(q.options.get_option(code), p.options.get_option(code));
    }
    assert_eq!(q.serialise(), bytes);
}

#[test]
fn parse_then_serialise_reparses_equal() {
    let mut bytes = sample_packet().serialise();
    // Insert pad bytes and a duplicate record before the end code.
    bytes.pop();
    bytes.extend_from_slice(&[0, 0, OPTION_MSGTYPE, 1, DHCPREQUEST, 255]);
    let p = parse(&bytes).unwrap();
    assert_eq!(p.options.get_messagetype(), Some(DHCPREQUEST));
    let q = parse(&p.serialise()).unwrap();
    assert_eq!(q.options.get_messagetype(), Some(DHCPREQUEST));
    assert_eq!(q.serialise(), p.serialise());
}

#[test]
fn options_are_serialised_in_code_order_and_split() {
    let mut p = sample_packet();
    let long: Vec<u8> = (0..300u32).map(|i| i as u8).collect();
    p.options.set_option(200, &long);
    let bytes = p.serialise();
    let opts = &bytes[240..];
    assert_eq!(opts[0], 53);
    let at = opts.iter().position(|&b| b == 200).unwrap();
    assert_eq!(opts[at + 1], 255);
    assert_eq!(opts[at + 2 + 255], 200);
    assert_eq!(opts[at + 3 + 255], 45);
}

#[test]
fn parse_errors() {
    let bytes = sample_packet().serialise();
    assert!(matches!(parse(&bytes[..235]), Err(ParseError::ShortPacket)));
    assert!(matches!(parse(&bytes[..236]), Err(ParseError::InvalidPacket)));
    assert!(matches!(parse(&bytes[..238]), Err(ParseError::InvalidPacket)));
    let mut bad = bytes.clone();
    bad[237] = 0;
    assert!(matches!(parse(&bad), Err(ParseError::InvalidPacket)));
    let mut cut = bytes[..240].to_vec();
    cut.extend_from_slice(&[OPTION_MSGTYPE, 4, 1]);
    assert!(matches!(parse(&cut), Err(ParseError::ShortPacket)));
    let unterminated = bytes[..bytes.len() - 1].to_vec();
    assert!(parse(&unterminated).is_ok());
}

#[test]
fn client_id_falls_back_to_hardware_address() {
    let req = DhcpRequest::default();
    assert_eq!(req.pkt.get_client_id(), vec![1, 0x00, 0x00, 0x5E, 0x00, 0x53, 0x00]);
    let p = sample_packet();
    assert_eq!(p.get_client_id(), vec![1, 0, 0, 0x5e, 0, 0x53, 0]);
}

#[test]
fn typed_accessors_reject_malformed_values() {
    let mut o = DhcpOptions::new();
    o.set_option(OPTION_SERVERID, &[1, 2, 3]);
    o.set_option(OPTION_MSGTYPE, &[1, 2]);
    assert_eq!(o.get_serverid(), None);
    assert_eq!(o.get_messagetype(), None);
    assert_eq!(o.get_address_request(), None);
    o.set_option(OPTION_ADDRESSREQUEST, &[192, 0, 2, 9]);
    assert_eq!(o.get_address_request(), Some(ip(192, 0, 2, 9)));
}

#[test]
fn pool_survives_its_stored_form() {
    let mut pool = Pool::new_in_memory();
    let cands = vec![ip(192, 0, 2, 10), ip(192, 0, 2, 11)];
    pool.allocate_address(b"a", None, &cands, 0, 60).unwrap();
    pool.allocate_address(b"bb", None, &cands, 0, 60).unwrap();
    let bytes = pool.to_bytes();
    // Two lease records and two history records of 21 bytes plus the id.
    assert_eq!(bytes.len(), 2 * (21 + 1) + 2 * (21 + 2));
    assert_eq!(bytes[0], 0x4c);
    assert_eq!(&bytes[1..5], &[192, 0, 2, 10]);
    assert_eq!(&bytes[5..13], &60u64.to_be_bytes());
    let mut restored = Pool::from_bytes(&bytes).unwrap();
    assert_eq!(restored.to_bytes(), bytes);
    // The restored pool still knows who holds what.
    assert!(matches!(
        restored.allocate_address(b"c", None, &cands, 10, 60),
        Err(PoolError::NoAssignableAddress)
    ));
    assert_eq!(restored.allocate_address(b"a", None, &cands, 10, 60).unwrap().ip, ip(192, 0, 2, 10));
}

#[test]
fn damaged_stored_form_is_refused() {
    let mut pool = Pool::new_in_memory();
    pool.allocate_address(b"a", None, &vec![ip(192, 0, 2, 10)], 0, 60).unwrap();
    let bytes = pool.to_bytes();
    assert!(Pool::from_bytes(&bytes[..bytes.len() - 1]).is_none());
    let mut bad_tag = bytes.clone();
    bad_tag[0] = 0;
    assert!(Pool::from_bytes(&bad_tag).is_none());
    let lease = bytes[..22].to_vec();
    let twice = [lease.clone(), lease].concat();
    assert!(Pool::from_bytes(&twice).is_none());
    assert!(Pool::from_bytes(&[]).unwrap().to_bytes().is_empty());
}

#[test]
fn from_rows_refuses_repeated_addresses() {
    let rows = vec![
        LeaseRow { ip: ip(192, 0, 2, 10), client_id: vec![1], expire: 5 },
        LeaseRow { ip: ip(192, 0, 2, 10), client_id: vec![2], expire: 5 },
    ];
    assert!(Pool::from_rows(rows, vec![]).is_none());
    let rows = vec![LeaseRow { ip: ip(192, 0, 2, 10), client_id: vec![1], expire: 5 }];
    let history = vec![HistoryRow { client_id: vec![1], ip: ip(192, 0, 2, 10) }];
    let pool = Pool::from_rows(rows, history).unwrap();
    assert_eq!(pool.lease_rows().len(), 1);
    assert_eq!(pool.history_rows()[0].ip, ip(192, 0, 2, 10));
}

#[test]
fn ack_carries_this_servers_id() {
    let conf = Config { policies: vec![subnet_policy(range(10, 20))] };
    let mut pool = Pool::new_in_memory();
    let mut req = request(DHCPREQUEST, ip(192, 0, 2, 1));
    req.pkt.options.set_option(OPTION_SERVERID, &[192, 0, 2, 254]);
    let mut ids = HashSet::new();
    ids.insert(ip(192, 0, 2, 1));
    ids.insert(ip(192, 0, 2, 254));
    let reply = handle_request(&mut pool, &req, &ids, &conf, 0).unwrap();
    assert_eq!(reply.options.get_serverid(), Some(ip(192, 0, 2, 1)));
}

#[test]
fn default_request_fields() {
    let req = DhcpRequest::default();
    assert_eq!(req.pkt.op, 1);
    assert_eq!(req.pkt.xid, 0);
    assert_eq!(req.pkt.flags, 0);
    assert_eq!(req.pkt.ciaddr, 0);
    assert_eq!(req.pkt.giaddr, 0);
    assert_eq!(req.serverip, 0);
    assert_eq!(req.ifindex, 0);
    assert_eq!(req.pkt.options.get_messagetype(), None);
}
