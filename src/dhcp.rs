use vstd::prelude::*;

use crate::packet::{
    client_id_of, empty_table, enc32, ipv4_option, parse, parse_result, u8_option, DhcpOptions,
    DhcpPacket, ParseError, DHCPACK, DHCPDISCOVER, DHCPOFFER, DHCPREQUEST, OPTION_ADDRESSREQUEST,
    OPTION_CLIENTID, OPTION_LEASETIME, OPTION_MSGTYPE, OPTION_SERVERID, OP_BOOTREPLY,
};
use crate::policy::{apply_policies, policies_apply, Config, DhcpRequest, Response, ResponseModel};
use crate::pool::{
    chosen_address, history_after, lease_duration, lease_secs, leases_after,
    lemma_chosen_is_candidate, saturating_sum, Pool, PoolError,
};

verus! {

/// Why a packet got no reply.
#[derive(Debug, PartialEq, Eq)]
pub enum DhcpError {
    /// The message type is present but is neither DISCOVER nor REQUEST.
    UnknownMessageType(u8),
    /// No candidate addresses, or every candidate is taken.
    NoLeasesAvailable,
    /// The packet could not be decoded.
    ParseError(ParseError),
    /// The allocator failed other than by running out of addresses; the
    /// in-memory pool has no such failure.
    InternalError(String),
    /// A REQUEST names a server that is not this one.
    OtherServer,
    /// No policy applied to the request.
    NoPolicyConfigured,
}

/// An address option value: the four bytes of the address.
fn ipv4_bytes(ip: u32) -> (r: Vec<u8>)
    ensures
        r@ == enc32(ip),
{
    let mut r: Vec<u8> = Vec::new();
    r.push((ip >> 24u32) as u8);
    r.push((ip >> 16u32) as u8);
    r.push((ip >> 8u32) as u8);
    r.push(ip as u8);
    assert(r@ =~= enc32(ip));
    r
}

/// Sets option `code` of `t`, or leaves `t` as it is when there is no value.
pub open spec fn maybe_set(t: Seq<Option<Seq<u8>>>, code: u8, v: Option<Seq<u8>>) -> Seq<
    Option<Seq<u8>>,
> {
    match v {
        Some(x) => t.update(code as int, Some(x)),
        None => t,
    }
}

/// The options a reply starts from, before the policies add theirs: the
/// message type, this server's id, and the client id if the client sent one.
pub open spec fn seed_options(req: DhcpRequest) -> Seq<Option<Seq<u8>>> {
    maybe_set(
        empty_table().update(OPTION_MSGTYPE as int, Some(seq![DHCPOFFER])).update(
            OPTION_SERVERID as int,
            Some(enc32(req.serverip)),
        ),
        OPTION_CLIENTID,
        req.pkt.options@[OPTION_CLIENTID as int],
    )
}

/// The response after the configured policies were applied to the request.
pub open spec fn policy_outcome(req: DhcpRequest, conf: Config) -> (bool, ResponseModel) {
    policies_apply(req, conf.policies@, (seed_options(req), None))
}

/// The address the pool hands this request, given the candidates.
pub open spec fn address_for(p: Pool, req: DhcpRequest, cands: Seq<u32>, now: u64) -> Option<u32> {
    chosen_address(
        p.leases_view(),
        p.history_view(),
        client_id_of(req.pkt),
        ipv4_option(req.pkt.options@[OPTION_ADDRESSREQUEST as int]),
        cands,
        now,
    )
}

/// The pool after the request took `ip`.
pub open spec fn pool_took(pre: Pool, post: Pool, req: DhcpRequest, ip: u32, now: u64) -> bool {
    &&& post.leases_view() == leases_after(
        pre.leases_view(),
        ip,
        client_id_of(req.pkt),
        saturating_sum(now, lease_secs(None, None)),
    )
    &&& post.history_view() == history_after(pre.history_view(), client_id_of(req.pkt), ip)
}

pub open spec fn pool_same(pre: Pool, post: Pool) -> bool {
    pre.leases_view() == post.leases_view() && pre.history_view() == post.history_view()
}

/// What evaluating the policies and allocating yields: the address and the
/// response options, or the error.
pub open spec fn allocation(p: Pool, req: DhcpRequest, conf: Config, now: u64) -> Result<
    (u32, Seq<Option<Seq<u8>>>),
    DhcpError,
> {
    let o = policy_outcome(req, conf);
    if !o.0 {
        Err(DhcpError::NoPolicyConfigured)
    } else {
        match o.1.1 {
            None => Err(DhcpError::NoLeasesAvailable),
            Some(cands) => match address_for(p, req, cands, now) {
                Some(ip) => Ok((ip, o.1.0)),
                None => Err(DhcpError::NoLeasesAvailable),
            },
        }
    }
}

/// The header of a reply to `req` that gives `ip`: echoes the transaction,
/// flags, relay and hardware address; no server address.
pub open spec fn reply_header(req: DhcpRequest, reply: DhcpPacket, ip: u32, ciaddr: u32) -> bool {
    &&& reply.wf()
    &&& reply.op == OP_BOOTREPLY
    &&& reply.htype == req.pkt.htype
    &&& reply.hlen == req.pkt.hlen
    &&& reply.hops == 0
    &&& reply.xid == req.pkt.xid
    &&& reply.secs == 0
    &&& reply.flags == req.pkt.flags
    &&& reply.ciaddr == ciaddr
    &&& reply.yiaddr == ip
    &&& reply.siaddr == 0
    &&& reply.giaddr == req.pkt.giaddr
    &&& reply.chaddr@ == req.pkt.chaddr@
    &&& reply.sname@ == Seq::new(64, |i: int| 0u8)
    &&& reply.file@ == Seq::new(128, |i: int| 0u8)
}

/// The options of an OFFER: the response options with this server's id.
pub open spec fn offer_options(req: DhcpRequest, opts: Seq<Option<Seq<u8>>>) -> Seq<
    Option<Seq<u8>>,
> {
    opts.update(OPTION_SERVERID as int, Some(enc32(req.serverip)))
}

/// The options of an ACK: the response options with the ACK type, this
/// server's id, the client id if the client sent one, and the lease time.
pub open spec fn ack_options(req: DhcpRequest, opts: Seq<Option<Seq<u8>>>) -> Seq<
    Option<Seq<u8>>,
> {
    maybe_set(
        opts.update(OPTION_MSGTYPE as int, Some(seq![DHCPACK])).update(
            OPTION_SERVERID as int,
            Some(enc32(req.serverip)),
        ),
        OPTION_CLIENTID,
        req.pkt.options@[OPTION_CLIENTID as int],
    ).update(OPTION_LEASETIME as int, Some(enc32(lease_secs(None, None) as u32)))
}

/// Evaluates the policies for the request and allocates an address.
fn allocate_for(pools: &mut Pool, req: &DhcpRequest, conf: &Config, now: u64) -> (r: Result<
    (u32, DhcpOptions, u64),
    DhcpError,
>)
    requires
        req.wf(),
        old(pools).wf(),
    ensures
        final(pools).wf(),
        match allocation(*old(pools), *req, *conf, now) {
            Ok((ip, opts)) => r matches Ok((rip, ropts, secs)) && rip == ip && ropts@ == opts
                && ropts.wf() && secs == lease_secs(None, None) && pool_took(
                *old(pools),
                *final(pools),
                *req,
                ip,
                now,
            ),
            Err(e) => r == Err::<(u32, DhcpOptions, u64), DhcpError>(e) && pool_same(
                *old(pools),
                *final(pools),
            ),
        },
        r matches Ok((ip, _, _)) ==> policy_outcome(*req, *conf).1.1 matches Some(a) && a.contains(
            ip,
        ),
{
    let mut options = DhcpOptions::new();
    let msgtype: [u8; 1] = [DHCPOFFER];
    options.set_option(OPTION_MSGTYPE, msgtype.as_slice());
    let sid = ipv4_bytes(req.serverip);
    options.set_option(OPTION_SERVERID, sid.as_slice());
    if let Some(cid) = req.pkt.options.get_clientid() {
        options.set_option(OPTION_CLIENTID, cid.as_slice());
    }
    assert(msgtype@ =~= seq![DHCPOFFER]);
    assert(options@ == seed_options(*req));
    let mut response = Response { options, address: None, minlease: None, maxlease: None };
    if !apply_policies(req, &conf.policies, &mut response) {
        return Err(DhcpError::NoPolicyConfigured);
    }
    let addresses = match &response.address {
        Some(a) => a,
        None => {
            return Err(DhcpError::NoLeasesAvailable);
        },
    };
    let cid = req.pkt.get_client_id();
    let duration = lease_duration(response.minlease, response.maxlease);
    proof {
        lemma_chosen_is_candidate(
            pools.leases_view(),
            pools.history_view(),
            client_id_of(req.pkt),
            ipv4_option(req.pkt.options@[OPTION_ADDRESSREQUEST as int]),
            addresses@,
            now,
        );
    }
    match pools.allocate_address(
        cid.as_slice(),
        req.pkt.options.get_address_request(),
        addresses,
        now,
        duration,
    ) {
        Ok(lease) => Ok((lease.ip, response.options, lease.expire)),
        Err(PoolError::NoAssignableAddress) => Err(DhcpError::NoLeasesAvailable),
    }
}

/// `r` and the pool `post` are the outcome of offering to `req` from the pool `pre`.
pub open spec fn offered(
    pre: Pool,
    post: Pool,
    req: DhcpRequest,
    conf: Config,
    now: u64,
    r: Result<DhcpPacket, DhcpError>,
) -> bool {
    match allocation(pre, req, conf, now) {
        Ok((ip, opts)) => r matches Ok(reply) && reply_header(req, reply, ip, 0)
            && reply.options@ == offer_options(req, opts) && pool_took(pre, post, req, ip, now),
        Err(e) => r == Err::<DhcpPacket, DhcpError>(e) && pool_same(pre, post),
    }
}

/// `r` and the pool `post` are the outcome of acknowledging `req` from `pre`.
pub open spec fn acked(
    pre: Pool,
    post: Pool,
    req: DhcpRequest,
    conf: Config,
    now: u64,
    r: Result<DhcpPacket, DhcpError>,
) -> bool {
    match allocation(pre, req, conf, now) {
        Ok((ip, opts)) => r matches Ok(reply) && reply_header(req, reply, ip, req.pkt.ciaddr)
            && reply.options@ == ack_options(req, opts) && pool_took(pre, post, req, ip, now),
        Err(e) => r == Err::<DhcpPacket, DhcpError>(e) && pool_same(pre, post),
    }
}

/// The REQUEST names a server id that is not one of ours.
pub open spec fn for_other_server(req: DhcpRequest, serverids: Set<u32>) -> bool {
    ipv4_option(req.pkt.options@[OPTION_SERVERID as int]) matches Some(si) && !serverids.contains(
        si,
    )
}

/// `r` and the pool `post` are the outcome of handling `req` from `pre`: by its
/// message type, a DISCOVER is offered, a REQUEST for this server is
/// acknowledged, one for another server is dropped, and other types are
/// refused.
pub open spec fn dispatched(
    pre: Pool,
    post: Pool,
    req: DhcpRequest,
    serverids: Set<u32>,
    conf: Config,
    now: u64,
    r: Result<DhcpPacket, DhcpError>,
) -> bool {
    match u8_option(req.pkt.options@[OPTION_MSGTYPE as int]) {
        None => r == Err::<DhcpPacket, DhcpError>(DhcpError::ParseError(ParseError::InvalidPacket))
            && pool_same(pre, post),
        Some(t) => if t == DHCPDISCOVER {
            offered(pre, post, req, conf, now, r)
        } else if t == DHCPREQUEST {
            if for_other_server(req, serverids) {
                r == Err::<DhcpPacket, DhcpError>(DhcpError::OtherServer) && pool_same(pre, post)
            } else {
                acked(pre, post, req, conf, now, r)
            }
        } else {
            r == Err::<DhcpPacket, DhcpError>(DhcpError::UnknownMessageType(t)) && pool_same(pre, post)
        },
    }
}

/// A reply to `req` that gives `ip`, with the given client address and options.
fn build_reply(req: &DhcpRequest, ip: u32, ciaddr: u32, options: DhcpOptions) -> (r: DhcpPacket)
    requires
        req.wf(),
        options.wf(),
    ensures
        reply_header(*req, r, ip, ciaddr),
        r.options@ == options@,
{
    assert(req.pkt.chaddr@.subrange(0, 16) =~= req.pkt.chaddr@);
    DhcpPacket {
        op: OP_BOOTREPLY,
        htype: req.pkt.htype,
        hlen: req.pkt.hlen,
        hops: 0,
        xid: req.pkt.xid,
        secs: 0,
        flags: req.pkt.flags,
        ciaddr,
        yiaddr: ip,
        siaddr: 0,
        giaddr: req.pkt.giaddr,
        chaddr: crate::packet::copy_bytes(req.pkt.chaddr.as_slice(), 0, 16),
        sname: crate::packet::zeros(64),
        file: crate::packet::zeros(128),
        options,
    }
}

/// Answers a DISCOVER with an OFFER of an address from the applying policies.
pub fn handle_discover(pools: &mut Pool, req: &DhcpRequest, conf: &Config, now: u64) -> (r: Result<
    DhcpPacket,
    DhcpError,
>)
    requires
        req.wf(),
        old(pools).wf(),
    ensures
        final(pools).wf(),
        offered(*old(pools), *final(pools), *req, *conf, now, r),
        r matches Ok(reply) ==> policy_outcome(*req, *conf).1.1 matches Some(a) && a.contains(
            reply.yiaddr,
        ),
{
    match allocate_for(pools, req, conf, now) {
        Ok((ip, mut options, _)) => {
            let sid = ipv4_bytes(req.serverip);
            options.set_option(OPTION_SERVERID, sid.as_slice());
            Ok(build_reply(req, ip, 0, options))
        },
        Err(e) => Err(e),
    }
}

/// Answers a REQUEST for this server with an ACK of an address from the
/// applying policies; one that names another server is dropped.
pub fn handle_request(
    pools: &mut Pool,
    req: &DhcpRequest,
    serverids: &std::collections::HashSet<u32>,
    conf: &Config,
    now: u64,
) -> (r: Result<DhcpPacket, DhcpError>)
    requires
        req.wf(),
        old(pools).wf(),
    ensures
        final(pools).wf(),
        for_other_server(*req, serverids@) ==> r == Err::<DhcpPacket, DhcpError>(
            DhcpError::OtherServer,
        ) && pool_same(*old(pools), *final(pools)),
        !for_other_server(*req, serverids@) ==> acked(*old(pools), *final(pools), *req, *conf, now, r),
        r matches Ok(reply) ==> policy_outcome(*req, *conf).1.1 matches Some(a) && a.contains(
            reply.yiaddr,
        ),
{
    let requested_server = req.pkt.options.get_serverid();
    if let Some(si) = requested_server {
        if !serverids.contains(&si) {
            return Err(DhcpError::OtherServer);
        }
    }
    match allocate_for(pools, req, conf, now) {
        Ok((ip, mut options, lease_time)) => {
            let msgtype: [u8; 1] = [DHCPACK];
            assert(msgtype@ =~= seq![DHCPACK]);
            options.set_option(OPTION_MSGTYPE, msgtype.as_slice());
            let sid = ipv4_bytes(req.serverip);
            options.set_option(OPTION_SERVERID, sid.as_slice());
            if let Some(cid) = req.pkt.options.get_clientid() {
                options.set_option(OPTION_CLIENTID, cid.as_slice());
            }
            let secs = ipv4_bytes(lease_time as u32);
            options.set_option(OPTION_LEASETIME, secs.as_slice());
            Ok(build_reply(req, ip, req.pkt.ciaddr, options))
        },
        Err(e) => Err(e),
    }
}

/// Handles a request by its message type; see `dispatched`.
pub fn dispatch(
    pools: &mut Pool,
    req: &DhcpRequest,
    serverids: &std::collections::HashSet<u32>,
    conf: &Config,
    now: u64,
) -> (r: Result<DhcpPacket, DhcpError>)
    requires
        req.wf(),
        old(pools).wf(),
    ensures
        final(pools).wf(),
        dispatched(*old(pools), *final(pools), *req, serverids@, *conf, now, r),
        r matches Ok(reply) ==> policy_outcome(*req, *conf).1.1 matches Some(a) && a.contains(
            reply.yiaddr,
        ),
{
    match req.pkt.options.get_messagetype() {
        Some(t) => if t == DHCPDISCOVER {
            handle_discover(pools, req, conf, now)
        } else if t == DHCPREQUEST {
            handle_request(pools, req, serverids, conf, now)
        } else {
            Err(DhcpError::UnknownMessageType(t))
        },
        None => Err(DhcpError::ParseError(ParseError::InvalidPacket)),
    }
}

/// Decodes a packet received on interface `intf` with address `dst` and
/// handles it at time `now`.
pub fn handle_pkt(
    pools: &mut Pool,
    buf: &[u8],
    dst: u32,
    serverids: &std::collections::HashSet<u32>,
    intf: u32,
    conf: &Config,
    now: u64,
) -> (r: Result<DhcpPacket, DhcpError>)
    requires
        old(pools).wf(),
    ensures
        final(pools).wf(),
        parse_result(buf@) matches Err(e) ==> r == Err::<DhcpPacket, DhcpError>(
            DhcpError::ParseError(e),
        ) && pool_same(*old(pools), *final(pools)),
        parse_result(buf@) is Ok ==> exists|req: DhcpRequest|
            crate::packet::decodes_to(buf@, req.pkt) && req.serverip == dst && req.ifindex == intf
                && dispatched(*old(pools), *final(pools), req, serverids@, *conf, now, r) && (
            r matches Ok(reply) ==> policy_outcome(req, *conf).1.1 matches Some(a) && a.contains(
                reply.yiaddr,
            )),
{
    match parse(buf) {
        Ok(pkt) => {
            proof {
                crate::packet::lemma_parse_serialise(buf@, pkt);
            }
            let request = DhcpRequest { pkt, serverip: dst, ifindex: intf };
            dispatch(pools, &request, serverids, conf, now)
        },
        Err(e) => Err(DhcpError::ParseError(e)),
    }
}

/// The first six bytes of a hardware address, as an Ethernet address.
pub fn to_array(mac: &[u8]) -> (r: Option<[u8; 6]>)
    ensures
        mac@.len() >= 6 <==> r is Some,
        r matches Some(a) ==> a@ == mac@.subrange(0, 6),
{
    if mac.len() < 6 {
        return None;
    }
    let a: [u8; 6] = [mac[0], mac[1], mac[2], mac[3], mac[4], mac[5]];
    assert(a@ =~= mac@.subrange(0, 6));
    Some(a)
}

} // verus!
