use vstd::prelude::*;

use crate::packet::{
    bytes_contain, bytes_eq, copy_bytes, zeros, DhcpOptions, DhcpPacket, HWTYPE_ETHERNET,
    OPTION_PARAMLIST, OP_BOOTREQUEST,
};

verus! {

/// An IPv4 subnet: a base address and a prefix length of at most 32 bits.
#[derive(Debug, Clone, Copy, PartialEq, Eq, Structural)]
pub struct Ipv4Subnet {
    pub addr: u32,
    pub prefixlen: u8,
}

pub open spec fn netmask(prefixlen: u8) -> u32 {
    if prefixlen == 0 {
        0
    } else {
        0xffff_ffffu32 << ((32 - prefixlen) as u32)
    }
}

/// `ip` lies in `s`; a subnet with a prefix over 32 bits holds nothing.
pub open spec fn subnet_contains(s: Ipv4Subnet, ip: u32) -> bool {
    s.prefixlen <= 32 && (ip & netmask(s.prefixlen)) == (s.addr & netmask(s.prefixlen))
}

impl Ipv4Subnet {
    /// A subnet, or `None` when the prefix is longer than 32 bits.
    pub fn new(addr: u32, prefixlen: u8) -> (r: Option<Ipv4Subnet>)
        ensures
            prefixlen <= 32 <==> r is Some,
            r matches Some(s) ==> s.addr == addr && s.prefixlen == prefixlen,
    {
        if prefixlen <= 32 {
            Some(Ipv4Subnet { addr, prefixlen })
        } else {
            None
        }
    }

    /// Whether `ip` lies in the subnet.
    pub fn contains(&self, ip: u32) -> (r: bool)
        ensures
            r == subnet_contains(*self, ip),
    {
        if self.prefixlen > 32 {
            return false;
        }
        let mask: u32 = if self.prefixlen == 0 {
            0
        } else {
            0xffff_ffffu32 << ((32 - self.prefixlen) as u32)
        };
        (ip & mask) == (self.addr & mask)
    }
}

/// One node of the policy tree: what it matches, what it applies, and its
/// children.
pub struct Policy {
    /// Exact hardware address.
    pub match_chaddr: Option<Vec<u8>>,
    /// Subnet that must hold the address the request arrived on.
    pub match_subnet: Option<Ipv4Subnet>,
    /// Options that must be present with exactly these values.
    pub match_other: Vec<(u8, Vec<u8>)>,
    /// Candidate addresses for the client.
    pub apply_address: Option<Vec<u32>>,
    /// Encoded option values for the reply.
    pub apply_other: Vec<(u8, Vec<u8>)>,
    /// Child policies.
    pub policies: Vec<Policy>,
}

impl Policy {
    /// A policy that matches nothing itself, applies nothing and has no children.
    pub fn new() -> (r: Policy)
        ensures
            r.match_chaddr is None,
            r.match_subnet is None,
            r.match_other@.len() == 0,
            r.apply_address is None,
            r.apply_other@.len() == 0,
            r.policies@.len() == 0,
    {
        Policy {
            match_chaddr: None,
            match_subnet: None,
            match_other: Vec::new(),
            apply_address: None,
            apply_other: Vec::new(),
            policies: Vec::new(),
        }
    }
}

/// The DHCP part of the configuration: the top-level policies.
pub struct Config {
    pub policies: Vec<Policy>,
}

/// A received request and the interface it arrived on.
pub struct DhcpRequest {
    /// The request packet.
    pub pkt: DhcpPacket,
    /// The address of the interface the request was received on.
    pub serverip: u32,
    /// The index of the interface the request was received on.
    pub ifindex: u32,
}

impl DhcpRequest {
    pub open spec fn wf(&self) -> bool {
        self.pkt.wf()
    }
}

impl Default for DhcpRequest {
    /// An Ethernet BOOTREQUEST from `00:00:5e:00:53:00` with no options,
    /// received on `0.0.0.0`.
    fn default() -> (r: DhcpRequest)
        ensures
            r.wf(),
            r.pkt.op == OP_BOOTREQUEST,
            r.pkt.htype == HWTYPE_ETHERNET,
            r.pkt.hlen == 6,
            r.pkt.hops == 0,
            r.pkt.xid == 0,
            r.pkt.secs == 0,
            r.pkt.flags == 0,
            r.pkt.ciaddr == 0,
            r.pkt.yiaddr == 0,
            r.pkt.siaddr == 0,
            r.pkt.giaddr == 0,
            r.pkt.sname@ == Seq::new(64, |i: int| 0u8),
            r.pkt.file@ == Seq::new(128, |i: int| 0u8),
            r.pkt.chaddr@ == seq![0x00u8, 0x00, 0x5e, 0x00, 0x53, 0x00] + Seq::new(
                10,
                |i: int| 0u8,
            ),
            r.pkt.options@ == crate::packet::empty_table(),
            r.serverip == 0,
            r.ifindex == 0,
    {
        let mut chaddr: Vec<u8> = Vec::new();
        chaddr.push(0x00);
        chaddr.push(0x00);
        chaddr.push(0x5e);
        chaddr.push(0x00);
        chaddr.push(0x53);
        chaddr.push(0x00);
        let mut i: usize = 0;
        while i < 10
            invariant
                i <= 10,
                chaddr@ == seq![0x00u8, 0x00, 0x5e, 0x00, 0x53, 0x00] + Seq::new(
                    i as nat,
                    |j: int| 0u8,
                ),
            decreases 10 - i,
        {
            chaddr.push(0);
            i = i + 1;
            assert(chaddr@ =~= seq![0x00u8, 0x00, 0x5e, 0x00, 0x53, 0x00] + Seq::new(
                i as nat,
                |j: int| 0u8,
            ));
        }
        DhcpRequest {
            pkt: DhcpPacket {
                op: OP_BOOTREQUEST,
                htype: HWTYPE_ETHERNET,
                hlen: 6,
                hops: 0,
                xid: 0,
                secs: 0,
                flags: 0,
                ciaddr: 0,
                yiaddr: 0,
                siaddr: 0,
                giaddr: 0,
                chaddr,
                sname: zeros(64),
                file: zeros(128),
                options: DhcpOptions::new(),
            },
            serverip: 0,
            ifindex: 0,
        }
    }
}

/// The outcome of matching one policy against a request.
#[derive(Debug, Clone, Copy, PartialEq, Eq, Structural)]
pub enum PolicyMatch {
    NoMatch,
    MatchFailed,
    MatchSucceeded,
}

/// The significant bytes of the request's hardware address.
pub open spec fn significant_chaddr(pkt: DhcpPacket) -> Seq<u8> {
    pkt.chaddr@.subrange(0, if pkt.hlen <= 16 { pkt.hlen as int } else { 16 })
}

/// Option `code` of the request is present and equals `expected`.
pub open spec fn option_matches(req: DhcpRequest, code: u8, expected: Seq<u8>) -> bool {
    req.pkt.options@[code as int] == Some(expected)
}

pub open spec fn policy_match(req: DhcpRequest, p: Policy) -> PolicyMatch {
    if p.match_chaddr matches Some(c) && significant_chaddr(req.pkt) != c@ {
        PolicyMatch::MatchFailed
    } else if p.match_subnet matches Some(s) && !subnet_contains(s, req.serverip) {
        PolicyMatch::MatchFailed
    } else if exists|i: int|
        0 <= i < p.match_other@.len() && !option_matches(
            req,
            (#[trigger] p.match_other@[i]).0,
            p.match_other@[i].1@,
        ) {
        PolicyMatch::MatchFailed
    } else if p.match_chaddr is Some || p.match_subnet is Some || p.match_other@.len() > 0 {
        PolicyMatch::MatchSucceeded
    } else {
        PolicyMatch::NoMatch
    }
}

/// Some policy of the list claims the request: the first one that does not
/// fail either matches, or matches nothing itself and has a claiming descendant.
pub open spec fn policies_claim(req: DhcpRequest, ps: Seq<Policy>) -> bool
    decreases ps,
{
    if ps.len() == 0 {
        false
    } else {
        match policy_match(req, ps[0]) {
            PolicyMatch::MatchSucceeded => true,
            PolicyMatch::MatchFailed => policies_claim(req, ps.drop_first()),
            PolicyMatch::NoMatch => policies_claim(req, ps[0].policies@) || policies_claim(
                req,
                ps.drop_first(),
            ),
        }
    }
}

/// The option codes the client asked for.
pub open spec fn param_list(req: DhcpRequest) -> Seq<u8> {
    match req.pkt.options@[OPTION_PARAMLIST as int] {
        Some(v) => v,
        None => Seq::empty(),
    }
}

/// Sets in `t`, in order, each option of `ao` whose code the client asked for.
pub open spec fn apply_options(t: Seq<Option<Seq<u8>>>, ao: Seq<(u8, Vec<u8>)>, pl: Seq<u8>) -> Seq<
    Option<Seq<u8>>,
>
    decreases ao.len(),
{
    if ao.len() == 0 {
        t
    } else {
        let t2 = apply_options(t, ao.drop_last(), pl);
        let k = ao.last().0;
        if pl.contains(k) && k != 0 && k != 255 {
            t2.update(k as int, Some(ao.last().1@))
        } else {
            t2
        }
    }
}

/// The response as the policies see it: the option table and the candidate set.
pub type ResponseModel = (Seq<Option<Seq<u8>>>, Option<Seq<u32>>);

/// Applies the first policy of the list that claims the request: its
/// addresses replace the candidate set, its requested options are set, and
/// then its children are applied in turn. Returns whether one applied.
pub open spec fn policies_apply(req: DhcpRequest, ps: Seq<Policy>, r: ResponseModel) -> (
    bool,
    ResponseModel,
)
    decreases ps,
{
    if ps.len() == 0 {
        (false, r)
    } else {
        let p = ps[0];
        let m = policy_match(req, p);
        if m == PolicyMatch::MatchFailed || (m == PolicyMatch::NoMatch && !policies_claim(
            req,
            p.policies@,
        )) {
            policies_apply(req, ps.drop_first(), r)
        } else {
            let addr = match p.apply_address {
                Some(a) => Some(a@),
                None => r.1,
            };
            let opts = apply_options(r.0, p.apply_other@, param_list(req));
            (true, policies_apply(req, p.policies@, (opts, addr)).1)
        }
    }
}

/// The scratch response filled in by the policies.
pub struct Response {
    pub options: DhcpOptions,
    pub address: Option<Vec<u32>>,
    pub minlease: Option<u64>,
    pub maxlease: Option<u64>,
}

impl View for Response {
    type V = ResponseModel;

    open spec fn view(&self) -> ResponseModel {
        (
            self.options@,
            match self.address {
                Some(a) => Some(a@),
                None => None,
            },
        )
    }
}

impl Response {
    pub open spec fn wf(&self) -> bool {
        self.options.wf()
    }
}

fn copy_addresses(a: &Vec<u32>) -> (r: Vec<u32>)
    ensures
        r@ == a@,
{
    let mut r: Vec<u32> = Vec::new();
    let mut i: usize = 0;
    while i < a.len()
        invariant
            i <= a@.len(),
            r@ == a@.subrange(0, i as int),
        decreases a@.len() - i,
    {
        r.push(a[i]);
        i = i + 1;
        assert(r@ =~= a@.subrange(0, i as int));
    }
    assert(a@.subrange(0, a@.len() as int) =~= a@);
    r
}

/// Matches one policy against the request.
pub fn check_policy(req: &DhcpRequest, policy: &Policy) -> (r: PolicyMatch)
    requires
        req.wf(),
    ensures
        r == policy_match(*req, *policy),
{
    let mut outcome = PolicyMatch::NoMatch;
    if let Some(match_chaddr) = &policy.match_chaddr {
        outcome = PolicyMatch::MatchSucceeded;
        let n: usize = if req.pkt.hlen as usize <= 16 {
            req.pkt.hlen as usize
        } else {
            16
        };
        let significant = copy_bytes(req.pkt.chaddr.as_slice(), 0, n);
        if !bytes_eq(significant.as_slice(), match_chaddr.as_slice()) {
            return PolicyMatch::MatchFailed;
        }
    }
    if let Some(match_subnet) = &policy.match_subnet {
        outcome = PolicyMatch::MatchSucceeded;
        if !match_subnet.contains(req.serverip) {
            return PolicyMatch::MatchFailed;
        }
    }
    let mut i: usize = 0;
    while i < policy.match_other.len()
        invariant
            req.wf(),
            i <= policy.match_other@.len(),
            forall|j: int|
                0 <= j < i ==> option_matches(
                    *req,
                    (#[trigger] policy.match_other@[j]).0,
                    policy.match_other@[j].1@,
                ),
            i > 0 ==> outcome == PolicyMatch::MatchSucceeded,
            outcome == PolicyMatch::MatchSucceeded ==> (policy.match_chaddr is Some
                || policy.match_subnet is Some || i > 0),
            outcome == PolicyMatch::NoMatch ==> (policy.match_chaddr is None
                && policy.match_subnet is None),
            policy.match_chaddr matches Some(c) ==> significant_chaddr(req.pkt) == c@,
            policy.match_subnet matches Some(s) ==> subnet_contains(s, req.serverip),
            outcome != PolicyMatch::MatchFailed,
        decreases policy.match_other@.len() - i,
    {
        let (code, expected) = &policy.match_other[i];
        match &req.pkt.options.other[*code as usize] {
            Some(v) => {
                outcome = PolicyMatch::MatchSucceeded;
                if !bytes_eq(expected.as_slice(), v.as_slice()) {
                    assert(!option_matches(
                        *req,
                        policy.match_other@[i as int].0,
                        policy.match_other@[i as int].1@,
                    ));
                    return PolicyMatch::MatchFailed;
                }
            },
            None => {
                assert(!option_matches(
                    *req,
                    policy.match_other@[i as int].0,
                    policy.match_other@[i as int].1@,
                ));
                return PolicyMatch::MatchFailed;
            },
        }
        i = i + 1;
    }
    outcome
}

/// Whether some policy of the list claims the request.
pub fn check_policies(req: &DhcpRequest, policies: &Vec<Policy>) -> (r: bool)
    requires
        req.wf(),
    ensures
        r == policies_claim(*req, policies@),
    decreases policies,
{
    let n = policies.len();
    let mut i: usize = 0;
    assert(policies@.subrange(0, n as int) =~= policies@);
    while i < n
        invariant
            req.wf(),
            i <= n == policies@.len(),
            policies_claim(*req, policies@) == policies_claim(
                *req,
                policies@.subrange(i as int, n as int),
            ),
        decreases n - i,
    {
        let ghost rest = policies@.subrange(i as int, n as int);
        assert(rest[0] == policies@[i as int]);
        assert(rest.drop_first() =~= policies@.subrange(i + 1, n as int));
        let policy = &policies[i];
        match check_policy(req, policy) {
            PolicyMatch::MatchSucceeded => {
                return true;
            },
            PolicyMatch::MatchFailed => {},
            PolicyMatch::NoMatch => {
                if check_policies(req, &policy.policies) {
                    return true;
                }
            },
        }
        i = i + 1;
    }
    assert(policies@.subrange(i as int, n as int).len() == 0);
    false
}

/// Applies one policy, if it claims the request; see `policies_apply`.
pub fn apply_policy(req: &DhcpRequest, policy: &Policy, response: &mut Response) -> (r: bool)
    requires
        req.wf(),
        old(response).wf(),
    ensures
        final(response).wf(),
        (r, final(response)@) == policies_apply(*req, seq![*policy], old(response)@),
        final(response).minlease == old(response).minlease,
        final(response).maxlease == old(response).maxlease,
    decreases policy,
{
    let ghost one = seq![*policy];
    assert(one[0] == *policy);
    assert(one.drop_first() =~= Seq::<Policy>::empty());
    assert(policies_apply(*req, one.drop_first(), old(response)@) == (false, old(response)@));
    let policymatch = check_policy(req, policy);
    if policymatch == PolicyMatch::MatchFailed {
        return false;
    }
    if policymatch == PolicyMatch::NoMatch && !check_policies(req, &policy.policies) {
        return false;
    }
    if let Some(address) = &policy.apply_address {
        response.address = Some(copy_addresses(address));
    }
    let ghost base = response@;
    let pl: Vec<u8> = match response_paramlist(req) {
        Some(v) => v,
        None => Vec::new(),
    };
    let mut j: usize = 0;
    while j < policy.apply_other.len()
        invariant
            response.wf(),
            j <= policy.apply_other@.len(),
            pl@ == param_list(*req),
            response@.1 == base.1,
            response.minlease == old(response).minlease,
            response.maxlease == old(response).maxlease,
            response@.0 == apply_options(
                base.0,
                policy.apply_other@.subrange(0, j as int),
                pl@,
            ),
        decreases policy.apply_other@.len() - j,
    {
        let (k, v) = &policy.apply_other[j];
        let ghost pre = policy.apply_other@.subrange(0, j + 1);
        assert(pre.drop_last() =~= policy.apply_other@.subrange(0, j as int));
        if bytes_contain(pl.as_slice(), *k) {
            response.options.set_option(*k, v.as_slice());
        }
        j = j + 1;
    }
    assert(policy.apply_other@.subrange(0, j as int) =~= policy.apply_other@);
    apply_policies(req, &policy.policies, response);
    true
}

/// Applies the first policy of the list that claims the request, and reports
/// whether one did.
pub fn apply_policies(req: &DhcpRequest, policies: &Vec<Policy>, response: &mut Response) -> (r:
    bool)
    requires
        req.wf(),
        old(response).wf(),
    ensures
        final(response).wf(),
        (r, final(response)@) == policies_apply(*req, policies@, old(response)@),
        final(response).minlease == old(response).minlease,
        final(response).maxlease == old(response).maxlease,
    decreases policies,
{
    let n = policies.len();
    let mut i: usize = 0;
    assert(policies@.subrange(0, n as int) =~= policies@);
    while i < n
        invariant
            req.wf(),
            response.wf(),
            i <= n == policies@.len(),
            response@ == old(response)@,
            response.minlease == old(response).minlease,
            response.maxlease == old(response).maxlease,
            policies_apply(*req, policies@, old(response)@) == policies_apply(
                *req,
                policies@.subrange(i as int, n as int),
                old(response)@,
            ),
        decreases n - i,
    {
        let ghost rest = policies@.subrange(i as int, n as int);
        assert(rest[0] == policies@[i as int]);
        assert(rest.drop_first() =~= policies@.subrange(i + 1, n as int));
        let ghost pre = response@;
        let applied = apply_policy(req, &policies[i], response);
        proof {
            let one = seq![policies@[i as int]];
            assert(one[0] == rest[0]);
            assert(one.drop_first() =~= Seq::<Policy>::empty());
            assert(policies_apply(*req, one.drop_first(), pre) == (false, pre));
        }
        if applied {
            return true;
        }
        i = i + 1;
    }
    false
}

fn response_paramlist(req: &DhcpRequest) -> (r: Option<Vec<u8>>)
    requires
        req.wf(),
    ensures
        match r {
            Some(v) => v@ == param_list(*req),
            None => param_list(*req).len() == 0,
        },
{
    req.pkt.options.get_parameterlist()
}

/// Applying a list of policies succeeds exactly when checking it does,
/// whatever the response held before.
pub proof fn lemma_apply_iff_check(req: DhcpRequest, ps: Seq<Policy>, r: ResponseModel)
    ensures
        policies_apply(req, ps, r).0 == policies_claim(req, ps),
    decreases ps,
{
    if ps.len() > 0 {
        let m = policy_match(req, ps[0]);
        if m == PolicyMatch::MatchFailed || (m == PolicyMatch::NoMatch && !policies_claim(
            req,
            ps[0].policies@,
        )) {
            lemma_apply_iff_check(req, ps.drop_first(), r);
        }
    }
}

} // verus!
