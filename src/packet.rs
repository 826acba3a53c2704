use vstd::prelude::*;

verus! {

pub const OP_BOOTREQUEST: u8 = 1;
pub const OP_BOOTREPLY: u8 = 2;
pub const HWTYPE_ETHERNET: u8 = 1;

pub const OPTION_SUBNETMASK: u8 = 1;
pub const OPTION_ROUTER: u8 = 3;
pub const OPTION_DOMAINSERVER: u8 = 6;
pub const OPTION_DOMAINNAME: u8 = 15;
pub const OPTION_ADDRESSREQUEST: u8 = 50;
pub const OPTION_LEASETIME: u8 = 51;
pub const OPTION_MSGTYPE: u8 = 53;
pub const OPTION_SERVERID: u8 = 54;
pub const OPTION_PARAMLIST: u8 = 55;
pub const OPTION_CLIENTID: u8 = 61;

pub const DHCPDISCOVER: u8 = 1;
pub const DHCPOFFER: u8 = 2;
pub const DHCPREQUEST: u8 = 3;
pub const DHCPDECLINE: u8 = 4;
pub const DHCPACK: u8 = 5;
pub const DHCPNAK: u8 = 6;
pub const DHCPRELEASE: u8 = 7;
pub const DHCPINFORM: u8 = 8;

/// Offset of the first option byte (fixed header plus magic cookie).
pub const OPTIONS_START: usize = 240;

#[derive(Debug, Clone, Copy, PartialEq, Eq, Structural)]
pub enum ParseError {
    /// The magic cookie is missing or wrong, or a required option is missing.
    InvalidPacket,
    /// The input ends before the fixed header or an option does.
    ShortPacket,
    /// Reserved for cookie variants; `parse` reports a wrong cookie as `InvalidPacket`.
    UnknownMagic,
}

/// Big-endian 16-bit value of two bytes.
pub open spec fn be16(a: u8, b: u8) -> u16 {
    ((a as u16) << 8u16) | (b as u16)
}

/// Big-endian 32-bit value of four bytes.
pub open spec fn be32(a: u8, b: u8, c: u8, d: u8) -> u32 {
    ((a as u32) << 24u32) | ((b as u32) << 16u32) | ((c as u32) << 8u32) | (d as u32)
}

pub open spec fn enc16(x: u16) -> Seq<u8> {
    seq![(x >> 8u16) as u8, x as u8]
}

pub open spec fn enc32(x: u32) -> Seq<u8> {
    seq![(x >> 24u32) as u8, (x >> 16u32) as u8, (x >> 8u32) as u8, x as u8]
}

pub open spec fn magic() -> Seq<u8> {
    seq![99u8, 130u8, 83u8, 99u8]
}

proof fn lemma_be16_roundtrip(x: u16)
    ensures
        be16((x >> 8u16) as u8, x as u8) == x,
{
    assert(((((x >> 8u16) as u8) as u16) << 8u16) | ((x as u8) as u16) == x) by (bit_vector);
}

pub(crate) proof fn lemma_be32_roundtrip(x: u32)
    ensures
        be32((x >> 24u32) as u8, (x >> 16u32) as u8, (x >> 8u32) as u8, x as u8) == x,
{
    assert(((((x >> 24u32) as u8) as u32) << 24u32) | ((((x >> 16u32) as u8) as u32) << 16u32)
        | ((((x >> 8u32) as u8) as u32) << 8u32) | ((x as u8) as u32) == x) by (bit_vector);
}

/// The option section as a table indexed by option code: slot `c` holds the
/// value of option `c`, if present. Codes 0 (pad) and 255 (end) never hold one.
pub struct DhcpOptions {
    pub other: Vec<Option<Vec<u8>>>,
}

pub open spec fn opt_view(o: Option<Vec<u8>>) -> Option<Seq<u8>> {
    match o {
        Some(v) => Some(v@),
        None => None,
    }
}

pub open spec fn empty_table() -> Seq<Option<Seq<u8>>> {
    Seq::new(256, |i: int| None)
}

/// A table of option values is well formed when it has a slot per code and
/// the pad and end codes are empty.
pub open spec fn table_wf(t: Seq<Option<Seq<u8>>>) -> bool {
    &&& t.len() == 256
    &&& t[0] is None
    &&& t[255] is None
}

/// Every present value fits in a single option record.
pub open spec fn table_short(t: Seq<Option<Seq<u8>>>) -> bool {
    forall|i: int| 0 <= i < t.len() && (#[trigger] t[i]) is Some ==> t[i]->Some_0.len() <= 255
}

impl View for DhcpOptions {
    type V = Seq<Option<Seq<u8>>>;

    open spec fn view(&self) -> Seq<Option<Seq<u8>>> {
        self.other@.map_values(|o: Option<Vec<u8>>| opt_view(o))
    }
}

pub fn copy_bytes(src: &[u8], lo: usize, hi: usize) -> (r: Vec<u8>)
    requires
        lo <= hi <= src@.len(),
    ensures
        r@ == src@.subrange(lo as int, hi as int),
{
    let mut r: Vec<u8> = Vec::new();
    let mut i: usize = lo;
    while i < hi
        invariant
            lo <= i <= hi <= src@.len(),
            r@ == src@.subrange(lo as int, i as int),
        decreases hi - i,
    {
        r.push(src[i]);
        i = i + 1;
        assert(r@ =~= src@.subrange(lo as int, i as int));
    }
    r
}

pub fn push_bytes(out: &mut Vec<u8>, src: &[u8], lo: usize, hi: usize)
    requires
        lo <= hi <= src@.len(),
    ensures
        final(out)@ == old(out)@ + src@.subrange(lo as int, hi as int),
{
    let mut i: usize = lo;
    while i < hi
        invariant
            lo <= i <= hi <= src@.len(),
            out@ == old(out)@ + src@.subrange(lo as int, i as int),
        decreases hi - i,
    {
        out.push(src[i]);
        i = i + 1;
        assert(out@ =~= old(out)@ + src@.subrange(lo as int, i as int));
    }
}

pub fn bytes_eq(a: &[u8], b: &[u8]) -> (r: bool)
    ensures
        r == (a@ == b@),
{
    if a.len() != b.len() {
        return false;
    }
    let mut i: usize = 0;
    while i < a.len()
        invariant
            i <= a@.len() == b@.len(),
            forall|j: int| 0 <= j < i ==> a@[j] == b@[j],
        decreases a@.len() - i,
    {
        if a[i] != b[i] {
            return false;
        }
        i = i + 1;
    }
    assert(a@ =~= b@);
    true
}

pub fn bytes_contain(a: &[u8], x: u8) -> (r: bool)
    ensures
        r == a@.contains(x),
{
    let mut i: usize = 0;
    while i < a.len()
        invariant
            i <= a@.len(),
            forall|j: int| 0 <= j < i ==> a@[j] != x,
        decreases a@.len() - i,
    {
        if a[i] == x {
            return true;
        }
        i = i + 1;
    }
    false
}

/// `n` zero bytes.
pub fn zeros(n: usize) -> (r: Vec<u8>)
    ensures
        r@ == Seq::new(n as nat, |i: int| 0u8),
{
    let mut r: Vec<u8> = Vec::new();
    let mut i: usize = 0;
    while i < n
        invariant
            i <= n,
            r@ == Seq::new(i as nat, |j: int| 0u8),
        decreases n - i,
    {
        r.push(0);
        i = i + 1;
        assert(r@ =~= Seq::new(i as nat, |j: int| 0u8));
    }
    r
}

impl DhcpOptions {
    pub open spec fn wf(&self) -> bool {
        table_wf(self@)
    }

    /// A table with no option present.
    pub fn new() -> (r: DhcpOptions)
        ensures
            r@ == empty_table(),
            r.wf(),
    {
        let mut other: Vec<Option<Vec<u8>>> = Vec::new();
        let mut i: usize = 0;
        while i < 256
            invariant
                i <= 256,
                other@.len() == i,
                forall|j: int| 0 <= j < i ==> (#[trigger] other@[j]) is None,
            decreases 256 - i,
        {
            other.push(None);
            i = i + 1;
        }
        let r = DhcpOptions { other };
        assert(r@ =~= empty_table());
        r
    }

    /// The raw value of option `code`, if present.
    pub fn get_option(&self, code: u8) -> (r: Option<Vec<u8>>)
        requires
            self.wf(),
        ensures
            opt_view(r) == self@[code as int],
    {
        match &self.other[code as usize] {
            Some(v) => Some(copy_bytes(v.as_slice(), 0, v.len())),
            None => None,
        }
    }

    /// Sets option `code` to `value`, replacing any earlier value. The pad and
    /// end codes carry no value and leave the table unchanged.
    pub fn set_option(&mut self, code: u8, value: &[u8])
        requires
            old(self).wf(),
        ensures
            final(self).wf(),
            final(self)@ == (if code == 0 || code == 255 {
                old(self)@
            } else {
                old(self)@.update(code as int, Some(value@))
            }),
    {
        if code == 0 || code == 255 {
            return;
        }
        let v = copy_bytes(value, 0, value.len());
        assert(value@.subrange(0, value@.len() as int) =~= value@);
        self.other.set(code as usize, Some(v));
        assert(self@ =~= old(self)@.update(code as int, Some(value@)));
    }

    /// Removes option `code`.
    pub fn remove_option(&mut self, code: u8)
        requires
            old(self).wf(),
        ensures
            final(self).wf(),
            final(self)@ == old(self)@.update(code as int, None),
    {
        self.other.set(code as usize, None);
        assert(self@ =~= old(self)@.update(code as int, None));
    }

    /// Message type: a one-byte option 53.
    pub fn get_messagetype(&self) -> (r: Option<u8>)
        requires
            self.wf(),
        ensures
            r == u8_option(self@[OPTION_MSGTYPE as int]),
    {
        match &self.other[OPTION_MSGTYPE as usize] {
            Some(v) => if v.len() == 1 {
                Some(v[0])
            } else {
                None
            },
            None => None,
        }
    }

    /// Server identifier: a four-byte option 54.
    pub fn get_serverid(&self) -> (r: Option<u32>)
        requires
            self.wf(),
        ensures
            r == ipv4_option(self@[OPTION_SERVERID as int]),
    {
        self.get_ipv4(OPTION_SERVERID)
    }

    /// Requested address: a four-byte option 50.
    pub fn get_address_request(&self) -> (r: Option<u32>)
        requires
            self.wf(),
        ensures
            r == ipv4_option(self@[OPTION_ADDRESSREQUEST as int]),
    {
        self.get_ipv4(OPTION_ADDRESSREQUEST)
    }

    fn get_ipv4(&self, code: u8) -> (r: Option<u32>)
        requires
            self.wf(),
        ensures
            r == ipv4_option(self@[code as int]),
    {
        match &self.other[code as usize] {
            Some(v) => if v.len() == 4 {
                Some(
                    ((v[0] as u32) << 24u32) | ((v[1] as u32) << 16u32) | ((v[2] as u32) << 8u32)
                        | (v[3] as u32),
                )
            } else {
                None
            },
            None => None,
        }
    }

    /// Client identifier: the bytes of option 61.
    pub fn get_clientid(&self) -> (r: Option<Vec<u8>>)
        requires
            self.wf(),
        ensures
            opt_view(r) == self@[OPTION_CLIENTID as int],
    {
        self.get_option(OPTION_CLIENTID)
    }

    /// Parameter request list: the option codes of option 55.
    pub fn get_parameterlist(&self) -> (r: Option<Vec<u8>>)
        requires
            self.wf(),
        ensures
            opt_view(r) == self@[OPTION_PARAMLIST as int],
    {
        self.get_option(OPTION_PARAMLIST)
    }
}

pub open spec fn u8_option(o: Option<Seq<u8>>) -> Option<u8> {
    match o {
        Some(v) => if v.len() == 1 {
            Some(v[0])
        } else {
            None
        },
        None => None,
    }
}

pub open spec fn ipv4_option(o: Option<Seq<u8>>) -> Option<u32> {
    match o {
        Some(v) => if v.len() == 4 {
            Some(be32(v[0], v[1], v[2], v[3]))
        } else {
            None
        },
        None => None,
    }
}

/// One DHCP packet: the fixed header and the option table. Addresses are IPv4
/// addresses as big-endian 32-bit numbers (0 is the unspecified address).
pub struct DhcpPacket {
    pub op: u8,
    pub htype: u8,
    pub hlen: u8,
    pub hops: u8,
    pub xid: u32,
    pub secs: u16,
    pub flags: u16,
    pub ciaddr: u32,
    pub yiaddr: u32,
    pub siaddr: u32,
    pub giaddr: u32,
    pub chaddr: Vec<u8>,
    pub sname: Vec<u8>,
    pub file: Vec<u8>,
    pub options: DhcpOptions,
}

/// Walks the option records of `b` into the table `acc`: pad bytes are
/// skipped, the end code stops the walk, a later record of a code replaces an
/// earlier one, and a record cut short is an error.
pub open spec fn parse_opts(b: Seq<u8>, acc: Seq<Option<Seq<u8>>>) -> Result<
    Seq<Option<Seq<u8>>>,
    ParseError,
>
    decreases b.len(),
{
    if b.len() == 0 {
        Ok(acc)
    } else if b[0] == 0 {
        parse_opts(b.drop_first(), acc)
    } else if b[0] == 255 {
        Ok(acc)
    } else if b.len() < 2 || b.len() < 2 + b[1] {
        Err(ParseError::ShortPacket)
    } else {
        parse_opts(
            b.subrange(2 + b[1], b.len() as int),
            acc.update(b[0] as int, Some(b.subrange(2, 2 + b[1]))),
        )
    }
}

/// What `parse` makes of `b`.
pub open spec fn parse_result(b: Seq<u8>) -> Result<(), ParseError> {
    if b.len() < 236 {
        Err(ParseError::ShortPacket)
    } else if b.len() < OPTIONS_START || b.subrange(236, 240) != magic() {
        Err(ParseError::InvalidPacket)
    } else {
        match parse_opts(b.subrange(240, b.len() as int), empty_table()) {
            Ok(_) => Ok(()),
            Err(e) => Err(e),
        }
    }
}

/// `p` is the packet that the bytes `b` hold.
pub open spec fn decodes_to(b: Seq<u8>, p: DhcpPacket) -> bool {
    &&& b.len() >= OPTIONS_START
    &&& p.op == b[0] && p.htype == b[1] && p.hlen == b[2] && p.hops == b[3]
    &&& p.xid == be32(b[4], b[5], b[6], b[7])
    &&& p.secs == be16(b[8], b[9])
    &&& p.flags == be16(b[10], b[11])
    &&& p.ciaddr == be32(b[12], b[13], b[14], b[15])
    &&& p.yiaddr == be32(b[16], b[17], b[18], b[19])
    &&& p.siaddr == be32(b[20], b[21], b[22], b[23])
    &&& p.giaddr == be32(b[24], b[25], b[26], b[27])
    &&& p.chaddr@ == b.subrange(28, 44)
    &&& p.sname@ == b.subrange(44, 108)
    &&& p.file@ == b.subrange(108, 236)
    &&& b.subrange(236, 240) == magic()
    &&& parse_opts(b.subrange(240, b.len() as int), empty_table()) == Ok::<
        Seq<Option<Seq<u8>>>,
        ParseError,
    >(p.options@)
}

/// The records of one option value: a value longer than 255 bytes is split
/// into successive records of the same code.
pub open spec fn enc_option(code: u8, v: Seq<u8>) -> Seq<u8>
    decreases v.len(),
{
    if v.len() <= 255 {
        seq![code, v.len() as u8] + v
    } else {
        seq![code, 255u8] + v.subrange(0, 255) + enc_option(code, v.subrange(255, v.len() as int))
    }
}

pub open spec fn enc_slot(code: int, o: Option<Seq<u8>>) -> Seq<u8> {
    match o {
        Some(v) => enc_option(code as u8, v),
        None => Seq::empty(),
    }
}

/// The records of the codes `lo .. hi` of a table, in ascending code order.
pub open spec fn enc_range(t: Seq<Option<Seq<u8>>>, lo: int, hi: int) -> Seq<u8>
    decreases hi - lo,
{
    if hi <= lo {
        Seq::empty()
    } else {
        enc_range(t, lo, hi - 1) + enc_slot(hi - 1, t[hi - 1])
    }
}

pub open spec fn enc_header(p: DhcpPacket) -> Seq<u8> {
    seq![p.op, p.htype, p.hlen, p.hops] + enc32(p.xid) + enc16(p.secs) + enc16(p.flags) + enc32(
        p.ciaddr,
    ) + enc32(p.yiaddr) + enc32(p.siaddr) + enc32(p.giaddr) + p.chaddr@ + p.sname@ + p.file@
}

/// The wire form of a packet: header, cookie, options in ascending code
/// order, end code.
pub open spec fn encode(p: DhcpPacket) -> Seq<u8> {
    enc_header(p) + magic() + enc_range(p.options@, 1, 255) + seq![255u8]
}

impl DhcpPacket {
    /// The fixed-size fields have their wire sizes and the option table is
    /// well formed.
    pub open spec fn wf(&self) -> bool {
        &&& self.chaddr@.len() == 16
        &&& self.sname@.len() == 64
        &&& self.file@.len() == 128
        &&& self.options.wf()
    }

    /// The client identifier: the ClientId option when present, otherwise the
    /// hardware type followed by the significant bytes of the hardware address.
    pub fn get_client_id(&self) -> (r: Vec<u8>)
        requires
            self.wf(),
        ensures
            r@ == client_id_of(*self),
    {
        match self.options.get_clientid() {
            Some(c) => c,
            None => {
                let n: usize = if self.hlen as usize <= 16 {
                    self.hlen as usize
                } else {
                    16
                };
                let mut r: Vec<u8> = Vec::new();
                r.push(self.htype);
                push_bytes(&mut r, self.chaddr.as_slice(), 0, n);
                r
            },
        }
    }

    /// The wire form of the packet.
    pub fn serialise(&self) -> (r: Vec<u8>)
        requires
            self.wf(),
        ensures
            r@ == encode(*self),
    {
        let mut out: Vec<u8> = Vec::new();
        out.push(self.op);
        out.push(self.htype);
        out.push(self.hlen);
        out.push(self.hops);
        push32(&mut out, self.xid);
        push16(&mut out, self.secs);
        push16(&mut out, self.flags);
        push32(&mut out, self.ciaddr);
        push32(&mut out, self.yiaddr);
        push32(&mut out, self.siaddr);
        push32(&mut out, self.giaddr);
        push_bytes(&mut out, self.chaddr.as_slice(), 0, 16);
        push_bytes(&mut out, self.sname.as_slice(), 0, 64);
        push_bytes(&mut out, self.file.as_slice(), 0, 128);
        assert(self.chaddr@.subrange(0, 16) =~= self.chaddr@);
        assert(self.sname@.subrange(0, 64) =~= self.sname@);
        assert(self.file@.subrange(0, 128) =~= self.file@);
        assert(out@ =~= enc_header(*self));
        out.push(99);
        out.push(130);
        out.push(83);
        out.push(99);
        assert(out@ =~= enc_header(*self) + magic());
        let ghost base = out@;
        let mut code: usize = 1;
        while code < 255
            invariant
                1 <= code <= 255,
                self.wf(),
                out@ == base + enc_range(self.options@, 1, code as int),
            decreases 255 - code,
        {
            match &self.options.other[code] {
                Some(v) => {
                    assert(self.options@[code as int] == Some(v@));
                    push_option(&mut out, code as u8, v.as_slice());
                },
                None => {},
            }
            assert(out@ =~= base + enc_range(self.options@, 1, code + 1));
            code = code + 1;
        }
        out.push(255);
        assert(out@ =~= encode(*self));
        out
    }
}

pub open spec fn client_id_of(p: DhcpPacket) -> Seq<u8> {
    match p.options@[OPTION_CLIENTID as int] {
        Some(c) => c,
        None => seq![p.htype] + p.chaddr@.subrange(0, if p.hlen <= 16 { p.hlen as int } else { 16 }),
    }
}

fn push16(out: &mut Vec<u8>, x: u16)
    ensures
        final(out)@ == old(out)@ + enc16(x),
{
    out.push((x >> 8u16) as u8);
    out.push(x as u8);
    assert(out@ =~= old(out)@ + enc16(x));
}

fn push32(out: &mut Vec<u8>, x: u32)
    ensures
        final(out)@ == old(out)@ + enc32(x),
{
    out.push((x >> 24u32) as u8);
    out.push((x >> 16u32) as u8);
    out.push((x >> 8u32) as u8);
    out.push(x as u8);
    assert(out@ =~= old(out)@ + enc32(x));
}

fn push_option(out: &mut Vec<u8>, code: u8, v: &[u8])
    ensures
        final(out)@ == old(out)@ + enc_option(code, v@),
{
    let n = v.len();
    let mut j: usize = 0;
    assert(v@.subrange(0, n as int) =~= v@);
    loop
        invariant
            j <= n == v@.len(),
            old(out)@ + enc_option(code, v@) == out@ + enc_option(
                code,
                v@.subrange(j as int, n as int),
            ),
        decreases n - j,
    {
        let ghost rest = v@.subrange(j as int, n as int);
        if n - j <= 255 {
            out.push(code);
            out.push((n - j) as u8);
            push_bytes(out, v, j, n);
            assert(out@ =~= old(out)@ + enc_option(code, v@));
            return;
        }
        out.push(code);
        out.push(255);
        push_bytes(out, v, j, j + 255);
        assert(rest.subrange(0, 255) =~= v@.subrange(j as int, j + 255));
        assert(rest.subrange(255, rest.len() as int) =~= v@.subrange(j + 255, n as int));
        j = j + 255;
    }
}

/// Decodes the bytes of one packet.
pub fn parse(b: &[u8]) -> (r: Result<DhcpPacket, ParseError>)
    ensures
        match r {
            Ok(p) => parse_result(b@) is Ok && decodes_to(b@, p),
            Err(e) => parse_result(b@) == Err::<(), ParseError>(e),
        },
{
    if b.len() < 236 {
        return Err(ParseError::ShortPacket);
    }
    if b.len() < OPTIONS_START {
        return Err(ParseError::InvalidPacket);
    }
    if !(b[236] == 99 && b[237] == 130 && b[238] == 83 && b[239] == 99) {
        assert(b@.subrange(236, 240)[0] == b[236]);
        assert(b@.subrange(236, 240)[1] == b[237]);
        assert(b@.subrange(236, 240)[2] == b[238]);
        assert(b@.subrange(236, 240)[3] == b[239]);
        return Err(ParseError::InvalidPacket);
    }
    assert(b@.subrange(236, 240) =~= magic());
    let options = match parse_options(b) {
        Ok(o) => o,
        Err(e) => {
            return Err(e);
        },
    };
    Ok(
        DhcpPacket {
            op: b[0],
            htype: b[1],
            hlen: b[2],
            hops: b[3],
            xid: rd32(b, 4),
            secs: rd16(b, 8),
            flags: rd16(b, 10),
            ciaddr: rd32(b, 12),
            yiaddr: rd32(b, 16),
            siaddr: rd32(b, 20),
            giaddr: rd32(b, 24),
            chaddr: copy_bytes(b, 28, 44),
            sname: copy_bytes(b, 44, 108),
            file: copy_bytes(b, 108, 236),
            options,
        },
    )
}

fn rd16(b: &[u8], i: usize) -> (r: u16)
    requires
        i + 2 <= b@.len(),
    ensures
        r == be16(b@[i as int], b@[i + 1]),
{
    ((b[i] as u16) << 8u16) | (b[i + 1] as u16)
}

fn rd32(b: &[u8], i: usize) -> (r: u32)
    requires
        i + 4 <= b@.len(),
    ensures
        r == be32(b@[i as int], b@[i + 1], b@[i + 2], b@[i + 3]),
{
    ((b[i] as u32) << 24u32) | ((b[i + 1] as u32) << 16u32) | ((b[i + 2] as u32) << 8u32) | (b[i
        + 3] as u32)
}

fn parse_options(b: &[u8]) -> (r: Result<DhcpOptions, ParseError>)
    requires
        b@.len() >= OPTIONS_START,
    ensures
        match r {
            Ok(o) => o.wf() && parse_opts(b@.subrange(240, b@.len() as int), empty_table()) == Ok::<
                Seq<Option<Seq<u8>>>,
                ParseError,
            >(o@),
            Err(e) => parse_opts(b@.subrange(240, b@.len() as int), empty_table()) == Err::<
                Seq<Option<Seq<u8>>>,
                ParseError,
            >(e),
        },
{
    let n = b.len();
    let ghost goal = parse_opts(b@.subrange(240, n as int), empty_table());
    let mut opts = DhcpOptions::new();
    let mut i: usize = OPTIONS_START;
    while i < n
        invariant
            OPTIONS_START <= i <= n == b@.len(),
            opts.wf(),
            goal == parse_opts(b@.subrange(240, n as int), empty_table()),
            parse_opts(b@.subrange(i as int, n as int), opts@) == goal,
        decreases n - i,
    {
        let ghost rest = b@.subrange(i as int, n as int);
        let code = b[i];
        if code == 0 {
            assert(rest.drop_first() =~= b@.subrange(i + 1, n as int));
            i = i + 1;
        } else if code == 255 {
            return Ok(opts);
        } else {
            if n - i < 2 {
                return Err(ParseError::ShortPacket);
            }
            let len = b[i + 1] as usize;
            if n - i < 2 + len {
                return Err(ParseError::ShortPacket);
            }
            let v = copy_bytes(b, i + 2, i + 2 + len);
            assert(rest.subrange(2, 2 + len) =~= v@);
            assert(rest.subrange(2 + len, rest.len() as int) =~= b@.subrange(
                i + 2 + len,
                n as int,
            ));
            opts.set_option(code, v.as_slice());
            i = i + 2 + len;
        }
    }
    assert(b@.subrange(i as int, n as int).len() == 0);
    Ok(opts)
}

proof fn lemma_enc_range_split(t: Seq<Option<Seq<u8>>>, lo: int, mid: int, hi: int)
    requires
        lo <= mid <= hi,
    ensures
        enc_range(t, lo, hi) == enc_range(t, lo, mid) + enc_range(t, mid, hi),
    decreases hi - mid,
{
    if hi == mid {
        assert(enc_range(t, lo, mid) + enc_range(t, mid, hi) =~= enc_range(t, lo, mid));
    } else {
        lemma_enc_range_split(t, lo, mid, hi - 1);
        assert(enc_range(t, lo, hi) =~= enc_range(t, lo, mid) + enc_range(t, mid, hi));
    }
}

proof fn lemma_parse_enc_range(t: Seq<Option<Seq<u8>>>, k: int, acc: Seq<Option<Seq<u8>>>)
    requires
        1 <= k <= 255,
        table_wf(t),
        table_short(t),
        acc.len() == 256,
        forall|j: int| 0 <= j < k ==> acc[j] == t[j],
        forall|j: int| k <= j < 256 ==> (#[trigger] acc[j]) is None,
    ensures
        parse_opts(enc_range(t, k, 255) + seq![255u8], acc) == Ok::<
            Seq<Option<Seq<u8>>>,
            ParseError,
        >(t),
    decreases 255 - k,
{
    let b = enc_range(t, k, 255) + seq![255u8];
    if k == 255 {
        assert(b =~= seq![255u8]);
        assert(acc =~= t);
    } else {
        lemma_enc_range_split(t, k, k + 1, 255);
        assert(enc_range(t, k, k) == Seq::<u8>::empty());
        assert(enc_range(t, k, k + 1) =~= enc_slot(k, t[k]));
        let rest = enc_range(t, k + 1, 255) + seq![255u8];
        match t[k] {
            Some(v) => {
                assert(v.len() <= 255);
                let h = seq![k as u8, v.len() as u8];
                assert(b =~= h + v + rest);
                assert(b.subrange(2, 2 + b[1]) =~= v);
                assert(b.subrange(2 + b[1], b.len() as int) =~= rest);
                let acc2 = acc.update(k, Some(v));
                lemma_parse_enc_range(t, k + 1, acc2);
            },
            None => {
                assert(b =~= rest);
                lemma_parse_enc_range(t, k + 1, acc);
            },
        }
    }
}

proof fn lemma_parse_opts_shape(b: Seq<u8>, acc: Seq<Option<Seq<u8>>>)
    requires
        table_wf(acc),
        table_short(acc),
        parse_opts(b, acc) is Ok,
    ensures
        table_wf(parse_opts(b, acc)->Ok_0),
        table_short(parse_opts(b, acc)->Ok_0),
    decreases b.len(),
{
    if b.len() == 0 {
    } else if b[0] == 0 {
        lemma_parse_opts_shape(b.drop_first(), acc);
    } else if b[0] == 255 {
    } else {
        let acc2 = acc.update(b[0] as int, Some(b.subrange(2, 2 + b[1])));
        assert(table_short(acc2));
        lemma_parse_opts_shape(b.subrange(2 + b[1], b.len() as int), acc2);
    }
}

/// Serialising a packet and parsing the bytes gives the packet back, field
/// for field, when every option value fits in one record (a longer value is
/// split into records of one code, and parsing keeps the last of them).
pub proof fn lemma_serialise_parse(p: DhcpPacket)
    requires
        p.wf(),
        table_short(p.options@),
    ensures
        parse_result(encode(p)) is Ok,
        decodes_to(encode(p), p),
{
    let b = encode(p);
    let h = enc_header(p);
    assert(h.len() == 236);
    assert(b.subrange(0, 236) =~= h);
    lemma_be32_roundtrip(p.xid);
    lemma_be16_roundtrip(p.secs);
    lemma_be16_roundtrip(p.flags);
    lemma_be32_roundtrip(p.ciaddr);
    lemma_be32_roundtrip(p.yiaddr);
    lemma_be32_roundtrip(p.siaddr);
    lemma_be32_roundtrip(p.giaddr);
    assert(b[4] == h[4] && b[5] == h[5] && b[6] == h[6] && b[7] == h[7]);
    assert(b.subrange(28, 44) =~= p.chaddr@);
    assert(b.subrange(44, 108) =~= p.sname@);
    assert(b.subrange(108, 236) =~= p.file@);
    assert(b.subrange(236, 240) =~= magic());
    assert(b.subrange(240, b.len() as int) =~= enc_range(p.options@, 1, 255) + seq![255u8]);
    lemma_parse_enc_range(p.options@, 1, empty_table());
}

/// Parsing bytes and serialising the packet gives bytes that parse to the
/// same packet.
pub proof fn lemma_parse_serialise(b: Seq<u8>, p: DhcpPacket)
    requires
        decodes_to(b, p),
    ensures
        p.wf(),
        table_short(p.options@),
        parse_result(encode(p)) is Ok,
        decodes_to(encode(p), p),
{
    lemma_parse_opts_shape(b.subrange(240, b.len() as int), empty_table());
    lemma_serialise_parse(p);
}

} // verus!
