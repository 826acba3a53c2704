use vstd::prelude::*;

use std::collections::BTreeMap;

use crate::packet::{be16, copy_bytes};

verus! {

/// A record type.
#[derive(Debug, Clone, Copy, PartialEq, Eq, Structural)]
pub struct Type(pub u16);

/// A record class.
#[derive(Debug, Clone, Copy, PartialEq, Eq, Structural)]
pub struct Class(pub u16);

pub const RR_SOA: u16 = 6;
pub const RR_OPT: u16 = 41;

/// A domain name as its labels, leftmost first.
pub struct Domain {
    pub labels: Vec<Vec<u8>>,
}

pub struct SoaData {
    pub mname: Domain,
    pub rname: Domain,
    pub serial: u32,
    pub refresh: u32,
    pub retry: u32,
    pub expire: u32,
    pub minimum: u32,
}

pub struct EdnsOption {
    pub code: u16,
    pub data: Vec<u8>,
}

pub struct EdnsData {
    pub other: Vec<EdnsOption>,
}

pub enum RData {
    OPT(EdnsData),
    SOA(SoaData),
    Other(Vec<u8>),
}

pub struct RR {
    pub domain: Domain,
    pub rrtype: Type,
    pub class: Class,
    pub ttl: u32,
    pub rdata: RData,
}

pub struct Question {
    pub qdomain: Domain,
    pub qtype: Type,
    pub qclass: Class,
}

pub struct DnsPkt {
    pub qid: u16,
    pub rd: bool,
    pub tc: bool,
    pub aa: bool,
    pub qr: bool,
    pub opcode: u8,
    pub cd: bool,
    pub ad: bool,
    pub ra: bool,
    pub rcode: u16,
    pub bufsize: u16,
    pub edns_ver: Option<u8>,
    pub edns_do: bool,
    pub question: Question,
    pub answer: Vec<RR>,
    pub nameserver: Vec<RR>,
    pub additional: Vec<RR>,
    pub edns: Option<EdnsData>,
}

pub open spec fn edns_option_view(o: EdnsOption) -> (u16, Seq<u8>) {
    (o.code, o.data@)
}

/// The options of an EDNS record body: each is a 16-bit code, a 16-bit
/// length and that many bytes; `None` when the last one is cut short.
pub open spec fn edns_options(b: Seq<u8>) -> Option<Seq<(u16, Seq<u8>)>>
    decreases b.len(),
{
    if b.len() == 0 {
        Some(Seq::empty())
    } else if b.len() < 4 || b.len() < 4 + be16(b[2], b[3]) {
        None
    } else {
        let l = be16(b[2], b[3]) as int;
        match edns_options(b.subrange(4 + l, b.len() as int)) {
            Some(t) => Some(seq![(be16(b[0], b[1]), b.subrange(4, 4 + l))] + t),
            None => None,
        }
    }
}

/// The labels recorded while reading names, by the offset of each label:
/// the label and the offset of the label that follows it, if any.
pub type LabelTable = Map<u16, (Seq<u8>, Option<u16>)>;

/// The labels reached from the label recorded at `off`, following the
/// recorded successors; `None` when an offset is unrecorded, a label is too
/// long, or a successor does not lie further on.
pub open spec fn chain(t: LabelTable, off: u16) -> Option<Seq<Seq<u8>>>
    decreases 0x10000 - off,
{
    if !t.contains_key(off) || t[off].0.len() >= 64 {
        None
    } else {
        match t[off].1 {
            None => Some(seq![t[off].0]),
            Some(o) => if o <= off {
                None
            } else {
                match chain(t, o) {
                    Some(r) => Some(seq![t[off].0] + r),
                    None => None,
                }
            },
        }
    }
}

/// Reading a name at `p` with label table `t`: its labels, the position
/// after it and the table afterwards. A length byte below 64 starts a label
/// (0 ends the name), which is recorded at its offset with the offset of the
/// next label unless the name ends there; a byte of 192 or more starts a
/// 16-bit pointer whose low six bits give the offset of recorded labels to
/// follow. `None` when the bytes end early, the label type is 01 or 10, or
/// the pointer leads nowhere.
pub open spec fn name_at(b: Seq<u8>, p: int, t: LabelTable) -> Option<
    (Seq<Seq<u8>>, int, LabelTable),
>
    decreases b.len() - p,
{
    if p < 0 || p >= b.len() {
        None
    } else if b[p] == 0 {
        Some((Seq::empty(), p + 1, t))
    } else if b[p] < 64 {
        let q = p + 1 + b[p];
        if q >= b.len() {
            None
        } else {
            let label = b.subrange(p + 1, q);
            let next: Option<u16> = if b[q] == 0 {
                None
            } else if q <= 0xffff {
                Some(q as u16)
            } else {
                None
            };
            let t2 = if p <= 0xffff {
                t.insert(p as u16, (label, next))
            } else {
                t
            };
            match name_at(b, q, t2) {
                Some((ls, e, t3)) => Some((seq![label] + ls, e, t3)),
                None => None,
            }
        }
    } else if b[p] >= 192 {
        if p + 2 > b.len() {
            None
        } else {
            match chain(t, be16(b[p], b[p + 1]) & 0x3fu16) {
                Some(ls) => Some((ls, p + 2, t)),
                None => None,
            }
        }
    } else {
        None
    }
}

/// The error text for a name at `p` that `name_at` cannot read: the bytes
/// ending early, an unsupported label type, or a pointer that leads nowhere.
pub open spec fn name_err(b: Seq<u8>, p: int, t: LabelTable) -> Seq<char>
    decreases b.len() - p,
{
    if p < 0 || p >= b.len() {
        "Truncated packet"@
    } else if b[p] == 0 {
        Seq::empty()
    } else if b[p] < 64 {
        let q = p + 1 + b[p];
        if q >= b.len() {
            "Truncated packet"@
        } else {
            let label = b.subrange(p + 1, q);
            let next: Option<u16> = if b[q] == 0 {
                None
            } else if q <= 0xffff {
                Some(q as u16)
            } else {
                None
            };
            let t2 = if p <= 0xffff {
                t.insert(p as u16, (label, next))
            } else {
                t
            };
            name_err(b, q, t2)
        }
    } else if b[p] >= 192 {
        if p + 2 > b.len() {
            "Truncated packet"@
        } else {
            "Bad compression offset"@
        }
    } else {
        "Unsupported label type"@
    }
}

/// Reading the data of a record of type `rtype` at `p`: where it ends and
/// the label table afterwards. An SOA record holds a 16-bit length (not
/// used), two names and five 32-bit numbers; any other holds a 16-bit
/// length and that many bytes, which for OPT must be whole EDNS options.
pub open spec fn rdata_walk(b: Seq<u8>, p: int, rtype: u16, t: LabelTable) -> Option<
    (int, LabelTable),
> {
    if p + 2 > b.len() {
        None
    } else if rtype == RR_SOA {
        match name_at(b, p + 2, t) {
            Some((_, e1, t1)) => match name_at(b, e1, t1) {
                Some((_, e2, t2)) => if e2 + 20 <= b.len() {
                    Some((e2 + 20, t2))
                } else {
                    None
                },
                None => None,
            },
            None => None,
        }
    } else {
        let n = be16(b[p], b[p + 1]) as int;
        if p + 2 + n > b.len() {
            None
        } else if rtype == RR_OPT && edns_options(b.subrange(p + 2, p + 2 + n)) is None {
            None
        } else {
            Some((p + 2 + n, t))
        }
    }
}

/// Reading one record at `p`: name, type, class, TTL, data.
pub open spec fn rr_walk(b: Seq<u8>, p: int, t: LabelTable) -> Option<(int, LabelTable)> {
    match name_at(b, p, t) {
        Some((_, e, t1)) => if e + 8 > b.len() {
            None
        } else {
            rdata_walk(b, e + 8, be16(b[e], b[e + 1]), t1)
        },
        None => None,
    }
}

/// Reading `n` records in a row at `p`.
pub open spec fn rrs_walk(b: Seq<u8>, p: int, t: LabelTable, n: nat) -> Option<(int, LabelTable)>
    decreases n,
{
    if n == 0 {
        Some((p, t))
    } else {
        match rr_walk(b, p, t) {
            Some((q, t1)) => rrs_walk(b, q, t1, (n - 1) as nat),
            None => None,
        }
    }
}

/// Reading a whole packet at `p`: a 12-byte header whose question count is
/// one, the question (a name, type and class), then as many answer,
/// authority and additional records as the header counts.
pub open spec fn dns_walk(b: Seq<u8>, p: int, t: LabelTable) -> Option<(int, LabelTable)> {
    if p + 12 > b.len() || be16(b[p + 4], b[p + 5]) != 1 {
        None
    } else {
        match name_at(b, p + 12, t) {
            Some((_, e, t1)) => if e + 4 > b.len() {
                None
            } else {
                match rrs_walk(b, e + 4, t1, be16(b[p + 6], b[p + 7]) as nat) {
                    Some((q1, t2)) => match rrs_walk(b, q1, t2, be16(b[p + 8], b[p + 9]) as nat) {
                        Some((q2, t3)) => rrs_walk(b, q2, t3, be16(b[p + 10], b[p + 11]) as nat),
                        None => None,
                    },
                    None => None,
                }
            },
            None => None,
        }
    }
}

/// A big-endian 32-bit number at `i`.
pub open spec fn be32_at(b: Seq<u8>, i: int) -> u32 {
    crate::packet::be32(b[i], b[i + 1], b[i + 2], b[i + 3])
}

/// What the data of a record of type `rtype` at `p` holds (where
/// `rdata_walk` succeeds).
pub open spec fn rdata_val(b: Seq<u8>, p: int, rtype: u16, t: LabelTable) -> RDataView {
    if rtype == RR_SOA {
        match name_at(b, p + 2, t) {
            Some((m, e1, t1)) => match name_at(b, e1, t1) {
                Some((n, e2, _)) => RDataView::Soa(
                    m,
                    n,
                    be32_at(b, e2),
                    be32_at(b, e2 + 4),
                    be32_at(b, e2 + 8),
                    be32_at(b, e2 + 12),
                    be32_at(b, e2 + 16),
                ),
                None => RDataView::Other(Seq::empty()),
            },
            None => RDataView::Other(Seq::empty()),
        }
    } else {
        let body = b.subrange(p + 2, p + 2 + be16(b[p], b[p + 1]));
        if rtype == RR_OPT {
            RDataView::Opt(edns_options(body)->Some_0)
        } else {
            RDataView::Other(body)
        }
    }
}

/// A record as values: name labels, type, class, TTL and data.
pub type RRView = (Seq<Seq<u8>>, u16, u16, u32, RDataView);

/// The record at `p` (where `rr_walk` succeeds).
pub open spec fn rr_val(b: Seq<u8>, p: int, t: LabelTable) -> RRView {
    match name_at(b, p, t) {
        Some((ls, e, t1)) => (
            ls,
            be16(b[e], b[e + 1]),
            be16(b[e + 2], b[e + 3]),
            be32_at(b, e + 4),
            rdata_val(b, e + 8, be16(b[e], b[e + 1]), t1),
        ),
        None => (Seq::empty(), 0, 0, 0, RDataView::Other(Seq::empty())),
    }
}

/// The `n` records in a row at `p`.
pub open spec fn rr_vals(b: Seq<u8>, p: int, t: LabelTable, n: nat) -> Seq<RRView>
    decreases n,
{
    if n == 0 {
        Seq::empty()
    } else {
        match rr_walk(b, p, t) {
            Some((q, t1)) => seq![rr_val(b, p, t)] + rr_vals(b, q, t1, (n - 1) as nat),
            None => Seq::empty(),
        }
    }
}

/// Where the answer section of the packet at `p` starts, and the label table there.
pub open spec fn answers_at(b: Seq<u8>, p: int, t: LabelTable) -> (int, LabelTable) {
    match name_at(b, p + 12, t) {
        Some((_, e, t1)) => (e + 4, t1),
        None => (0, t),
    }
}

/// Where the authority section starts.
pub open spec fn authority_at(b: Seq<u8>, p: int, t: LabelTable) -> (int, LabelTable) {
    let (q, t1) = answers_at(b, p, t);
    match rrs_walk(b, q, t1, be16(b[p + 6], b[p + 7]) as nat) {
        Some(r) => r,
        None => (0, t),
    }
}

/// Where the additional section starts.
pub open spec fn additional_at(b: Seq<u8>, p: int, t: LabelTable) -> (int, LabelTable) {
    let (q, t1) = authority_at(b, p, t);
    match rrs_walk(b, q, t1, be16(b[p + 8], b[p + 9]) as nat) {
        Some(r) => r,
        None => (0, t),
    }
}

/// The answer records of the packet at `p`.
pub open spec fn answer_vals(b: Seq<u8>, p: int, t: LabelTable) -> Seq<RRView> {
    rr_vals(b, answers_at(b, p, t).0, answers_at(b, p, t).1, be16(b[p + 6], b[p + 7]) as nat)
}

/// The authority records of the packet at `p`.
pub open spec fn authority_vals(b: Seq<u8>, p: int, t: LabelTable) -> Seq<RRView> {
    rr_vals(b, authority_at(b, p, t).0, authority_at(b, p, t).1, be16(b[p + 8], b[p + 9]) as nat)
}

/// The additional records of the packet at `p`.
pub open spec fn additional_vals(b: Seq<u8>, p: int, t: LabelTable) -> Seq<RRView> {
    rr_vals(
        b,
        additional_at(b, p, t).0,
        additional_at(b, p, t).1,
        be16(b[p + 10], b[p + 11]) as nat,
    )
}

/// The first OPT record among `rs`.
pub open spec fn first_opt(rs: Seq<RRView>) -> Option<RRView>
    decreases rs.len(),
{
    if rs.len() == 0 {
        None
    } else if rs[0].1 == RR_OPT {
        Some(rs[0])
    } else {
        first_opt(rs.drop_first())
    }
}

/// The records of `rs` that are not OPT records, in order.
pub open spec fn non_opt(rs: Seq<RRView>) -> Seq<RRView>
    decreases rs.len(),
{
    if rs.len() == 0 {
        Seq::empty()
    } else if rs[0].1 == RR_OPT {
        non_opt(rs.drop_first())
    } else {
        seq![rs[0]] + non_opt(rs.drop_first())
    }
}

pub open spec fn rdata_view(d: RData) -> RDataView {
    match d {
        RData::OPT(o) => RDataView::Opt(o.other@.map_values(|x: EdnsOption| edns_option_view(x))),
        RData::SOA(s) => RDataView::Soa(
            labels_view(s.mname.labels@),
            labels_view(s.rname.labels@),
            s.serial,
            s.refresh,
            s.retry,
            s.expire,
            s.minimum,
        ),
        RData::Other(v) => RDataView::Other(v@),
    }
}

pub open spec fn rr_view(rr: RR) -> RRView {
    (labels_view(rr.domain.labels@), rr.rrtype.0, rr.class.0, rr.ttl, rdata_view(rr.rdata))
}

/// What the data of a record holds.
pub enum RDataView {
    Opt(Seq<(u16, Seq<u8>)>),
    Soa(Seq<Seq<u8>>, Seq<Seq<u8>>, u32, u32, u32, u32, u32),
    Other(Seq<u8>),
}

pub open spec fn labels_view(ls: Seq<Vec<u8>>) -> Seq<Seq<u8>> {
    ls.map_values(|l: Vec<u8>| l@)
}

/// Reads the options of an EDNS record body.
pub struct EdnsParser<'l> {
    buffer: &'l [u8],
    pos: usize,
}

impl<'l> EdnsParser<'l> {
    pub closed spec fn wf(&self) -> bool {
        self.pos <= self.buffer@.len()
    }

    /// The bytes not read yet.
    pub closed spec fn rest(&self) -> Seq<u8> {
        self.buffer@.subrange(self.pos as int, self.buffer@.len() as int)
    }

    pub fn new(buffer: &'l [u8]) -> (r: EdnsParser<'l>)
        ensures
            r.wf(),
            r.rest() == buffer@,
    {
        let r = EdnsParser { buffer, pos: 0 };
        assert(r.rest() =~= buffer@);
        r
    }

    fn get_u8(&mut self) -> (r: Result<u8, String>)
        requires
            old(self).wf(),
        ensures
            final(self).wf(),
            final(self).buffer@ == old(self).buffer@,
            r matches Err(e) ==> e@ == "Truncated EDNS Option"@,
            r is Ok ==> final(self).pos == old(self).pos + 1,
            old(self).rest().len() > 0 <==> r is Ok,
            r matches Ok(b) ==> b == old(self).rest()[0] && final(self).rest() == old(self).rest().drop_first(),
    {
        if self.pos < self.buffer.len() {
            let b = self.buffer[self.pos];
            self.pos = self.pos + 1;
            assert(self.rest() =~= old(self).rest().drop_first());
            Ok(b)
        } else {
            Err("Truncated EDNS Option".to_string())
        }
    }

    fn get_u16(&mut self) -> (r: Result<u16, String>)
        requires
            old(self).wf(),
        ensures
            final(self).wf(),
            final(self).buffer@ == old(self).buffer@,
            r matches Err(e) ==> e@ == "Truncated EDNS Option"@,
            r is Ok ==> final(self).pos == old(self).pos + 2,
            old(self).rest().len() >= 2 <==> r is Ok,
            r matches Ok(v) ==> v == be16(old(self).rest()[0], old(self).rest()[1]) && final(self).rest() == old(self).rest().subrange(2, old(self).rest().len() as int),
    {
        let upper = self.get_u8()?;
        let lower = self.get_u8()?;
        assert(final(self).rest() =~= old(self).rest().subrange(2, old(self).rest().len() as int));
        Ok(((upper as u16) << 8u16) | (lower as u16))
    }

    fn get_option(&mut self) -> (r: Result<EdnsOption, String>)
        requires
            old(self).wf(),
            old(self).rest().len() > 0,
        ensures
            final(self).wf(),
            r matches Err(e) ==> e@ == "Truncated EDNS Option"@,
            ({
                let b = old(self).rest();
                &&& (b.len() >= 4 && b.len() >= 4 + be16(b[2], b[3])) <==> r is Ok
                &&& r matches Ok(o) ==> edns_option_view(o) == (
                    be16(b[0], b[1]),
                    b.subrange(4, 4 + be16(b[2], b[3])),
                ) && final(self).rest() == b.subrange(4 + be16(b[2], b[3]), b.len() as int)
            }),
    {
        let ghost b = self.rest();
        let code = self.get_u16()?;
        let len = self.get_u16()? as usize;
        if self.buffer.len() - self.pos < len {
            return Err("Truncated EDNS Option".to_string());
        }
        let data = copy_bytes(self.buffer, self.pos, self.pos + len);
        self.pos = self.pos + len;
        assert(data@ =~= b.subrange(4, 4 + len));
        assert(self.rest() =~= b.subrange(4 + len, b.len() as int));
        Ok(EdnsOption { code, data })
    }

    /// Reads every option up to the end of the body.
    pub fn get_options(&mut self) -> (r: Result<EdnsData, String>)
        requires
            old(self).wf(),
        ensures
            final(self).wf(),
            edns_options(old(self).rest()) is Some <==> r is Ok,
            r is Ok ==> final(self).rest().len() == 0,
            r matches Err(e) ==> e@ == "Truncated EDNS Option"@,
            r matches Ok(d) ==> d.other@.map_values(|o: EdnsOption| edns_option_view(o))
                == edns_options(old(self).rest())->Some_0,
    {
        let ghost full = self.rest();
        let mut other: Vec<EdnsOption> = Vec::new();
        while self.pos < self.buffer.len()
            invariant
                self.wf(),
                full == old(self).rest(),
                edns_options(full) == match edns_options(self.rest()) {
                    Some(t) => Some(other@.map_values(|o: EdnsOption| edns_option_view(o)) + t),
                    None => None,
                },
            decreases self.buffer@.len() - self.pos,
        {
            let ghost b = self.rest();
            assert(b.len() > 0);
            let ednsopt = self.get_option()?;
            let ghost done = other@.map_values(|o: EdnsOption| edns_option_view(o));
            other.push(ednsopt);
            proof {
                let l = be16(b[2], b[3]) as int;
                let head = seq![(be16(b[0], b[1]), b.subrange(4, 4 + l))];
                assert(other@.map_values(|o: EdnsOption| edns_option_view(o)) =~= done + head);
                match edns_options(self.rest()) {
                    Some(t) => {
                        assert(done + head + t =~= done + (head + t));
                    },
                    None => {},
                }
            }
        }
        assert(self.rest().len() == 0);
        assert(edns_options(self.rest()) == Some(Seq::<(u16, Seq<u8>)>::empty()));
        assert(other@.map_values(|o: EdnsOption| edns_option_view(o)) + Seq::<
            (u16, Seq<u8>),
        >::empty() =~= other@.map_values(|o: EdnsOption| edns_option_view(o)));
        Ok(EdnsData { other })
    }
}

/// A label seen earlier in the packet, and where the name goes on after it.
struct Label {
    label: Vec<u8>,
    next: Option<u16>,
}

/// Reads a DNS packet: the header, the question and the records, following
/// compression pointers to labels read earlier.
pub struct PktParser<'l> {
    buffer: &'l [u8],
    offset: usize,
    labels: BTreeMap<u16, Label>,
}

/// Relies on std's `format!` to write the error text for a packet whose
/// question count is not one; nothing is claimed of the text.
#[verifier::external_body]
fn question_count_error(qcount: u16, opcode: u8, rcode: u16) -> String {
    format!("Incorrect number of questions ({} / {} / {})", qcount, opcode, rcode)
}

/// Separates the OPT records from the others: the others in order, and
/// the first OPT record.
fn split_opt(records: Vec<RR>) -> (r: (Vec<RR>, Option<RR>))
    requires
        forall|j: int|
            0 <= j < records@.len() ==> ((#[trigger] records@[j]).rrtype.0 == RR_OPT
                ==> records@[j].rdata is OPT),
    ensures
        r.0@.map_values(|x: RR| rr_view(x)) == non_opt(records@.map_values(|x: RR| rr_view(x))),
        forall|i: int| 0 <= i < r.0@.len() ==> (#[trigger] r.0@[i]).rrtype.0 != RR_OPT,
        match first_opt(records@.map_values(|x: RR| rr_view(x))) {
            Some(v) => r.1 matches Some(o) && rr_view(o) == v && o.rdata is OPT && o.rrtype.0
                == RR_OPT,
            None => r.1 is None,
        },
{
    let mut records = records;
    let ghost all = records@.map_values(|x: RR| rr_view(x));
    let mut additional: Vec<RR> = Vec::new();
    let mut opt: Option<RR> = None;
    assert(additional@.map_values(|x: RR| rr_view(x)) + non_opt(all) =~= non_opt(all));
    while records.len() > 0
        invariant
            non_opt(all) == additional@.map_values(|x: RR| rr_view(x)) + non_opt(
                records@.map_values(|x: RR| rr_view(x)),
            ),
            first_opt(all) == match opt {
                Some(o) => Some(rr_view(o)),
                None => first_opt(records@.map_values(|x: RR| rr_view(x))),
            },
            opt matches Some(o) ==> o.rrtype.0 == RR_OPT,
            forall|i: int|
                0 <= i < additional@.len() ==> (#[trigger] additional@[i]).rrtype.0 != RR_OPT,
            forall|j: int|
                0 <= j < records@.len() ==> ((#[trigger] records@[j]).rrtype.0 == RR_OPT
                    ==> records@[j].rdata is OPT),
            opt matches Some(o) ==> o.rdata is OPT,
        decreases records@.len(),
    {
        let ghost before = records@;
        let ghost hb = before.map_values(|x: RR| rr_view(x));
        let ghost ha = additional@.map_values(|x: RR| rr_view(x));
        let rr = records.remove(0);
        assert(rr == before[0]);
        assert forall|j: int| 0 <= j < records@.len() implies #[trigger] records@[j] == before[j
            + 1] by {}
        assert(records@.map_values(|x: RR| rr_view(x)) =~= hb.drop_first());
        assert(hb[0] == rr_view(rr));
        if rr.rrtype.0 == RR_OPT {
            if opt.is_none() {
                opt = Some(rr);
            }
        } else {
            additional.push(rr);
            proof {
                assert(additional@.map_values(|x: RR| rr_view(x)) =~= ha.push(rr_view(rr)));
                let rest = non_opt(hb.drop_first());
                assert(ha + (seq![rr_view(rr)] + rest) =~= ha.push(rr_view(rr)) + rest);
            }
        }
    }
    proof {
        let ha = additional@.map_values(|x: RR| rr_view(x));
        assert(records@.map_values(|x: RR| rr_view(x)) =~= Seq::<RRView>::empty());
        assert(ha + Seq::<RRView>::empty() =~= ha);
    }
    (additional, opt)
}

/// The EDNS fields of a packet with second flag byte `flag2` and first OPT
/// record `opt`: payload size, version, DO bit, full response code and options.
fn edns_fields(opt: Option<RR>, flag2: u8) -> (r: (u16, Option<u8>, bool, u16, Option<EdnsData>))
    requires
        opt matches Some(o) ==> o.rdata is OPT,
    ensures
        match opt {
            None => r == (512u16, None::<u8>, false, (flag2 & 0x0fu8) as u16, r.4) && r.4 is None,
            Some(o) => r.4 matches Some(e) && rdata_view(o.rdata) == RDataView::Opt(
                e.other@.map_values(|x: EdnsOption| edns_option_view(x)),
            ) && r.0 == (if o.class.0 > 512 {
                o.class.0
            } else {
                512
            }) && r.1 == Some(((o.ttl >> 16u32) & 0xffu32) as u8) && r.2 == (o.ttl & 0x8000u32
                != 0) && r.3 == ((flag2 & 0x0fu8) as u16) | (((o.ttl >> 24u32) as u16) << 8u16),
        },
        r.3 & 0x0fu16 == (flag2 & 0x0fu8) as u16,
{
    let rcode_low: u16 = (flag2 & 0b0000_1111) as u16;
    match opt {
        Some(o) => {
            let bufsize: u16 = if o.class.0 > 512 {
                o.class.0
            } else {
                512
            };
            let ever: u8 = (#[verifier::truncate] (((o.ttl >> 16u32) & 0xff) as u8));
            let high: u16 = (#[verifier::truncate] ((o.ttl >> 24u32) as u16));
            let rcode: u16 = rcode_low | (high << 8u16);
            assert((rcode_low | (high << 8u16)) & 0x0fu16 == (flag2 & 0x0fu8) as u16)
                by (bit_vector)
                requires
                    rcode_low == (flag2 & 0x0fu8) as u16,
            ;
            let edns = match o.rdata {
                RData::OPT(d) => Some(d),
                _ => None,
            };
            (bufsize, Some(ever), (o.ttl & 0x8000) != 0, rcode, edns)
        },
        None => {
            assert(((flag2 & 0x0fu8) as u16) & 0x0fu16 == (flag2 & 0x0fu8) as u16) by (bit_vector);
            (512u16, None, false, rcode_low, None)
        },
    }
}

impl<'l> PktParser<'l> {
    pub closed spec fn wf(&self) -> bool {
        self.offset <= self.buffer@.len()
    }

    /// The whole packet.
    pub closed spec fn bytes(&self) -> Seq<u8> {
        self.buffer@
    }

    /// How far the packet has been read.
    pub closed spec fn pos(&self) -> int {
        self.offset as int
    }

    /// The labels recorded so far, by offset.
    pub closed spec fn table(&self) -> LabelTable {
        self.labels@.map_values(|l: Label| (l.label@, l.next))
    }

    pub fn new(buffer: &'l [u8]) -> (r: PktParser<'l>)
        ensures
            r.wf(),
            r.bytes() == buffer@,
            r.pos() == 0,
            r.table() == Map::<u16, (Seq<u8>, Option<u16>)>::empty(),
    {
        let r = PktParser { buffer, offset: 0, labels: BTreeMap::new() };
        assert(r.table() =~= Map::<u16, (Seq<u8>, Option<u16>)>::empty());
        r
    }

    fn peek_u8(&mut self) -> (r: Result<u8, String>)
        requires
            old(self).wf(),
        ensures
            *final(self) == *old(self),
            old(self).pos() < old(self).bytes().len() <==> r is Ok,
            r matches Err(e) ==> e@ == "Truncated packet"@,
            r matches Ok(b) ==> b == old(self).bytes()[old(self).pos()],
    {
        if self.offset < self.buffer.len() {
            Ok(self.buffer[self.offset])
        } else {
            Err("Truncated packet".to_string())
        }
    }

    fn get_u8(&mut self) -> (r: Result<u8, String>)
        requires
            old(self).wf(),
        ensures
            final(self).wf(),
            r matches Err(e) ==> e@ == "Truncated packet"@,
            final(self).bytes() == old(self).bytes(),
            final(self).pos() >= old(self).pos(),
            final(self).table() == old(self).table(),
            old(self).pos() < old(self).bytes().len() <==> r is Ok,
            r matches Ok(b) ==> b == old(self).bytes()[old(self).pos()] && final(self).pos()
                == old(self).pos() + 1,
    {
        if self.offset >= self.buffer.len() {
            return Err("Truncated packet".to_string());
        }
        let ret = self.buffer[self.offset];
        self.offset = self.offset + 1;
        Ok(ret)
    }

    fn get_u16(&mut self) -> (r: Result<u16, String>)
        requires
            old(self).wf(),
        ensures
            final(self).wf(),
            r matches Err(e) ==> e@ == "Truncated packet"@,
            final(self).bytes() == old(self).bytes(),
            final(self).pos() >= old(self).pos(),
            final(self).table() == old(self).table(),
            old(self).pos() + 2 <= old(self).bytes().len() <==> r is Ok,
            r matches Ok(v) ==> v == be16(
                old(self).bytes()[old(self).pos()],
                old(self).bytes()[old(self).pos() + 1],
            ) && final(self).pos() == old(self).pos() + 2,
    {
        let hi = self.get_u8()?;
        let lo = self.get_u8()?;
        Ok(((hi as u16) << 8u16) | (lo as u16))
    }

    fn get_u32(&mut self) -> (r: Result<u32, String>)
        requires
            old(self).wf(),
        ensures
            final(self).wf(),
            final(self).bytes() == old(self).bytes(),
            final(self).pos() >= old(self).pos(),
            final(self).table() == old(self).table(),
            old(self).pos() + 4 <= old(self).bytes().len() <==> r is Ok,
            r matches Ok(v) ==> v == crate::packet::be32(
                old(self).bytes()[old(self).pos()],
                old(self).bytes()[old(self).pos() + 1],
                old(self).bytes()[old(self).pos() + 2],
                old(self).bytes()[old(self).pos() + 3],
            ) && final(self).pos() == old(self).pos() + 4,
    {
        let a = self.get_u8()?;
        let b = self.get_u8()?;
        let c = self.get_u8()?;
        let d = self.get_u8()?;
        Ok(((a as u32) << 24u32) | ((b as u32) << 16u32) | ((c as u32) << 8u32) | (d as u32))
    }

    fn get_bytes(&mut self, count: usize) -> (r: Result<Vec<u8>, String>)
        requires
            old(self).wf(),
        ensures
            final(self).wf(),
            r matches Err(e) ==> e@ == "Truncated packet"@,
            final(self).bytes() == old(self).bytes(),
            final(self).pos() >= old(self).pos(),
            final(self).table() == old(self).table(),
            old(self).pos() + count <= old(self).bytes().len() <==> r is Ok,
            r matches Ok(v) ==> v@ == old(self).bytes().subrange(
                old(self).pos(),
                old(self).pos() + count,
            ) && final(self).pos() == old(self).pos() + count,
    {
        if self.buffer.len() - self.offset < count {
            return Err("Truncated packet".to_string());
        }
        let ret = copy_bytes(self.buffer, self.offset, self.offset + count);
        self.offset = self.offset + count;
        Ok(ret)
    }

    fn get_label(&mut self) -> (r: Result<Vec<u8>, String>)
        requires
            old(self).wf(),
        ensures
            final(self).wf(),
            final(self).bytes() == old(self).bytes(),
            final(self).pos() >= old(self).pos(),
            final(self).table() == old(self).table(),
            ({
                let p = old(self).pos();
                let b = old(self).bytes();
                (p < b.len() && b[p] < 64 && p + 1 + b[p] <= b.len()) <==> r is Ok
            }),
            r matches Err(e) ==> e@ == (if old(self).pos() < old(self).bytes().len() && old(
                self,
            ).bytes()[old(self).pos()] >= 64 {
                "Unsupported label type"@
            } else {
                "Truncated packet"@
            }),
            r matches Ok(v) ==> {
                let p = old(self).pos();
                let b = old(self).bytes();
                &&& p < b.len()
                &&& b[p] < 64
                &&& v@ == b.subrange(p + 1, p + 1 + b[p])
                &&& final(self).pos() == p + 1 + b[p]
            },
    {
        let size = self.get_u8()?;
        assert(size & 0b1100_0000 == 0 <==> size < 64) by (bit_vector);
        if size & 0b1100_0000 != 0 {
            return Err("Unsupported label type".to_string());
        }
        self.get_bytes(size as usize)
    }

    /// Reads a domain name: labels up to an empty one, or up to a
    /// compression pointer to labels read earlier in the packet; see `name_at`.
    pub fn get_domain(&mut self) -> (r: Result<Domain, String>)
        requires
            old(self).wf(),
        ensures
            final(self).wf(),
            final(self).bytes() == old(self).bytes(),
            final(self).pos() >= old(self).pos(),
            name_at(old(self).bytes(), old(self).pos(), old(self).table()) is Some <==> r is Ok,
            r matches Ok(d) ==> (labels_view(d.labels@), final(self).pos(), final(self).table())
                == name_at(old(self).bytes(), old(self).pos(), old(self).table())->Some_0,
            r matches Err(e) ==> e@ == name_err(old(self).bytes(), old(self).pos(), old(self).table()),
    {
        broadcast use vstd::laws_cmp::group_laws_cmp, vstd::std_specs::btree::group_btree_axioms;

        let mut domainv: Vec<Vec<u8>> = Vec::new();
        let ghost b = self.bytes();
        let ghost goal = name_at(b, old(self).pos(), old(self).table());
        loop
            invariant
                self.wf(),
                b == self.bytes(),
                b == old(self).bytes(),
                self.pos() >= old(self).pos(),
                goal == name_at(b, old(self).pos(), old(self).table()),
                name_err(b, old(self).pos(), old(self).table()) == name_err(
                    b,
                    self.pos(),
                    self.table(),
                ),
                goal == match name_at(b, self.pos(), self.table()) {
                    Some((ls, e, t)) => Some((labels_view(domainv@) + ls, e, t)),
                    None => None,
                },
            decreases self.bytes().len() - self.pos(),
        {
            let ghost dv = labels_view(domainv@);
            let ghost p = self.pos();
            let prefix = self.peek_u8()?;
            let kind = prefix & 0b1100_0000;
            assert(kind == 0 <==> prefix < 64) by (bit_vector)
                requires
                    kind == prefix & 0b1100_0000,
            ;
            assert(kind == 0b1100_0000 <==> prefix >= 192) by (bit_vector)
                requires
                    kind == prefix & 0b1100_0000,
            ;
            if kind == 0 {
                let saved_offset = self.offset;
                if prefix == 0 {
                    self.get_u8()?;
                    assert(dv + Seq::<Seq<u8>>::empty() =~= dv);
                    return Ok(Domain { labels: domainv });
                }
                let label = self.get_label()?;
                let next = if self.peek_u8()? == 0 {
                    None
                } else if self.offset <= 0xffff {
                    Some(self.offset as u16)
                } else {
                    None
                };
                let ghost t0 = self.table();
                if saved_offset <= 0xffff {
                    let stored = copy_bytes(label.as_slice(), 0, label.len());
                    assert(label@.subrange(0, label@.len() as int) =~= label@);
                    self.labels.insert(saved_offset as u16, Label { label: stored, next });
                    assert(self.table() =~= t0.insert(saved_offset as u16, (label@, next)));
                }
                domainv.push(label);
                proof {
                    assert(labels_view(domainv@) =~= dv.push(label@));
                    if let Some((ls, e, t)) = name_at(b, self.pos(), self.table()) {
                        assert(dv + (seq![label@] + ls) =~= dv.push(label@) + ls);
                    }
                }
            } else if kind == 0b1100_0000 {
                let pointer = self.get_u16()?;
                let mut offset: u16 = pointer & 0b0011_1111;
                let ghost end = self.pos();
                let ghost t = self.table();
                loop
                    invariant
                        self.wf(),
                        b == self.bytes(),
                        b == old(self).bytes(),
                        self.pos() == end,
                        end >= old(self).pos(),
                        self.table() == t,
                        goal == name_at(b, old(self).pos(), old(self).table()),
                        name_err(b, old(self).pos(), old(self).table())
                            == "Bad compression offset"@,
                        goal == match chain(t, offset) {
                            Some(r) => Some((labels_view(domainv@) + r, end, t)),
                            None => None,
                        },
                    decreases 0x10000 - offset,
                {
                    let ghost dv2 = labels_view(domainv@);
                    match self.labels.get(&offset) {
                        None => {
                            assert(!self.labels@.contains_key(offset));
                            assert(!t.contains_key(offset));
                            assert(chain(t, offset) is None);
                            return Err("Bad compression offset".to_string());
                        },
                        Some(l) => {
                            assert(t.contains_key(offset) && t[offset] == (l.label@, l.next));
                            if l.label.len() >= 64 {
                                assert(chain(t, offset) is None);
                                return Err("Bad compression offset".to_string());
                            }
                            let copied = copy_bytes(l.label.as_slice(), 0, l.label.len());
                            assert(l.label@.subrange(0, l.label@.len() as int) =~= l.label@);
                            domainv.push(copied);
                            assert(labels_view(domainv@) =~= dv2.push(l.label@));
                            match l.next {
                                Some(o) => {
                                    if o <= offset {
                                        assert(chain(t, offset) is None);
                                        return Err("Bad compression offset".to_string());
                                    }
                                    proof {
                                        if let Some(r) = chain(t, o) {
                                            assert(dv2 + (seq![l.label@] + r) =~= dv2.push(l.label@)
                                                + r);
                                        }
                                    }
                                    offset = o;
                                },
                                None => {
                                    assert(dv2 + seq![l.label@] =~= dv2.push(l.label@));
                                    return Ok(Domain { labels: domainv });
                                },
                            }
                        },
                    }
                }
            } else {
                return Err("Unsupported label type".to_string());
            }
        }
    }

    pub fn get_class(&mut self) -> (r: Result<Class, String>)
        requires
            old(self).wf(),
        ensures
            final(self).wf(),
            final(self).bytes() == old(self).bytes(),
            final(self).pos() >= old(self).pos(),
            final(self).table() == old(self).table(),
            old(self).pos() + 2 <= old(self).bytes().len() <==> r is Ok,
            r matches Ok(c) ==> c.0 == be16(
                old(self).bytes()[old(self).pos()],
                old(self).bytes()[old(self).pos() + 1],
            ) && final(self).pos() == old(self).pos() + 2,
    {
        Ok(Class(self.get_u16()?))
    }

    pub fn get_type(&mut self) -> (r: Result<Type, String>)
        requires
            old(self).wf(),
        ensures
            final(self).wf(),
            final(self).bytes() == old(self).bytes(),
            final(self).pos() >= old(self).pos(),
            final(self).table() == old(self).table(),
            old(self).pos() + 2 <= old(self).bytes().len() <==> r is Ok,
            r matches Ok(t) ==> t.0 == be16(
                old(self).bytes()[old(self).pos()],
                old(self).bytes()[old(self).pos() + 1],
            ) && final(self).pos() == old(self).pos() + 2,
    {
        Ok(Type(self.get_u16()?))
    }

    pub open spec fn advanced(&self, before: &Self) -> bool {
        &&& self.wf()
        &&& self.bytes() == before.bytes()
        &&& self.pos() >= before.pos()
    }

    fn get_soa(&mut self) -> (r: Result<SoaData, String>)
        requires
            old(self).wf(),
        ensures
            final(self).advanced(old(self)),
            rdata_walk(old(self).bytes(), old(self).pos(), RR_SOA, old(self).table()) is Some
                <==> r is Ok,
            r is Ok ==> (final(self).pos(), final(self).table()) == rdata_walk(
                old(self).bytes(),
                old(self).pos(),
                RR_SOA,
                old(self).table(),
            )->Some_0,
            r matches Ok(s) ==> rdata_view(RData::SOA(s)) == rdata_val(
                old(self).bytes(),
                old(self).pos(),
                RR_SOA,
                old(self).table(),
            ),
    {
        let _rdlen = self.get_u16()?;
        let mname = self.get_domain()?;
        let rname = self.get_domain()?;
        let serial = self.get_u32()?;
        let refresh = self.get_u32()?;
        let retry = self.get_u32()?;
        let expire = self.get_u32()?;
        let minimum = self.get_u32()?;
        Ok(SoaData { mname, rname, serial, refresh, retry, expire, minimum })
    }

    /// Reads the data of a record of type `rtype`: an OPT record's body is
    /// read as EDNS options, an SOA record's as its fields, and any other
    /// as the bytes that its 16-bit length gives.
    fn get_rdata(&mut self, rtype: Type) -> (r: Result<RData, String>)
        requires
            old(self).wf(),
        ensures
            final(self).advanced(old(self)),
            rdata_walk(old(self).bytes(), old(self).pos(), rtype.0, old(self).table()) is Some
                <==> r is Ok,
            r is Ok ==> (final(self).pos(), final(self).table()) == rdata_walk(
                old(self).bytes(),
                old(self).pos(),
                rtype.0,
                old(self).table(),
            )->Some_0,
            r matches Ok(d) ==> {
                let b = old(self).bytes();
                let p = old(self).pos();
                &&& rtype.0 == RR_OPT ==> d is OPT
                &&& rtype.0 == RR_SOA ==> d is SOA
                &&& rtype.0 != RR_OPT && rtype.0 != RR_SOA ==> d is Other
                &&& rdata_view(d) == rdata_val(b, p, rtype.0, old(self).table())
                &&& d matches RData::Other(v) ==> rtype.0 != RR_OPT && rtype.0 != RR_SOA
                    && p + 2 <= b.len() && v@ == b.subrange(p + 2, p + 2 + be16(b[p], b[p + 1]))
                &&& d matches RData::OPT(o) ==> p + 2 <= b.len() && o.other@.map_values(
                    |x: EdnsOption| edns_option_view(x),
                ) == edns_options(b.subrange(p + 2, p + 2 + be16(b[p], b[p + 1])))->Some_0
            },
    {
        if rtype.0 == RR_OPT {
            let rdlen = self.get_u16()? as usize;
            let rdata = self.get_bytes(rdlen)?;
            let mut edns = EdnsParser::new(rdata.as_slice());
            Ok(RData::OPT(edns.get_options()?))
        } else if rtype.0 == RR_SOA {
            Ok(RData::SOA(self.get_soa()?))
        } else {
            let rdlen = self.get_u16()? as usize;
            let rdata = self.get_bytes(rdlen)?;
            Ok(RData::Other(rdata))
        }
    }

    /// Reads one resource record: name, type, class, TTL and data.
    fn get_rr(&mut self) -> (r: Result<RR, String>)
        requires
            old(self).wf(),
        ensures
            final(self).advanced(old(self)),
            rr_walk(old(self).bytes(), old(self).pos(), old(self).table()) is Some <==> r is Ok,
            r is Ok ==> (final(self).pos(), final(self).table()) == rr_walk(
                old(self).bytes(),
                old(self).pos(),
                old(self).table(),
            )->Some_0,
            r matches Ok(rr) ==> (rr.rrtype.0 == RR_OPT ==> rr.rdata is OPT),
            r matches Ok(rr) ==> rr_view(rr) == rr_val(
                old(self).bytes(),
                old(self).pos(),
                old(self).table(),
            ),
            ({
                let b = old(self).bytes();
                r matches Ok(rr) ==> (name_at(b, old(self).pos(), old(self).table()) matches Some(
                    (ls, e, _),
                ) ==> labels_view(rr.domain.labels@) == ls && e + 8 <= b.len() && rr.rrtype.0
                    == be16(b[e], b[e + 1]) && rr.class.0 == be16(b[e + 2], b[e + 3]) && rr.ttl
                    == crate::packet::be32(b[e + 4], b[e + 5], b[e + 6], b[e + 7]))
            }),
    {
        let domain = self.get_domain()?;
        let rrtype = self.get_type()?;
        let class = self.get_class()?;
        let ttl = self.get_u32()?;
        let rdata = self.get_rdata(rrtype)?;
        Ok(RR { domain, rrtype, class, ttl, rdata })
    }

    fn get_rrs(&mut self, count: u16) -> (r: Result<Vec<RR>, String>)
        requires
            old(self).wf(),
        ensures
            final(self).advanced(old(self)),
            rrs_walk(old(self).bytes(), old(self).pos(), old(self).table(), count as nat) is Some
                <==> r is Ok,
            r is Ok ==> (final(self).pos(), final(self).table()) == rrs_walk(
                old(self).bytes(),
                old(self).pos(),
                old(self).table(),
                count as nat,
            )->Some_0,
            r matches Ok(v) ==> v@.map_values(|x: RR| rr_view(x)) == rr_vals(
                old(self).bytes(),
                old(self).pos(),
                old(self).table(),
                count as nat,
            ),
            r matches Ok(v) ==> v@.len() == count && forall|i: int|
                0 <= i < v@.len() ==> ((#[trigger] v@[i]).rrtype.0 == RR_OPT ==> v@[i].rdata is OPT),
    {
        let mut v: Vec<RR> = Vec::new();
        let mut i: u16 = 0;
        while i < count
            invariant
                self.advanced(old(self)),
                i <= count,
                v@.len() == i,
                rrs_walk(old(self).bytes(), old(self).pos(), old(self).table(), count as nat)
                    == rrs_walk(self.bytes(), self.pos(), self.table(), (count - i) as nat),
                rr_vals(old(self).bytes(), old(self).pos(), old(self).table(), count as nat)
                    == v@.map_values(|x: RR| rr_view(x)) + rr_vals(
                    self.bytes(),
                    self.pos(),
                    self.table(),
                    (count - i) as nat,
                ),
                forall|j: int|
                    0 <= j < v@.len() ==> ((#[trigger] v@[j]).rrtype.0 == RR_OPT ==> v@[j].rdata is OPT),
            decreases count - i,
        {
            let ghost hv = v@.map_values(|x: RR| rr_view(x));
            let rr = self.get_rr()?;
            let ghost h = rr_view(rr);
            v.push(rr);
            proof {
                assert(v@.map_values(|x: RR| rr_view(x)) =~= hv.push(h));
                let rest = rr_vals(self.bytes(), self.pos(), self.table(), (count - i - 1) as nat);
                assert(hv + (seq![h] + rest) =~= hv.push(h) + rest);
            }
            i = i + 1;
        }
        assert(v@.map_values(|x: RR| rr_view(x)) + Seq::<RRView>::empty()
            =~= v@.map_values(|x: RR| rr_view(x)));
        Ok(v)
    }

    /// Reads a whole packet: the header, exactly one question, then the
    /// answer, authority and additional records. The first OPT record among
    /// the additional ones supplies the EDNS fields; OPT records are not kept
    /// among the additional records.
    pub fn get_dns(&mut self) -> (r: Result<DnsPkt, String>)
        requires
            old(self).wf(),
        ensures
            final(self).advanced(old(self)),
            dns_walk(old(self).bytes(), old(self).pos(), old(self).table()) is Some <==> r is Ok,
            r is Ok ==> (final(self).pos(), final(self).table()) == dns_walk(
                old(self).bytes(),
                old(self).pos(),
                old(self).table(),
            )->Some_0,
            ({
                let b = old(self).bytes();
                let p = old(self).pos();
                p + 6 <= b.len() && be16(b[p + 4], b[p + 5]) != 1 ==> r is Err && final(self).pos()
                    == p + 6
            }),
            r matches Ok(pkt) ==> {
                let b = old(self).bytes();
                let p = old(self).pos();
                let f1 = b[p + 2];
                let f2 = b[p + 3];
                &&& p + 12 <= b.len()
                &&& be16(b[p + 4], b[p + 5]) == 1
                &&& pkt.qid == be16(b[p], b[p + 1])
                &&& pkt.rd == (f1 & 1u8 != 0)
                &&& pkt.tc == (f1 & 2u8 != 0)
                &&& pkt.aa == (f1 & 4u8 != 0)
                &&& pkt.qr == (f1 & 0x80u8 != 0)
                &&& pkt.opcode == (f1 & 0x78u8) >> 3u8
                &&& pkt.cd == (f2 & 0x20u8 != 0)
                &&& pkt.ad == (f2 & 0x40u8 != 0)
                &&& pkt.ra == (f2 & 0x80u8 != 0)
                &&& pkt.answer@.len() == be16(b[p + 6], b[p + 7])
                &&& pkt.nameserver@.len() == be16(b[p + 8], b[p + 9])
                &&& forall|i: int|
                    0 <= i < pkt.additional@.len() ==> (#[trigger] pkt.additional@[i]).rrtype.0
                        != RR_OPT
                &&& pkt.bufsize >= 512
                &&& pkt.additional@.map_values(|x: RR| rr_view(x)) == non_opt(
                    additional_vals(b, p, old(self).table()),
                )
                &&& pkt.answer@.map_values(|x: RR| rr_view(x)) == answer_vals(b, p, old(self).table())
                &&& pkt.nameserver@.map_values(|x: RR| rr_view(x)) == authority_vals(
                    b,
                    p,
                    old(self).table(),
                )
                &&& match first_opt(additional_vals(b, p, old(self).table())) {
                    None => pkt.edns is None && pkt.bufsize == 512 && pkt.edns_ver is None
                        && !pkt.edns_do && pkt.rcode == (f2 & 0x0fu8) as u16,
                    Some(h) => pkt.edns matches Some(e) && h.4 == RDataView::Opt(
                        e.other@.map_values(|x: EdnsOption| edns_option_view(x)),
                    ) && pkt.bufsize == (if h.2 > 512 {
                        h.2
                    } else {
                        512
                    }) && pkt.edns_ver == Some(((h.3 >> 16u32) & 0xffu32) as u8) && pkt.edns_do == (
                    h.3 & 0x8000u32 != 0) && pkt.rcode == ((f2 & 0x0fu8) as u16) | (((h.3
                        >> 24u32) as u16) << 8u16),
                }
                &&& pkt.rcode & 0x0fu16 == (f2 & 0x0fu8) as u16
                &&& name_at(b, p + 12, old(self).table()) matches Some((ls, e, _)) ==> labels_view(
                    pkt.question.qdomain.labels@,
                ) == ls && e + 4 <= b.len() && pkt.question.qtype.0 == be16(b[e], b[e + 1])
                    && pkt.question.qclass.0 == be16(b[e + 2], b[e + 3])
            },
    {
        let qid = self.get_u16()?;
        let flag1 = self.get_u8()?;
        let flag2 = self.get_u8()?;
        let qcount = self.get_u16()?;
        let opcode: u8 = (flag1 & 0b0111_1000) >> 3u8;
        let rcode_low: u16 = (flag2 & 0b0000_1111) as u16;
        if qcount != 1 {
            return Err(question_count_error(qcount, opcode, rcode_low));
        }
        let arcount = self.get_u16()?;
        let nscount = self.get_u16()?;
        let adcount = self.get_u16()?;
        let qdomain = self.get_domain()?;
        let qtype = self.get_type()?;
        let qclass = self.get_class()?;
        let answer = self.get_rrs(arcount)?;
        let nameserver = self.get_rrs(nscount)?;
        let mut records = self.get_rrs(adcount)?;
        let (additional, opt) = split_opt(records);
        let (bufsize, edns_ver, edns_do, rcode, edns) = edns_fields(opt, flag2);
        Ok(
            DnsPkt {
                qid,
                rd: (flag1 & 0b0000_0001) != 0,
                tc: (flag1 & 0b0000_0010) != 0,
                aa: (flag1 & 0b0000_0100) != 0,
                qr: (flag1 & 0b1000_0000) != 0,
                opcode,
                cd: (flag2 & 0b0010_0000) != 0,
                ad: (flag2 & 0b0100_0000) != 0,
                ra: (flag2 & 0b1000_0000) != 0,
                rcode,
                bufsize,
                edns_ver,
                edns_do,
                question: Question { qdomain, qtype, qclass },
                answer,
                nameserver,
                additional,
                edns,
            },
        )
    }
}

} // verus!
