use vstd::prelude::*;

use crate::packet::{be32, bytes_eq, copy_bytes, enc32};

verus! {

/// Lease time handed out when no policy bounds it, in seconds.
pub const DEFAULT_LEASE_SECS: u64 = 3600;

/// One row of the lease table: an address held by a client until `expire`
/// (seconds on the caller's clock).
pub struct LeaseRow {
    pub ip: u32,
    pub client_id: Vec<u8>,
    pub expire: u64,
}

/// One row of the history table: the address a client last held.
pub struct HistoryRow {
    pub client_id: Vec<u8>,
    pub ip: u32,
}

/// A lease handed to a client: the address and its lifetime in seconds.
pub struct Lease {
    pub ip: u32,
    pub client_id: Vec<u8>,
    pub expire: u64,
}

#[derive(Debug, Clone, Copy, PartialEq, Eq, Structural)]
pub enum PoolError {
    /// Every candidate address is held by another client.
    NoAssignableAddress,
}

pub type LeaseModel = (u32, Seq<u8>, u64);

pub type HistoryModel = (Seq<u8>, u32);

/// The address pool: the active allocations and the history of past ones.
/// Rows are unique per address and per client.
pub struct Pool {
    leases: Vec<LeaseRow>,
    history: Vec<HistoryRow>,
}

pub open spec fn lease_view(l: LeaseRow) -> LeaseModel {
    (l.ip, l.client_id@, l.expire)
}

pub open spec fn history_view(h: HistoryRow) -> HistoryModel {
    (h.client_id@, h.ip)
}

/// No two lease rows share an address or a client, and no two history rows
/// share a client.
pub open spec fn tables_wf(ls: Seq<LeaseModel>, hs: Seq<HistoryModel>) -> bool {
    &&& forall|i: int, j: int|
        0 <= i < ls.len() && 0 <= j < ls.len() && i != j ==> (#[trigger] ls[i]).0 != (
        #[trigger] ls[j]).0 && ls[i].1 != ls[j].1
    &&& forall|i: int, j: int|
        0 <= i < hs.len() && 0 <= j < hs.len() && i != j ==> (#[trigger] hs[i]).0 != (
        #[trigger] hs[j]).0
}

/// `ip` is held by an unexpired lease at time `now`.
pub open spec fn allocated(ls: Seq<LeaseModel>, ip: u32, now: u64) -> bool {
    exists|i: int| 0 <= i < ls.len() && (#[trigger] ls[i]).0 == ip && ls[i].2 > now
}

/// The lease row of a client, if it has one.
pub open spec fn client_row(ls: Seq<LeaseModel>, cid: Seq<u8>) -> Option<LeaseModel> {
    if exists|i: int| 0 <= i < ls.len() && (#[trigger] ls[i]).1 == cid {
        Some(ls[choose|i: int| 0 <= i < ls.len() && (#[trigger] ls[i]).1 == cid])
    } else {
        None
    }
}

/// The address a client last held, if the history knows it.
pub open spec fn history_of(hs: Seq<HistoryModel>, cid: Seq<u8>) -> Option<u32> {
    if exists|i: int| 0 <= i < hs.len() && (#[trigger] hs[i]).0 == cid {
        Some(hs[choose|i: int| 0 <= i < hs.len() && (#[trigger] hs[i]).0 == cid].1)
    } else {
        None
    }
}

/// The numerically lowest candidate that no unexpired lease holds.
pub open spec fn lowest_free(cands: Seq<u32>, ls: Seq<LeaseModel>, now: u64) -> Option<u32>
    decreases cands.len(),
{
    if cands.len() == 0 {
        None
    } else {
        let m = lowest_free(cands.drop_last(), ls, now);
        let c = cands.last();
        if allocated(ls, c, now) {
            m
        } else {
            match m {
                Some(x) => if x <= c {
                    Some(x)
                } else {
                    Some(c)
                },
                None => Some(c),
            }
        }
    }
}

/// The address that `allocate` hands out: the client's unexpired lease among
/// the candidates; else the requested candidate, if free or the client's;
/// else the client's previous candidate, if free; else the lowest free one.
pub open spec fn chosen_address(
    ls: Seq<LeaseModel>,
    hs: Seq<HistoryModel>,
    cid: Seq<u8>,
    requested: Option<u32>,
    cands: Seq<u32>,
    now: u64,
) -> Option<u32> {
    if client_row(ls, cid) matches Some(l) && l.2 > now && cands.contains(l.0) {
        Some(client_row(ls, cid)->Some_0.0)
    } else if requested matches Some(r) && cands.contains(r) && (!allocated(ls, r, now) || (
    client_row(ls, cid) matches Some(l) && l.0 == r && l.2 > now)) {
        requested
    } else if history_of(hs, cid) matches Some(h) && cands.contains(h) && !allocated(ls, h, now) {
        history_of(hs, cid)
    } else {
        lowest_free(cands, ls, now)
    }
}

/// The rows of `ls` that hold neither `ip` nor belong to `cid`, in order.
pub open spec fn lease_rows_without(ls: Seq<LeaseModel>, ip: u32, cid: Seq<u8>) -> Seq<LeaseModel>
    decreases ls.len(),
{
    if ls.len() == 0 {
        ls
    } else {
        let w = lease_rows_without(ls.drop_last(), ip, cid);
        if ls.last().0 != ip && ls.last().1 != cid {
            w.push(ls.last())
        } else {
            w
        }
    }
}

/// The rows of `hs` that do not belong to `cid`, in order.
pub open spec fn history_rows_without(hs: Seq<HistoryModel>, cid: Seq<u8>) -> Seq<HistoryModel>
    decreases hs.len(),
{
    if hs.len() == 0 {
        hs
    } else {
        let w = history_rows_without(hs.drop_last(), cid);
        if hs.last().0 != cid {
            w.push(hs.last())
        } else {
            w
        }
    }
}

/// `a + b`, or the largest `u64` where the sum does not fit.
pub open spec fn saturating_sum(a: u64, b: u64) -> u64 {
    if a + b > u64::MAX {
        u64::MAX
    } else {
        (a + b) as u64
    }
}

/// The lease table after `cid` took `ip` until `expire`.
pub open spec fn leases_after(ls: Seq<LeaseModel>, ip: u32, cid: Seq<u8>, expire: u64) -> Seq<
    LeaseModel,
> {
    lease_rows_without(ls, ip, cid).push((ip, cid, expire))
}

/// The history table after `cid` took `ip`.
pub open spec fn history_after(hs: Seq<HistoryModel>, cid: Seq<u8>, ip: u32) -> Seq<HistoryModel> {
    history_rows_without(hs, cid).push((cid, ip))
}

/// Lease time: the default, capped by `maxlease` and raised to `minlease`.
pub open spec fn lease_secs(minlease: Option<u64>, maxlease: Option<u64>) -> u64 {
    let capped = match maxlease {
        Some(m) => if m < DEFAULT_LEASE_SECS {
            m
        } else {
            DEFAULT_LEASE_SECS
        },
        None => DEFAULT_LEASE_SECS,
    };
    match minlease {
        Some(m) => if m > capped {
            m
        } else {
            capped
        },
        None => capped,
    }
}

/// Lease time: the default, capped by `maxlease` and raised to `minlease`.
pub fn lease_duration(minlease: Option<u64>, maxlease: Option<u64>) -> (r: u64)
    ensures
        r == lease_secs(minlease, maxlease),
{
    let capped = match maxlease {
        Some(m) => if m < DEFAULT_LEASE_SECS {
            m
        } else {
            DEFAULT_LEASE_SECS
        },
        None => DEFAULT_LEASE_SECS,
    };
    match minlease {
        Some(m) => if m > capped {
            m
        } else {
            capped
        },
        None => capped,
    }
}

impl Pool {
    pub closed spec fn leases_view(&self) -> Seq<LeaseModel> {
        self.leases@.map_values(|l: LeaseRow| lease_view(l))
    }

    pub closed spec fn history_view(&self) -> Seq<HistoryModel> {
        self.history@.map_values(|h: HistoryRow| history_view(h))
    }

    pub open spec fn wf(&self) -> bool {
        tables_wf(self.leases_view(), self.history_view())
    }

    /// An empty pool held in memory.
    pub fn new_in_memory() -> (r: Pool)
        ensures
            r.wf(),
            r.leases_view().len() == 0,
            r.history_view().len() == 0,
    {
        let r = Pool { leases: Vec::new(), history: Vec::new() };
        assert(r.leases_view().len() == 0);
        assert(r.history_view().len() == 0);
        r
    }
}

proof fn lemma_lease_rows_without(ls: Seq<LeaseModel>, ip: u32, cid: Seq<u8>)
    requires
        forall|i: int, j: int|
            0 <= i < ls.len() && 0 <= j < ls.len() && i != j ==> (#[trigger] ls[i]).0 != (
            #[trigger] ls[j]).0 && ls[i].1 != ls[j].1,
    ensures
        ({
            let w = lease_rows_without(ls, ip, cid);
            &&& forall|k: int|
                0 <= k < w.len() ==> (#[trigger] w[k]).0 != ip && w[k].1 != cid && ls.contains(
                    w[k],
                )
            &&& forall|i: int, j: int|
                0 <= i < w.len() && 0 <= j < w.len() && i != j ==> (#[trigger] w[i]).0 != (
                #[trigger] w[j]).0 && w[i].1 != w[j].1
        }),
    decreases ls.len(),
{
    if ls.len() > 0 {
        let d = ls.drop_last();
        lemma_lease_rows_without(d, ip, cid);
        let w0 = lease_rows_without(d, ip, cid);
        let w = lease_rows_without(ls, ip, cid);
        assert forall|k: int| 0 <= k < w0.len() implies ls.contains(#[trigger] w0[k]) by {
            let j = choose|j: int| 0 <= j < d.len() && d[j] == w0[k];
            assert(ls[j] == w0[k]);
        }
        if ls.last().0 != ip && ls.last().1 != cid {
            assert forall|k: int| 0 <= k < w0.len() implies (#[trigger] w0[k]).0 != ls.last().0
                && w0[k].1 != ls.last().1 by {
                let j = choose|j: int| 0 <= j < d.len() && d[j] == w0[k];
                assert(ls[j] == w0[k]);
                assert(ls[ls.len() - 1] == ls.last());
            }
            assert(ls[ls.len() - 1] == ls.last());
        }
    }
}

proof fn lemma_history_rows_without(hs: Seq<HistoryModel>, cid: Seq<u8>)
    requires
        forall|i: int, j: int|
            0 <= i < hs.len() && 0 <= j < hs.len() && i != j ==> (#[trigger] hs[i]).0 != (
            #[trigger] hs[j]).0,
    ensures
        ({
            let w = history_rows_without(hs, cid);
            &&& forall|k: int| 0 <= k < w.len() ==> (#[trigger] w[k]).0 != cid && hs.contains(w[k])
            &&& forall|i: int, j: int|
                0 <= i < w.len() && 0 <= j < w.len() && i != j ==> (#[trigger] w[i]).0 != (
                #[trigger] w[j]).0
        }),
    decreases hs.len(),
{
    if hs.len() > 0 {
        let d = hs.drop_last();
        lemma_history_rows_without(d, cid);
        let w0 = history_rows_without(d, cid);
        assert forall|k: int| 0 <= k < w0.len() implies hs.contains(#[trigger] w0[k]) by {
            let j = choose|j: int| 0 <= j < d.len() && d[j] == w0[k];
            assert(hs[j] == w0[k]);
        }
        if hs.last().0 != cid {
            assert forall|k: int| 0 <= k < w0.len() implies (#[trigger] w0[k]).0 != hs.last().0 by {
                let j = choose|j: int| 0 <= j < d.len() && d[j] == w0[k];
                assert(hs[j] == w0[k]);
                assert(hs[hs.len() - 1] == hs.last());
            }
        }
    }
}

/// The tables stay well formed when a client takes an address.
proof fn lemma_tables_after(
    ls: Seq<LeaseModel>,
    hs: Seq<HistoryModel>,
    ip: u32,
    cid: Seq<u8>,
    expire: u64,
)
    requires
        tables_wf(ls, hs),
    ensures
        tables_wf(leases_after(ls, ip, cid, expire), history_after(hs, cid, ip)),
        client_row(leases_after(ls, ip, cid, expire), cid) == Some((ip, cid, expire)),
        history_of(history_after(hs, cid, ip), cid) == Some(ip),
{
    lemma_lease_rows_without(ls, ip, cid);
    lemma_history_rows_without(hs, cid);
    let l2 = leases_after(ls, ip, cid, expire);
    let h2 = history_after(hs, cid, ip);
    let n = l2.len() - 1;
    assert(l2[n] == (ip, cid, expire));
    assert forall|i: int| 0 <= i < l2.len() && (#[trigger] l2[i]).1 == cid implies i == n by {
        if i < n {
            assert(l2[i] == lease_rows_without(ls, ip, cid)[i]);
        }
    }
    let m = h2.len() - 1;
    assert(h2[m] == (cid, ip));
    assert forall|i: int| 0 <= i < h2.len() && (#[trigger] h2[i]).0 == cid implies i == m by {
        if i < m {
            assert(h2[i] == history_rows_without(hs, cid)[i]);
        }
    }
}

proof fn lemma_lowest_free(cands: Seq<u32>, ls: Seq<LeaseModel>, now: u64)
    ensures
        match lowest_free(cands, ls, now) {
            Some(x) => cands.contains(x) && !allocated(ls, x, now) && forall|i: int|
                0 <= i < cands.len() && !allocated(ls, #[trigger] cands[i], now) ==> x <= cands[i],
            None => forall|i: int| 0 <= i < cands.len() ==> allocated(ls, #[trigger] cands[i], now),
        },
    decreases cands.len(),
{
    if cands.len() > 0 {
        let d = cands.drop_last();
        let n = cands.len() - 1;
        let c = cands.last();
        lemma_lowest_free(d, ls, now);
        assert(cands[n] == c);
        assert forall|i: int| 0 <= i < d.len() implies #[trigger] d[i] == cands[i] by {}
        let m = lowest_free(d, ls, now);
        let r = lowest_free(cands, ls, now);
        if let Some(x) = m {
            let j = choose|j: int| 0 <= j < d.len() && d[j] == x;
            assert(cands[j] == x);
        }
        if let Some(y) = r {
            assert(cands.contains(y));
            assert(!allocated(ls, y, now));
            assert forall|i: int|
                0 <= i < cands.len() && !allocated(ls, #[trigger] cands[i], now) implies y
                <= cands[i] by {
                if i < n {
                    assert(d[i] == cands[i]);
                }
            }
        } else {
            assert forall|i: int| 0 <= i < cands.len() implies allocated(
                ls,
                #[trigger] cands[i],
                now,
            ) by {
                if i < n {
                    assert(d[i] == cands[i]);
                }
            }
        }
    }
}

/// The address that `allocate_address` hands out is one of the candidates.
pub proof fn lemma_chosen_is_candidate(
    ls: Seq<LeaseModel>,
    hs: Seq<HistoryModel>,
    cid: Seq<u8>,
    requested: Option<u32>,
    cands: Seq<u32>,
    now: u64,
)
    ensures
        chosen_address(ls, hs, cid, requested, cands, now) matches Some(ip) ==> cands.contains(ip),
{
    lemma_lowest_free(cands, ls, now);
}

/// While the lease that `allocate_address` handed out is unexpired, the same
/// client gets the same address again from the same candidates, whatever it
/// requests.
pub proof fn lemma_allocate_sticky(
    ls: Seq<LeaseModel>,
    hs: Seq<HistoryModel>,
    cid: Seq<u8>,
    requested: Option<u32>,
    cands: Seq<u32>,
    now: u64,
    duration: u64,
    requested2: Option<u32>,
    now2: u64,
)
    requires
        tables_wf(ls, hs),
        chosen_address(ls, hs, cid, requested, cands, now) is Some,
        now <= now2 < saturating_sum(now, duration),
    ensures
        ({
            let ip = chosen_address(ls, hs, cid, requested, cands, now)->Some_0;
            let exp = saturating_sum(now, duration);
            chosen_address(
                leases_after(ls, ip, cid, exp),
                history_after(hs, cid, ip),
                cid,
                requested2,
                cands,
                now2,
            ) == Some(ip)
        }),
{
    let ip = chosen_address(ls, hs, cid, requested, cands, now)->Some_0;
    lemma_chosen_is_candidate(ls, hs, cid, requested, cands, now);
    lemma_tables_after(ls, hs, ip, cid, saturating_sum(now, duration));
}

/// No two distinct rows of a well-formed lease table hold the same address,
/// so no two unexpired leases share one.
pub proof fn lemma_unexpired_leases_distinct(p: Pool, now: u64, i: int, j: int)
    requires
        p.wf(),
        0 <= i < p.leases_view().len(),
        0 <= j < p.leases_view().len(),
        i != j,
        p.leases_view()[i].2 > now,
        p.leases_view()[j].2 > now,
    ensures
        p.leases_view()[i].0 != p.leases_view()[j].0,
{
}

fn copy_lease_row(l: &LeaseRow) -> (r: LeaseRow)
    ensures
        lease_view(r) == lease_view(*l),
{
    LeaseRow {
        ip: l.ip,
        client_id: copy_bytes(l.client_id.as_slice(), 0, l.client_id.len()),
        expire: l.expire,
    }
}

impl Pool {
    fn client_index(&self, cid: &[u8]) -> (r: Option<usize>)
        requires
            self.wf(),
        ensures
            match r {
                Some(i) => i < self.leases_view().len() && self.leases_view()[i as int].1 == cid@
                    && client_row(self.leases_view(), cid@) == Some(self.leases_view()[i as int]),
                None => client_row(self.leases_view(), cid@) is None,
            },
    {
        let ghost v = self.leases_view();
        let mut i: usize = 0;
        while i < self.leases.len()
            invariant
                v == self.leases_view(),
                self.wf(),
                i <= v.len(),
                forall|j: int| 0 <= j < i ==> (#[trigger] v[j]).1 != cid@,
            decreases v.len() - i,
        {
            assert(v[i as int] == lease_view(self.leases@[i as int]));
            if bytes_eq(self.leases[i].client_id.as_slice(), cid) {
                let ghost k = choose|k: int| 0 <= k < v.len() && (#[trigger] v[k]).1 == cid@;
                assert(k == i);
                return Some(i);
            }
            i = i + 1;
        }
        None
    }

    fn is_allocated(&self, ip: u32, now: u64) -> (r: bool)
        ensures
            r == allocated(self.leases_view(), ip, now),
    {
        let ghost v = self.leases_view();
        let mut i: usize = 0;
        while i < self.leases.len()
            invariant
                v == self.leases_view(),
                i <= v.len(),
                forall|j: int| 0 <= j < i ==> !((#[trigger] v[j]).0 == ip && v[j].2 > now),
            decreases v.len() - i,
        {
            assert(v[i as int] == lease_view(self.leases@[i as int]));
            if self.leases[i].ip == ip && self.leases[i].expire > now {
                return true;
            }
            i = i + 1;
        }
        false
    }

    fn previous_address(&self, cid: &[u8]) -> (r: Option<u32>)
        requires
            self.wf(),
        ensures
            r == history_of(self.history_view(), cid@),
    {
        let ghost v = self.history_view();
        let mut i: usize = 0;
        while i < self.history.len()
            invariant
                v == self.history_view(),
                self.wf(),
                i <= v.len(),
                forall|j: int| 0 <= j < i ==> (#[trigger] v[j]).0 != cid@,
            decreases v.len() - i,
        {
            assert(v[i as int] == history_view(self.history@[i as int]));
            if bytes_eq(self.history[i].client_id.as_slice(), cid) {
                let ghost k = choose|k: int| 0 <= k < v.len() && (#[trigger] v[k]).0 == cid@;
                assert(k == i);
                return Some(self.history[i].ip);
            }
            i = i + 1;
        }
        None
    }

    fn lowest_free_address(&self, cands: &Vec<u32>, now: u64) -> (r: Option<u32>)
        ensures
            r == lowest_free(cands@, self.leases_view(), now),
    {
        let mut best: Option<u32> = None;
        let mut i: usize = 0;
        while i < cands.len()
            invariant
                i <= cands@.len(),
                best == lowest_free(cands@.subrange(0, i as int), self.leases_view(), now),
            decreases cands@.len() - i,
        {
            let c = cands[i];
            assert(cands@.subrange(0, i + 1).drop_last() =~= cands@.subrange(0, i as int));
            if !self.is_allocated(c, now) {
                best = match best {
                    Some(x) => if x <= c {
                        Some(x)
                    } else {
                        Some(c)
                    },
                    None => Some(c),
                };
            }
            i = i + 1;
        }
        assert(cands@.subrange(0, i as int) =~= cands@);
        best
    }

    fn take_address(&mut self, ip: u32, cid: &[u8], expire: u64)
        requires
            old(self).wf(),
        ensures
            final(self).wf(),
            final(self).leases_view() == leases_after(old(self).leases_view(), ip, cid@, expire),
            final(self).history_view() == history_after(old(self).history_view(), cid@, ip),
    {
        let ghost lv = self.leases_view();
        let ghost hv = self.history_view();
        proof {
            lemma_tables_after(lv, hv, ip, cid@, expire);
        }
        let mut leases: Vec<LeaseRow> = Vec::new();
        let mut i: usize = 0;
        while i < self.leases.len()
            invariant
                lv == self.leases_view(),
                i <= lv.len(),
                leases@.map_values(|l: LeaseRow| lease_view(l)) == lease_rows_without(
                    lv.subrange(0, i as int),
                    ip,
                    cid@,
                ),
            decreases lv.len() - i,
        {
            assert(lv[i as int] == lease_view(self.leases@[i as int]));
            assert(lv.subrange(0, i + 1).drop_last() =~= lv.subrange(0, i as int));
            let row = &self.leases[i];
            if row.ip != ip && !bytes_eq(row.client_id.as_slice(), cid) {
                leases.push(copy_lease_row(row));
                assert(leases@.map_values(|l: LeaseRow| lease_view(l)) =~= lease_rows_without(
                    lv.subrange(0, i as int),
                    ip,
                    cid@,
                ).push(lv[i as int]));
            }
            i = i + 1;
        }
        assert(lv.subrange(0, i as int) =~= lv);
        leases.push(
            LeaseRow { ip, client_id: copy_bytes(cid, 0, cid.len()), expire },
        );
        assert(cid@.subrange(0, cid@.len() as int) =~= cid@);
        assert(leases@.map_values(|l: LeaseRow| lease_view(l)) =~= leases_after(
            lv,
            ip,
            cid@,
            expire,
        ));
        let mut history: Vec<HistoryRow> = Vec::new();
        let mut j: usize = 0;
        while j < self.history.len()
            invariant
                hv == self.history_view(),
                j <= hv.len(),
                history@.map_values(|h: HistoryRow| history_view(h)) == history_rows_without(
                    hv.subrange(0, j as int),
                    cid@,
                ),
            decreases hv.len() - j,
        {
            assert(hv[j as int] == history_view(self.history@[j as int]));
            assert(hv.subrange(0, j + 1).drop_last() =~= hv.subrange(0, j as int));
            let row = &self.history[j];
            if !bytes_eq(row.client_id.as_slice(), cid) {
                history.push(
                    HistoryRow {
                        client_id: copy_bytes(row.client_id.as_slice(), 0, row.client_id.len()),
                        ip: row.ip,
                    },
                );
                assert(row.client_id@.subrange(0, row.client_id@.len() as int)
                    =~= row.client_id@);
                assert(history@.map_values(|h: HistoryRow| history_view(h))
                    =~= history_rows_without(hv.subrange(0, j as int), cid@).push(hv[j as int]));
            }
            j = j + 1;
        }
        assert(hv.subrange(0, j as int) =~= hv);
        history.push(HistoryRow { client_id: copy_bytes(cid, 0, cid.len()), ip });
        assert(history@.map_values(|h: HistoryRow| history_view(h)) =~= history_after(
            hv,
            cid@,
            ip,
        ));
        self.leases = leases;
        self.history = history;
    }

    /// Hands `client_id` an address from `candidates` until `now + duration`
    /// (see `chosen_address`), or fails when every candidate is held by
    /// another client and the pool is left unchanged.
    pub fn allocate_address(
        &mut self,
        client_id: &[u8],
        requested: Option<u32>,
        candidates: &Vec<u32>,
        now: u64,
        duration: u64,
    ) -> (r: Result<Lease, PoolError>)
        requires
            old(self).wf(),
        ensures
            final(self).wf(),
            match chosen_address(
                old(self).leases_view(),
                old(self).history_view(),
                client_id@,
                requested,
                candidates@,
                now,
            ) {
                Some(ip) => {
                    &&& r matches Ok(l) && l.ip == ip && l.client_id@ == client_id@ && l.expire
                        == duration
                    &&& final(self).leases_view() == leases_after(
                        old(self).leases_view(),
                        ip,
                        client_id@,
                        saturating_sum(now, duration),
                    )
                    &&& final(self).history_view() == history_after(
                        old(self).history_view(),
                        client_id@,
                        ip,
                    )
                },
                None => r == Err::<Lease, PoolError>(PoolError::NoAssignableAddress)
                    && final(self).leases_view() == old(self).leases_view()
                    && final(self).history_view() == old(self).history_view(),
            },
    {
        let ghost ls = self.leases_view();
        let mut chosen: Option<u32> = None;
        let current = self.client_index(client_id);
        if let Some(i) = current {
            assert(ls[i as int] == lease_view(self.leases@[i as int]));
            let ip = self.leases[i].ip;
            if self.leases[i].expire > now && vec_contains(candidates, ip) {
                chosen = Some(ip);
            }
        }
        if chosen.is_none() {
            if let Some(r) = requested {
                if vec_contains(candidates, r) {
                    let mine = match current {
                        Some(i) => self.leases[i].ip == r && self.leases[i].expire > now,
                        None => false,
                    };
                    if mine || !self.is_allocated(r, now) {
                        chosen = Some(r);
                    }
                }
            }
        }
        if chosen.is_none() {
            if let Some(h) = self.previous_address(client_id) {
                if vec_contains(candidates, h) && !self.is_allocated(h, now) {
                    chosen = Some(h);
                }
            }
        }
        if chosen.is_none() {
            chosen = self.lowest_free_address(candidates, now);
        }
        match chosen {
            Some(ip) => {
                let expire: u64 = if now > u64::MAX - duration {
                    u64::MAX
                } else {
                    now + duration
                };
                self.take_address(ip, client_id, expire);
                Ok(
                    Lease {
                        ip,
                        client_id: copy_bytes(client_id, 0, client_id.len()),
                        expire: duration,
                    },
                )
            },
            None => Err(PoolError::NoAssignableAddress),
        }
    }
}

impl Pool {
    /// A copy of the lease table.
    pub fn lease_rows(&self) -> (r: Vec<LeaseRow>)
        ensures
            r@.map_values(|l: LeaseRow| lease_view(l)) == self.leases_view(),
    {
        let mut r: Vec<LeaseRow> = Vec::new();
        let mut i: usize = 0;
        while i < self.leases.len()
            invariant
                i <= self.leases@.len(),
                r@.map_values(|l: LeaseRow| lease_view(l)) == self.leases_view().subrange(
                    0,
                    i as int,
                ),
            decreases self.leases@.len() - i,
        {
            assert(self.leases_view()[i as int] == lease_view(self.leases@[i as int]));
            let ghost prev = r@;
            let row = copy_lease_row(&self.leases[i]);
            r.push(row);
            assert(r@ == prev.push(row));
            assert(r@.map_values(|l: LeaseRow| lease_view(l)) =~= prev.map_values(
                |l: LeaseRow| lease_view(l),
            ).push(lease_view(row)));
            i = i + 1;
            assert(r@.map_values(|l: LeaseRow| lease_view(l)) =~= self.leases_view().subrange(
                0,
                i as int,
            ));
        }
        assert(self.leases_view().subrange(0, i as int) =~= self.leases_view());
        r
    }

    /// A copy of the history table.
    pub fn history_rows(&self) -> (r: Vec<HistoryRow>)
        ensures
            r@.map_values(|h: HistoryRow| history_view(h)) == self.history_view(),
    {
        let mut r: Vec<HistoryRow> = Vec::new();
        let mut i: usize = 0;
        while i < self.history.len()
            invariant
                i <= self.history@.len(),
                r@.map_values(|h: HistoryRow| history_view(h)) == self.history_view().subrange(
                    0,
                    i as int,
                ),
            decreases self.history@.len() - i,
        {
            let row = &self.history[i];
            assert(self.history_view()[i as int] == history_view(self.history@[i as int]));
            let ghost prev = r@;
            let copy = HistoryRow {
                client_id: copy_bytes(row.client_id.as_slice(), 0, row.client_id.len()),
                ip: row.ip,
            };
            r.push(copy);
            assert(r@.map_values(|h: HistoryRow| history_view(h)) =~= prev.map_values(
                |h: HistoryRow| history_view(h),
            ).push(history_view(copy)));
            assert(row.client_id@.subrange(0, row.client_id@.len() as int) =~= row.client_id@);
            i = i + 1;
            assert(r@.map_values(|h: HistoryRow| history_view(h)) =~= self.history_view().subrange(
                0,
                i as int,
            ));
        }
        assert(self.history_view().subrange(0, i as int) =~= self.history_view());
        r
    }

    /// A pool holding the given tables, or `None` when two lease rows share an
    /// address or a client, or two history rows share a client.
    pub fn from_rows(leases: Vec<LeaseRow>, history: Vec<HistoryRow>) -> (r: Option<Pool>)
        ensures
            tables_wf(
                leases@.map_values(|l: LeaseRow| lease_view(l)),
                history@.map_values(|h: HistoryRow| history_view(h)),
            ) <==> r is Some,
            r matches Some(p) ==> p.wf() && p.leases_view() == leases@.map_values(
                |l: LeaseRow| lease_view(l),
            ) && p.history_view() == history@.map_values(|h: HistoryRow| history_view(h)),
    {
        let ghost lv = leases@.map_values(|l: LeaseRow| lease_view(l));
        let ghost hv = history@.map_values(|h: HistoryRow| history_view(h));
        let mut i: usize = 0;
        while i < leases.len()
            invariant
                lv == leases@.map_values(|l: LeaseRow| lease_view(l)),
                i <= lv.len(),
                forall|a: int, b: int|
                    0 <= a < i && 0 <= b < lv.len() && a != b ==> (#[trigger] lv[a]).0 != (
                    #[trigger] lv[b]).0 && lv[a].1 != lv[b].1,
            decreases lv.len() - i,
        {
            let mut j: usize = 0;
            while j < leases.len()
                invariant
                    lv == leases@.map_values(|l: LeaseRow| lease_view(l)),
                    i < lv.len(),
                    j <= lv.len(),
                    forall|a: int, b: int|
                        0 <= a < i && 0 <= b < lv.len() && a != b ==> (#[trigger] lv[a]).0 != (
                        #[trigger] lv[b]).0 && lv[a].1 != lv[b].1,
                    forall|b: int|
                        0 <= b < j && b != i ==> lv[i as int].0 != (#[trigger] lv[b]).0
                            && lv[i as int].1 != lv[b].1,
                decreases lv.len() - j,
            {
                if j != i && (leases[i].ip == leases[j].ip || bytes_eq(
                    leases[i].client_id.as_slice(),
                    leases[j].client_id.as_slice(),
                )) {
                    assert(lv[i as int] == lease_view(leases@[i as int]));
                    assert(lv[j as int] == lease_view(leases@[j as int]));
                    return None;
                }
                assert(lv[i as int] == lease_view(leases@[i as int]));
                assert(lv[j as int] == lease_view(leases@[j as int]));
                j = j + 1;
            }
            i = i + 1;
        }
        let mut i: usize = 0;
        while i < history.len()
            invariant
                hv == history@.map_values(|h: HistoryRow| history_view(h)),
                i <= hv.len(),
                forall|a: int, b: int|
                    0 <= a < i && 0 <= b < hv.len() && a != b ==> (#[trigger] hv[a]).0 != (
                    #[trigger] hv[b]).0,
            decreases hv.len() - i,
        {
            let mut j: usize = 0;
            while j < history.len()
                invariant
                    hv == history@.map_values(|h: HistoryRow| history_view(h)),
                    i < hv.len(),
                    j <= hv.len(),
                    forall|a: int, b: int|
                        0 <= a < i && 0 <= b < hv.len() && a != b ==> (#[trigger] hv[a]).0 != (
                        #[trigger] hv[b]).0,
                    forall|b: int| 0 <= b < j && b != i ==> hv[i as int].0 != (#[trigger] hv[b]).0,
                decreases hv.len() - j,
            {
                assert(hv[i as int] == history_view(history@[i as int]));
                assert(hv[j as int] == history_view(history@[j as int]));
                if j != i && bytes_eq(
                    history[i].client_id.as_slice(),
                    history[j].client_id.as_slice(),
                ) {
                    return None;
                }
                j = j + 1;
            }
            i = i + 1;
        }
        Some(Pool { leases, history })
    }
}

/// Big-endian 64-bit value of eight bytes at `i`.
pub open spec fn be64(b: Seq<u8>, i: int) -> u64 {
    ((b[i] as u64) << 56u64) | ((b[i + 1] as u64) << 48u64) | ((b[i + 2] as u64) << 40u64) | ((b[i
        + 3] as u64) << 32u64) | ((b[i + 4] as u64) << 24u64) | ((b[i + 5] as u64) << 16u64) | ((b[i
        + 6] as u64) << 8u64) | (b[i + 7] as u64)
}

pub open spec fn enc64(x: u64) -> Seq<u8> {
    seq![
        (x >> 56u64) as u8,
        (x >> 48u64) as u8,
        (x >> 40u64) as u8,
        (x >> 32u64) as u8,
        (x >> 24u64) as u8,
        (x >> 16u64) as u8,
        (x >> 8u64) as u8,
        x as u8,
    ]
}

/// Tag of a stored lease row.
pub const RECORD_LEASE: u8 = 0x4c;
/// Tag of a stored history row.
pub const RECORD_HISTORY: u8 = 0x48;
/// Bytes before a stored client id: tag, address, expiry, id length.
pub const RECORD_HEADER: usize = 21;

/// One stored row: tag, address, expiry (zero for history), the length of
/// the client id and the client id, numbers big-endian.
pub open spec fn record(tag: u8, ip: u32, expire: u64, cid: Seq<u8>) -> Seq<u8> {
    seq![tag] + enc32(ip) + enc64(expire) + enc64(cid.len() as u64) + cid
}

pub open spec fn lease_records(ls: Seq<LeaseModel>) -> Seq<u8>
    decreases ls.len(),
{
    if ls.len() == 0 {
        Seq::empty()
    } else {
        lease_records(ls.drop_last()) + record(
            RECORD_LEASE,
            ls.last().0,
            ls.last().2,
            ls.last().1,
        )
    }
}

pub open spec fn history_records(hs: Seq<HistoryModel>) -> Seq<u8>
    decreases hs.len(),
{
    if hs.len() == 0 {
        Seq::empty()
    } else {
        history_records(hs.drop_last()) + record(RECORD_HISTORY, hs.last().1, 0, hs.last().0)
    }
}

/// The stored form of the tables: the lease rows, then the history rows.
pub open spec fn stored(ls: Seq<LeaseModel>, hs: Seq<HistoryModel>) -> Seq<u8> {
    lease_records(ls) + history_records(hs)
}

/// The rows that stored bytes hold, in order, or `None` when a record is
/// cut short or has an unknown tag.
pub open spec fn stored_rows(b: Seq<u8>) -> Option<(Seq<LeaseModel>, Seq<HistoryModel>)>
    decreases b.len(),
{
    if b.len() == 0 {
        Some((Seq::empty(), Seq::empty()))
    } else if b.len() < RECORD_HEADER || (b[0] != RECORD_LEASE && b[0] != RECORD_HISTORY) {
        None
    } else {
        let n = be64(b, 13);
        if b.len() - RECORD_HEADER < n {
            None
        } else {
            let cid = b.subrange(21, 21 + n);
            match stored_rows(b.subrange(21 + n, b.len() as int)) {
                Some((ls, hs)) => if b[0] == RECORD_LEASE {
                    Some((seq![(be32(b[1], b[2], b[3], b[4]), cid, be64(b, 5))] + ls, hs))
                } else {
                    Some((ls, seq![(cid, be32(b[1], b[2], b[3], b[4]))] + hs))
                },
                None => None,
            }
        }
    }
}

fn push_u64(out: &mut Vec<u8>, x: u64)
    ensures
        final(out)@ == old(out)@ + enc64(x),
{
    out.push((x >> 56u64) as u8);
    out.push((x >> 48u64) as u8);
    out.push((x >> 40u64) as u8);
    out.push((x >> 32u64) as u8);
    out.push((x >> 24u64) as u8);
    out.push((x >> 16u64) as u8);
    out.push((x >> 8u64) as u8);
    out.push(x as u8);
    assert(out@ =~= old(out)@ + enc64(x));
}

fn push_record(out: &mut Vec<u8>, tag: u8, ip: u32, expire: u64, cid: &[u8])
    ensures
        final(out)@ == old(out)@ + record(tag, ip, expire, cid@),
{
    out.push(tag);
    out.push((ip >> 24u32) as u8);
    out.push((ip >> 16u32) as u8);
    out.push((ip >> 8u32) as u8);
    out.push(ip as u8);
    push_u64(out, expire);
    push_u64(out, cid.len() as u64);
    crate::packet::push_bytes(out, cid, 0, cid.len());
    assert(cid@.subrange(0, cid@.len() as int) =~= cid@);
    assert(out@ =~= old(out)@ + record(tag, ip, expire, cid@));
}

fn read_u64(b: &[u8], i: usize) -> (r: u64)
    requires
        i + 8 <= b@.len(),
    ensures
        r == be64(b@, i as int),
{
    ((b[i] as u64) << 56u64) | ((b[i + 1] as u64) << 48u64) | ((b[i + 2] as u64) << 40u64) | ((b[i
        + 3] as u64) << 32u64) | ((b[i + 4] as u64) << 24u64) | ((b[i + 5] as u64) << 16u64) | ((b[i
        + 6] as u64) << 8u64) | (b[i + 7] as u64)
}

impl Pool {
    /// The stored form of the pool.
    pub fn to_bytes(&self) -> (r: Vec<u8>)
        ensures
            r@ == stored(self.leases_view(), self.history_view()),
    {
        let mut out: Vec<u8> = Vec::new();
        let mut i: usize = 0;
        while i < self.leases.len()
            invariant
                i <= self.leases@.len(),
                out@ == lease_records(self.leases_view().subrange(0, i as int)),
            decreases self.leases@.len() - i,
        {
            let row = &self.leases[i];
            assert(self.leases_view()[i as int] == lease_view(self.leases@[i as int]));
            assert(self.leases_view().subrange(0, i + 1).drop_last() =~= self.leases_view().subrange(
                0,
                i as int,
            ));
            push_record(&mut out, RECORD_LEASE, row.ip, row.expire, row.client_id.as_slice());
            i = i + 1;
        }
        assert(self.leases_view().subrange(0, i as int) =~= self.leases_view());
        let ghost base = out@;
        let mut j: usize = 0;
        while j < self.history.len()
            invariant
                j <= self.history@.len(),
                base == lease_records(self.leases_view()),
                out@ == base + history_records(self.history_view().subrange(0, j as int)),
            decreases self.history@.len() - j,
        {
            let row = &self.history[j];
            assert(self.history_view()[j as int] == history_view(self.history@[j as int]));
            assert(self.history_view().subrange(0, j + 1).drop_last()
                =~= self.history_view().subrange(0, j as int));
            let ghost pre = out@;
            push_record(&mut out, RECORD_HISTORY, row.ip, 0, row.client_id.as_slice());
            assert(out@ =~= base + history_records(self.history_view().subrange(0, j + 1)));
            j = j + 1;
        }
        assert(self.history_view().subrange(0, j as int) =~= self.history_view());
        out
    }

    /// The pool that stored bytes hold, or `None` when they are not a
    /// sequence of whole records, or hold a repeated address or client.
    pub fn from_bytes(b: &[u8]) -> (r: Option<Pool>)
        ensures
            match stored_rows(b@) {
                Some((ls, hs)) => (tables_wf(ls, hs) <==> r is Some) && (r matches Some(p) ==> p.wf()
                    && p.leases_view() == ls && p.history_view() == hs),
                None => r is None,
            },
    {
        let n = b.len();
        let mut leases: Vec<LeaseRow> = Vec::new();
        let mut history: Vec<HistoryRow> = Vec::new();
        let mut i: usize = 0;
        proof {
            assert(b@.subrange(0, n as int) =~= b@);
            assert(leases@.map_values(|l: LeaseRow| lease_view(l)) =~= Seq::<LeaseModel>::empty());
            assert(history@.map_values(|h: HistoryRow| history_view(h)) =~= Seq::<
                HistoryModel,
            >::empty());
            if let Some((ls, hs)) = stored_rows(b@) {
                assert(Seq::<LeaseModel>::empty() + ls =~= ls);
                assert(Seq::<HistoryModel>::empty() + hs =~= hs);
            }
        }
        while i < n
            invariant
                i <= n == b@.len(),
                stored_rows(b@) == match stored_rows(b@.subrange(i as int, n as int)) {
                    Some((ls, hs)) => Some(
                        (
                            leases@.map_values(|l: LeaseRow| lease_view(l)) + ls,
                            history@.map_values(|h: HistoryRow| history_view(h)) + hs,
                        ),
                    ),
                    None => None,
                },
            decreases n - i,
        {
            let ghost rest = b@.subrange(i as int, n as int);
            let ghost lv = leases@.map_values(|l: LeaseRow| lease_view(l));
            let ghost hv = history@.map_values(|h: HistoryRow| history_view(h));
            if n - i < RECORD_HEADER || (b[i] != RECORD_LEASE && b[i] != RECORD_HISTORY) {
                return None;
            }
            let len = read_u64(b, i + 13);
            assert(be64(rest, 13) == be64(b@, i + 13));
            if ((n - i - RECORD_HEADER) as u64) < len {
                return None;
            }
            let cidlen = len as usize;
            let ip = ((b[i + 1] as u32) << 24u32) | ((b[i + 2] as u32) << 16u32) | ((b[i + 3] as u32)
                << 8u32) | (b[i + 4] as u32);
            let cid = copy_bytes(b, i + 21, i + 21 + cidlen);
            assert(cid@ =~= rest.subrange(21, 21 + cidlen));
            assert(rest.subrange(21 + cidlen, rest.len() as int) =~= b@.subrange(
                i + 21 + cidlen,
                n as int,
            ));
            if b[i] == RECORD_LEASE {
                let expire = read_u64(b, i + 5);
                assert(be64(rest, 5) == be64(b@, i + 5));
                let row = LeaseRow { ip, client_id: cid, expire };
                leases.push(row);
                proof {
                    assert(leases@.map_values(|l: LeaseRow| lease_view(l)) =~= lv.push(
                        lease_view(row),
                    ));
                    if let Some((ls, hs)) = stored_rows(b@.subrange(i + 21 + cidlen, n as int)) {
                        assert(lv + (seq![lease_view(row)] + ls) =~= lv.push(lease_view(row)) + ls);
                    }
                }
            } else {
                let row = HistoryRow { client_id: cid, ip };
                history.push(row);
                proof {
                    assert(history@.map_values(|h: HistoryRow| history_view(h)) =~= hv.push(
                        history_view(row),
                    ));
                    if let Some((ls, hs)) = stored_rows(b@.subrange(i + 21 + cidlen, n as int)) {
                        assert(hv + (seq![history_view(row)] + hs) =~= hv.push(history_view(row))
                            + hs);
                    }
                }
            }
            i = i + 21 + cidlen;
        }
        proof {
            let e = b@.subrange(i as int, n as int);
            assert(e.len() == 0);
            let lv = leases@.map_values(|l: LeaseRow| lease_view(l));
            let hv = history@.map_values(|h: HistoryRow| history_view(h));
            assert(lv + Seq::<LeaseModel>::empty() =~= lv);
            assert(hv + Seq::<HistoryModel>::empty() =~= hv);
        }
        Pool::from_rows(leases, history)
    }
}

proof fn lemma_be64_roundtrip(x: u64)
    ensures
        be64(enc64(x), 0) == x,
{
    let b = enc64(x);
    assert(((((x >> 56u64) as u8) as u64) << 56u64) | ((((x >> 48u64) as u8) as u64) << 48u64) | ((
    ((x >> 40u64) as u8) as u64) << 40u64) | ((((x >> 32u64) as u8) as u64) << 32u64) | ((((x
        >> 24u64) as u8) as u64) << 24u64) | ((((x >> 16u64) as u8) as u64) << 16u64) | ((((x
        >> 8u64) as u8) as u64) << 8u64) | ((x as u8) as u64) == x) by (bit_vector);
}

/// The first record of `record(..) + rest` decodes to its fields.
proof fn lemma_record_first(tag: u8, ip: u32, expire: u64, cid: Seq<u8>, rest: Seq<u8>)
    requires
        tag == RECORD_LEASE || tag == RECORD_HISTORY,
        cid.len() <= u64::MAX,
    ensures
        ({
            let b = record(tag, ip, expire, cid) + rest;
            &&& b.len() >= RECORD_HEADER
            &&& b[0] == tag
            &&& be32(b[1], b[2], b[3], b[4]) == ip
            &&& be64(b, 5) == expire
            &&& be64(b, 13) == cid.len()
            &&& b.subrange(21, 21 + cid.len() as int) == cid
            &&& b.subrange(21 + cid.len() as int, b.len() as int) == rest
        }),
{
    let b = record(tag, ip, expire, cid) + rest;
    crate::packet::lemma_be32_roundtrip(ip);
    lemma_be64_roundtrip(expire);
    lemma_be64_roundtrip(cid.len() as u64);
    assert(b.subrange(5, 13) =~= enc64(expire));
    assert(be64(b, 5) == be64(b.subrange(5, 13), 0));
    assert(b.subrange(13, 21) =~= enc64(cid.len() as u64));
    assert(be64(b, 13) == be64(b.subrange(13, 21), 0));
    assert(b.subrange(21, 21 + cid.len() as int) =~= cid);
    assert(b.subrange(21 + cid.len() as int, b.len() as int) =~= rest);
}

proof fn lemma_stored_rows_record(tag: u8, ip: u32, expire: u64, cid: Seq<u8>, rest: Seq<u8>)
    requires
        tag == RECORD_LEASE || tag == RECORD_HISTORY,
        cid.len() <= u64::MAX,
    ensures
        stored_rows(record(tag, ip, expire, cid) + rest) == match stored_rows(rest) {
            Some((ls, hs)) => if tag == RECORD_LEASE {
                Some((seq![(ip, cid, expire)] + ls, hs))
            } else {
                Some((ls, seq![(cid, ip)] + hs))
            },
            None => None,
        },
{
    lemma_record_first(tag, ip, expire, cid, rest);
}

proof fn lemma_lease_records_front(ls: Seq<LeaseModel>)
    requires
        ls.len() > 0,
    ensures
        lease_records(ls) == record(RECORD_LEASE, ls[0].0, ls[0].2, ls[0].1) + lease_records(
            ls.drop_first(),
        ),
    decreases ls.len(),
{
    if ls.len() == 1 {
        assert(ls.drop_last() =~= Seq::<LeaseModel>::empty());
        assert(ls.drop_first() =~= Seq::<LeaseModel>::empty());
        assert(lease_records(ls.drop_last()) == Seq::<u8>::empty());
        assert(lease_records(ls.drop_first()) == Seq::<u8>::empty());
        assert(ls.last() == ls[0]);
        assert(lease_records(ls) =~= record(RECORD_LEASE, ls[0].0, ls[0].2, ls[0].1)
            + lease_records(ls.drop_first()));
    } else {
        lemma_lease_records_front(ls.drop_last());
        assert(ls.drop_last().drop_first() =~= ls.drop_first().drop_last());
        assert(ls.drop_first().last() == ls.last());
        assert(lease_records(ls) =~= record(RECORD_LEASE, ls[0].0, ls[0].2, ls[0].1)
            + lease_records(ls.drop_first()));
    }
}

proof fn lemma_history_records_front(hs: Seq<HistoryModel>)
    requires
        hs.len() > 0,
    ensures
        history_records(hs) == record(RECORD_HISTORY, hs[0].1, 0, hs[0].0) + history_records(
            hs.drop_first(),
        ),
    decreases hs.len(),
{
    if hs.len() == 1 {
        assert(hs.drop_last() =~= Seq::<HistoryModel>::empty());
        assert(hs.drop_first() =~= Seq::<HistoryModel>::empty());
        assert(history_records(hs.drop_last()) == Seq::<u8>::empty());
        assert(history_records(hs.drop_first()) == Seq::<u8>::empty());
        assert(hs.last() == hs[0]);
        assert(history_records(hs) =~= record(RECORD_HISTORY, hs[0].1, 0, hs[0].0)
            + history_records(hs.drop_first()));
    } else {
        lemma_history_records_front(hs.drop_last());
        assert(hs.drop_last().drop_first() =~= hs.drop_first().drop_last());
        assert(hs.drop_first().last() == hs.last());
        assert(history_records(hs) =~= record(RECORD_HISTORY, hs[0].1, 0, hs[0].0)
            + history_records(hs.drop_first()));
    }
}

proof fn lemma_history_decodes(hs: Seq<HistoryModel>)
    requires
        forall|i: int| 0 <= i < hs.len() ==> (#[trigger] hs[i]).0.len() <= u64::MAX,
    ensures
        stored_rows(history_records(hs)) == Some((Seq::<LeaseModel>::empty(), hs)),
    decreases hs.len(),
{
    if hs.len() == 0 {
    } else {
        lemma_history_records_front(hs);
        let t = hs.drop_first();
        assert forall|i: int| 0 <= i < t.len() implies (#[trigger] t[i]).0.len() <= u64::MAX by {
            assert(t[i] == hs[i + 1]);
        }
        lemma_history_decodes(t);
        assert(hs[0].0.len() <= u64::MAX);
        lemma_stored_rows_record(RECORD_HISTORY, hs[0].1, 0, hs[0].0, history_records(t));
        assert(seq![(hs[0].0, hs[0].1)] + t =~= hs);
    }
}

proof fn lemma_leases_decode(ls: Seq<LeaseModel>, hs: Seq<HistoryModel>)
    requires
        forall|i: int| 0 <= i < ls.len() ==> (#[trigger] ls[i]).1.len() <= u64::MAX,
        forall|i: int| 0 <= i < hs.len() ==> (#[trigger] hs[i]).0.len() <= u64::MAX,
    ensures
        stored_rows(lease_records(ls) + history_records(hs)) == Some((ls, hs)),
    decreases ls.len(),
{
    if ls.len() == 0 {
        assert(lease_records(ls) + history_records(hs) =~= history_records(hs));
        lemma_history_decodes(hs);
        assert(ls =~= Seq::<LeaseModel>::empty());
    } else {
        lemma_lease_records_front(ls);
        let t = ls.drop_first();
        assert forall|i: int| 0 <= i < t.len() implies (#[trigger] t[i]).1.len() <= u64::MAX by {
            assert(t[i] == ls[i + 1]);
        }
        lemma_leases_decode(t, hs);
        assert(ls[0].1.len() <= u64::MAX);
        let a = record(RECORD_LEASE, ls[0].0, ls[0].2, ls[0].1);
        let b = lease_records(t);
        let h = history_records(hs);
        lemma_stored_rows_record(RECORD_LEASE, ls[0].0, ls[0].2, ls[0].1, b + h);
        assert((a + b) + h =~= a + (b + h));
        assert(seq![(ls[0].0, ls[0].1, ls[0].2)] + t =~= ls);
    }
}

/// The stored form of the tables decodes to the same tables, so restoring
/// a saved pool gives back the pool that was saved. (Each client id's length
/// is written as a 64-bit number, so it must fit in one.)
pub proof fn lemma_stored_round_trip(ls: Seq<LeaseModel>, hs: Seq<HistoryModel>)
    requires
        forall|i: int| 0 <= i < ls.len() ==> (#[trigger] ls[i]).1.len() <= u64::MAX,
        forall|i: int| 0 <= i < hs.len() ==> (#[trigger] hs[i]).0.len() <= u64::MAX,
    ensures
        stored_rows(stored(ls, hs)) == Some((ls, hs)),
{
    lemma_leases_decode(ls, hs);
}

fn vec_contains(v: &Vec<u32>, x: u32) -> (r: bool)
    ensures
        r == v@.contains(x),
{
    let mut i: usize = 0;
    while i < v.len()
        invariant
            i <= v@.len(),
            forall|j: int| 0 <= j < i ==> v@[j] != x,
        decreases v@.len() - i,
    {
        if v[i] == x {
            return true;
        }
        i = i + 1;
    }
    false
}

} // verus!
