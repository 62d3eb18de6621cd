//! The server's state and its transitions: the rendezvous registry, the
//! punch-check table, the relay sessions and the outbound queue. Every
//! handler is specified as a step relation between the state before and
//! after, over the spec-level views of the tables.

use vstd::prelude::*;
use vstd::assert_by_contradiction;
use crate::addr::SockAddr;
use crate::data::{FromMiddlemanMsg, FromMsgView, ToMiddlemanMsg};
use crate::serialize::spec_serialize_from;
use crate::UDP_SOCKET_N;

verus! {

/// How long a registration lives without a refresh, in milliseconds.
pub const REGISTER_EXPIRE_TIME: u64 = 60_000;

/// How long a relay session lives without a forwarded packet, in
/// milliseconds.
pub const PROXY_EXPIRE_TIME: u64 = 60_000;

/// How long an unanswered punch probe is remembered, in milliseconds.
pub const PUNCH_CHECK_EXPIRE_TIME: u64 = 60_000;

/// A registered host: its observed public socket and when the registration
/// lapses.
#[derive(Debug, Clone, Copy, PartialEq, Eq, Structural)]
pub struct RdvRemote {
    pub socket_addr: SockAddr,
    pub expiring: u64,
}

impl RdvRemote {
    pub open spec fn spec_expired(&self, now: u64) -> bool {
        now >= self.expiring
    }

    /// Whether the registration has lapsed at `now`.
    pub fn is_expired(&self, now: u64) -> (r: bool)
        ensures
            r == self.spec_expired(now),
    {
        now >= self.expiring
    }
}

/// The first probe of a pending punch-feasibility check.
#[derive(Debug, Clone, Copy, PartialEq, Eq)]
pub struct PunchCheck {
    /// Where the first probe came from, and on which local socket.
    pub first_received: (SockAddr, usize),
    pub id: u32,
    pub expire: u64,
}

impl PunchCheck {
    pub fn new(id: u32, from: (SockAddr, usize), now: u64) -> (r: Self)
        requires
            now + PUNCH_CHECK_EXPIRE_TIME <= u64::MAX,
        ensures
            r == (PunchCheck {
                first_received: from,
                id,
                expire: (now + PUNCH_CHECK_EXPIRE_TIME) as u64,
            }),
    {
        Self { id, expire: now + PUNCH_CHECK_EXPIRE_TIME, first_received: from }
    }

    pub open spec fn spec_expired(&self, now: u64) -> bool {
        now >= self.expire
    }

    /// Whether the pending check has lapsed at `now`.
    pub fn is_expired(&self, now: u64) -> (r: bool)
        ensures
            r == self.spec_expired(now),
    {
        now >= self.expire
    }
}

/// One relay session. `incoming` is the peer that asked for the relay,
/// pinned to the local socket its request arrived on; `outgoing` is the
/// peer we forward to, pinned to a local socket of its own.
#[derive(Debug, Clone, Copy, PartialEq, Eq, Structural)]
pub struct ProxyData {
    /// The peer that asked for the relay.
    pub incoming: SockAddr,
    pub in_socket_n: usize,
    /// The peer we relay to.
    pub outgoing: SockAddr,
    pub out_socket_n: usize,
    pub in_packets: u64,
    pub out_packets: u64,
    pub last_active: u64,
}

impl ProxyData {
    pub fn new(incoming: (SockAddr, usize), outgoing: (SockAddr, usize), now: u64) -> (r: Self)
        ensures
            r == (ProxyData {
                incoming: incoming.0,
                in_socket_n: incoming.1,
                outgoing: outgoing.0,
                out_socket_n: outgoing.1,
                in_packets: 0,
                out_packets: 0,
                last_active: now,
            }),
    {
        Self {
            incoming: incoming.0,
            in_socket_n: incoming.1,
            outgoing: outgoing.0,
            out_socket_n: outgoing.1,
            in_packets: 0,
            out_packets: 0,
            last_active: now,
        }
    }

    pub open spec fn spec_expired(&self, now: u64) -> bool {
        now >= self.last_active + PROXY_EXPIRE_TIME
    }

    /// Whether the session has been idle past its expiry at `now`.
    pub fn is_expired(&self, now: u64) -> (r: bool)
        requires
            self.last_active + PROXY_EXPIRE_TIME <= u64::MAX,
        ensures
            r == self.spec_expired(now),
    {
        now >= self.last_active + PROXY_EXPIRE_TIME
    }
}

/// One datagram waiting to be sent: its bytes, its destination, and the
/// local socket to send it from.
pub struct OutboundItem {
    pub bytes: Vec<u8>,
    pub dest: SockAddr,
    pub socket_n: usize,
}

/// The mathematical value of an outbound datagram.
pub struct OutboundV {
    pub bytes: Seq<u8>,
    pub dest: SockAddr,
    pub socket_n: usize,
}

impl View for OutboundItem {
    type V = OutboundV;

    open spec fn view(&self) -> OutboundV {
        OutboundV { bytes: self.bytes@, dest: self.dest, socket_n: self.socket_n }
    }
}

/// A serialized message headed for `dest` out of local socket `socket_n`.
pub open spec fn out_item(m: FromMsgView, socket_n: usize, dest: SockAddr) -> OutboundV {
    OutboundV { bytes: spec_serialize_from(m), dest, socket_n }
}

/// The same datagram twice in a row: the loss hedge on every control reply.
pub open spec fn out_twice(m: FromMsgView, socket_n: usize, dest: SockAddr) -> Seq<OutboundV> {
    seq![out_item(m, socket_n, dest), out_item(m, socket_n, dest)]
}

/// "host code does not exist"
pub open spec fn err_host_not_exist() -> Seq<u8> {
    seq![
        104u8, 111u8, 115u8, 116u8, 32u8, 99u8, 111u8, 100u8, 101u8, 32u8, 100u8, 111u8, 101u8,
        115u8, 32u8, 110u8, 111u8, 116u8, 32u8, 101u8, 120u8, 105u8, 115u8, 116u8,
    ]
}

/// "host code does not exist", as bytes.
pub fn err_host_not_exist_v() -> (r: Vec<u8>)
    ensures
        r@ == err_host_not_exist(),
{
    let mut r: Vec<u8> = Vec::new();
    r.push(104);
    r.push(111);
    r.push(115);
    r.push(116);
    r.push(32);
    r.push(99);
    r.push(111);
    r.push(100);
    r.push(101);
    r.push(32);
    r.push(100);
    r.push(111);
    r.push(101);
    r.push(115);
    r.push(32);
    r.push(110);
    r.push(111);
    r.push(116);
    r.push(32);
    r.push(101);
    r.push(120);
    r.push(105);
    r.push(115);
    r.push(116);
    proof {
        assert(r@ =~= err_host_not_exist());
    }
    r
}

/// Whether some registration carries this id.
pub open spec fn contains_id(rdv: Seq<(u32, RdvRemote)>, id: u32) -> bool {
    exists|i: int| 0 <= i < rdv.len() && (#[trigger] rdv[i]).0 == id
}

/// Whether some registration carries this public socket.
pub open spec fn contains_socket(rdv: Seq<(u32, RdvRemote)>, s: SockAddr) -> bool {
    exists|i: int| 0 <= i < rdv.len() && (#[trigger] rdv[i]).1.socket_addr == s
}

/// The socket registered under an id: the first entry that carries it.
pub open spec fn spec_lookup(rdv: Seq<(u32, RdvRemote)>, id: u32) -> Option<SockAddr>
    decreases rdv.len(),
{
    if rdv.len() == 0 {
        None
    } else if rdv[0].0 == id {
        Some(rdv[0].1.socket_addr)
    } else {
        spec_lookup(rdv.skip(1), id)
    }
}

/// The registrations still alive at `now`, in order.
pub open spec fn live_rdv(rdv: Seq<(u32, RdvRemote)>, now: u64) -> Seq<(u32, RdvRemote)>
    decreases rdv.len(),
{
    if rdv.len() == 0 {
        Seq::empty()
    } else {
        let rest = live_rdv(rdv.drop_last(), now);
        if rdv.last().1.spec_expired(now) {
            rest
        } else {
            rest.push(rdv.last())
        }
    }
}

/// The pending punch checks still alive at `now`, in order.
pub open spec fn live_punch(cs: Seq<PunchCheck>, now: u64) -> Seq<PunchCheck>
    decreases cs.len(),
{
    if cs.len() == 0 {
        Seq::empty()
    } else {
        let rest = live_punch(cs.drop_last(), now);
        if cs.last().spec_expired(now) {
            rest
        } else {
            rest.push(cs.last())
        }
    }
}

/// The relay sessions still alive at `now`, in order.
pub open spec fn live_proxy(ps: Seq<ProxyData>, now: u64) -> Seq<ProxyData>
    decreases ps.len(),
{
    if ps.len() == 0 {
        Seq::empty()
    } else {
        let rest = live_proxy(ps.drop_last(), now);
        if ps.last().spec_expired(now) {
            rest
        } else {
            rest.push(ps.last())
        }
    }
}

/// One register step: refreshing an existing entry returns its id; a new
/// socket gets a fresh id appended.
pub open spec fn register_step(
    pre: Seq<(u32, RdvRemote)>,
    s: SockAddr,
    now: u64,
    id: u32,
    post: Seq<(u32, RdvRemote)>,
) -> bool {
    let entry = (id, RdvRemote { socket_addr: s, expiring: (now + REGISTER_EXPIRE_TIME) as u64 });
    if contains_socket(pre, s) {
        let i = choose|i: int| 0 <= i < pre.len() && (#[trigger] pre[i]).1.socket_addr == s;
        id == pre[i].0 && post == pre.update(i, entry)
    } else {
        !contains_id(pre, id) && post == pre.push(entry)
    }
}

/// The first pending check for an id.
pub open spec fn find_punch_idx(cs: Seq<PunchCheck>, id: u32) -> Option<int>
    decreases cs.len(),
{
    if cs.len() == 0 {
        None
    } else if cs[0].id == id {
        Some(0)
    } else {
        match find_punch_idx(cs.skip(1), id) {
            Some(i) => Some(i + 1),
            None => None,
        }
    }
}

/// Whether local socket `k` already relays toward `remote`.
pub open spec fn out_sock_used(ps: Seq<ProxyData>, remote: SockAddr, k: int) -> bool {
    exists|i: int|
        0 <= i < ps.len() && (#[trigger] ps[i]).outgoing == remote && ps[i].out_socket_n == k
}

/// The highest local socket index not yet relaying toward `remote` and
/// different from the socket the request arrived on.
pub open spec fn pick_out(ps: Seq<ProxyData>, remote: SockAddr, our_n: usize, k: int) -> Option<
    int,
>
    decreases k + 1,
{
    if k < 0 {
        None
    } else if k != our_n && !out_sock_used(ps, remote, k) {
        Some(k)
    } else {
        pick_out(ps, remote, our_n, k - 1)
    }
}

/// Whether a session already relays from `caller` toward `remote`.
pub open spec fn proxy_pair_exists(ps: Seq<ProxyData>, caller: SockAddr, remote: SockAddr) -> bool {
    exists|i: int|
        0 <= i < ps.len() && (#[trigger] ps[i]).incoming == caller && ps[i].outgoing == remote
}

/// The first session that matches an arriving datagram: its peer and local
/// socket fit either slot.
pub open spec fn find_proxy_idx(ps: Seq<ProxyData>, n: usize, s: SockAddr) -> Option<int>
    decreases ps.len(),
{
    if ps.len() == 0 {
        None
    } else if (ps[0].in_socket_n == n && ps[0].incoming == s) || (ps[0].out_socket_n == n
        && ps[0].outgoing == s) {
        Some(0)
    } else {
        match find_proxy_idx(ps.skip(1), n, s) {
            Some(i) => Some(i + 1),
            None => None,
        }
    }
}

/// A counter bump that stops at the top instead of wrapping.
pub open spec fn bump(x: u64) -> u64 {
    if x < u64::MAX {
        (x + 1) as u64
    } else {
        x
    }
}

/// The server's whole state: the three tables, the clock snapshot, and the
/// queue of datagrams to flush.
pub struct LinkSeekTracker {
    /// The monotonic time of the current loop iteration, in milliseconds.
    pub now: u64,
    pub rdv_hosts: Vec<(u32, RdvRemote)>,
    pub punch_checks: Vec<PunchCheck>,
    pub proxy_list: Vec<ProxyData>,
    /// Datagrams produced by the handlers, in send order.
    pub outbound: Vec<OutboundItem>,
}

impl LinkSeekTracker {
    /// The outbound queue as a sequence of datagram values.
    pub open spec fn out_seq(&self) -> Seq<OutboundV> {
        self.outbound@.map_values(|i: OutboundItem| i@)
    }

    /// The state's invariant: ids and sockets are unique in the registry; at
    /// most one pending check per id; every relay session pins two distinct
    /// local sockets, and sessions toward the same peer pin distinct ones;
    /// timestamps never run ahead of the clock, which has headroom for one
    /// more expiry window; queued datagrams name real sockets.
    pub open spec fn wf(&self) -> bool {
        &&& self.now + REGISTER_EXPIRE_TIME <= u64::MAX
        &&& forall|i: int, j: int|
            0 <= i < j < self.rdv_hosts@.len() ==> (#[trigger] self.rdv_hosts@[i]).0 != (
            #[trigger] self.rdv_hosts@[j]).0
        &&& forall|i: int, j: int|
            0 <= i < j < self.rdv_hosts@.len() ==> (#[trigger] self.rdv_hosts@[i]).1.socket_addr
                != (#[trigger] self.rdv_hosts@[j]).1.socket_addr
        &&& forall|i: int, j: int|
            0 <= i < j < self.punch_checks@.len() ==> (#[trigger] self.punch_checks@[i]).id != (
            #[trigger] self.punch_checks@[j]).id
        &&& forall|i: int|
            0 <= i < self.punch_checks@.len() ==> (#[trigger] self.punch_checks@[i]).first_received.1
                < UDP_SOCKET_N
        &&& forall|i: int|
            0 <= i < self.proxy_list@.len() ==> (#[trigger] self.proxy_list@[i]).in_socket_n
                < UDP_SOCKET_N && self.proxy_list@[i].out_socket_n < UDP_SOCKET_N
                && self.proxy_list@[i].in_socket_n != self.proxy_list@[i].out_socket_n
                && self.proxy_list@[i].last_active <= self.now
        &&& forall|i: int, j: int|
            0 <= i < j < self.proxy_list@.len() && (#[trigger] self.proxy_list@[i]).outgoing == (
            #[trigger] self.proxy_list@[j]).outgoing ==> self.proxy_list@[i].out_socket_n
                != self.proxy_list@[j].out_socket_n
        &&& forall|i: int|
            0 <= i < self.outbound@.len() ==> (#[trigger] self.outbound@[i]).socket_n
                < UDP_SOCKET_N
    }
}

/// What one control message does to the state: the registry, the tables and
/// the outbound queue after, in terms of the state before.
pub open spec fn control_step(
    pre: LinkSeekTracker,
    msg: ToMiddlemanMsg,
    n: usize,
    src: SockAddr,
    post: LinkSeekTracker,
) -> bool {
    &&& post.now == pre.now
    &&& match msg {
        ToMiddlemanMsg::Register => {
            &&& exists|id: u32|
                #![auto]
                register_step(pre.rdv_hosts@, src, pre.now, id, post.rdv_hosts@) && post.out_seq()
                    == pre.out_seq() + out_twice(FromMsgView::RegisterOk { id }, n, src)
            &&& post.punch_checks@ == pre.punch_checks@
            &&& post.proxy_list@ == pre.proxy_list@
        },
        ToMiddlemanMsg::Request { id, use_proxy } => {
            &&& post.rdv_hosts@ == pre.rdv_hosts@
            &&& post.punch_checks@ == pre.punch_checks@
            &&& post.proxy_list@ == pre.proxy_list@
            &&& match spec_lookup(pre.rdv_hosts@, id) {
                Some(host) => post.out_seq() == pre.out_seq() + out_twice(
                    FromMsgView::PunchOrder { remote: src },
                    n,
                    host,
                ) + out_twice(FromMsgView::PunchOrder { remote: host }, n, src),
                None => post.out_seq() == pre.out_seq() + out_twice(
                    FromMsgView::RequestErr { msg: err_host_not_exist() },
                    n,
                    src,
                ),
            }
        },
        ToMiddlemanMsg::PunchCheck { id } => {
            &&& post.rdv_hosts@ == pre.rdv_hosts@
            &&& post.proxy_list@ == pre.proxy_list@
            &&& match find_punch_idx(pre.punch_checks@, id) {
                None => {
                    &&& post.punch_checks@ == pre.punch_checks@.push(
                        PunchCheck {
                            first_received: (src, n),
                            id,
                            expire: (pre.now + PUNCH_CHECK_EXPIRE_TIME) as u64,
                        },
                    )
                    &&& post.out_seq() == pre.out_seq()
                },
                Some(k) => {
                    let first = pre.punch_checks@[k].first_received;
                    if first.1 == n {
                        &&& post.punch_checks@ == pre.punch_checks@
                        &&& post.out_seq() == pre.out_seq()
                    } else {
                        let ok = (first.0 == src);
                        &&& post.punch_checks@ == pre.punch_checks@.remove(k)
                        &&& post.out_seq() == pre.out_seq() + out_twice(
                            FromMsgView::PunchCheckResult { ok },
                            n,
                            src,
                        ) + out_twice(FromMsgView::PunchCheckResult { ok }, first.1, first.0)
                    }
                },
            }
        },
        ToMiddlemanMsg::ProxyTo { remote } => {
            &&& post.rdv_hosts@ == pre.rdv_hosts@
            &&& post.punch_checks@ == pre.punch_checks@
            &&& if proxy_pair_exists(pre.proxy_list@, src, remote) {
                &&& post.proxy_list@ == pre.proxy_list@
                &&& post.out_seq() == pre.out_seq()
            } else {
                match pick_out(pre.proxy_list@, remote, n, UDP_SOCKET_N - 1) {
                    Some(k) => {
                        &&& post.proxy_list@ == pre.proxy_list@.push(
                            ProxyData {
                                incoming: src,
                                in_socket_n: n,
                                outgoing: remote,
                                out_socket_n: k as usize,
                                in_packets: 0,
                                out_packets: 0,
                                last_active: pre.now,
                            },
                        )
                        &&& post.out_seq() == pre.out_seq() + out_twice(
                            FromMsgView::ProxyResult { remote, ok: true },
                            n,
                            src,
                        )
                    },
                    None => {
                        &&& post.proxy_list@ == pre.proxy_list@
                        &&& post.out_seq() == pre.out_seq() + out_twice(
                            FromMsgView::ProxyResult { remote, ok: false },
                            n,
                            src,
                        )
                    },
                }
            }
        },
        ToMiddlemanMsg::Ping { id } => {
            &&& post.rdv_hosts@ == pre.rdv_hosts@
            &&& post.punch_checks@ == pre.punch_checks@
            &&& post.proxy_list@ == pre.proxy_list@
            &&& post.out_seq() == pre.out_seq() + out_twice(FromMsgView::Pong { id }, n, src)
        },
    }
}

/// What one non-control datagram does to the state: matched against the
/// relay table, forwarded unchanged to the session's other peer, or
/// dropped.
pub open spec fn forward_step(
    pre: LinkSeekTracker,
    bytes: Seq<u8>,
    n: usize,
    src: SockAddr,
    post: LinkSeekTracker,
) -> bool {
    &&& post.now == pre.now
    &&& post.rdv_hosts@ == pre.rdv_hosts@
    &&& post.punch_checks@ == pre.punch_checks@
    &&& match find_proxy_idx(pre.proxy_list@, n, src) {
        None => {
            &&& post.proxy_list@ == pre.proxy_list@
            &&& post.out_seq() == pre.out_seq()
        },
        Some(k) => {
            let p = pre.proxy_list@[k];
            if p.incoming == src {
                &&& post.proxy_list@ == pre.proxy_list@.update(
                    k,
                    ProxyData { in_packets: bump(p.in_packets), last_active: pre.now, ..p },
                )
                &&& post.out_seq() == pre.out_seq() + seq![
                    OutboundV { bytes, dest: p.outgoing, socket_n: p.out_socket_n },
                ]
            } else {
                &&& post.proxy_list@ == pre.proxy_list@.update(
                    k,
                    ProxyData { out_packets: bump(p.out_packets), last_active: pre.now, ..p },
                )
                &&& post.out_seq() == pre.out_seq() + seq![
                    OutboundV { bytes, dest: p.incoming, socket_n: p.in_socket_n },
                ]
            }
        },
    }
}


/// Relies on rand::random: a uniformly distributed value; nothing is
/// assumed about which one.
#[verifier::external_body]
fn random_u32() -> u32 {
    rand::random::<u32>()
}

/// The datagram values and the queued items agree position by position.
proof fn lemma_out_socks(t: LinkSeekTracker)
    ensures
        t.out_seq().len() == t.outbound@.len(),
        forall|i: int|
            0 <= i < t.outbound@.len() ==> (#[trigger] t.outbound@[i]).socket_n
                == t.out_seq()[i].socket_n,
{
    assert forall|i: int| 0 <= i < t.outbound@.len() implies (#[trigger] t.outbound@[i]).socket_n
        == t.out_seq()[i].socket_n by {
        assert(t.out_seq()[i] == t.outbound@[i]@);
    }
}

/// Among the ids 0 through the registry's length, at least one is free: a
/// registry holds fewer distinct ids than that.
proof fn lemma_some_id_free(rdv: Seq<(u32, RdvRemote)>)
    requires
        rdv.len() < 0x1_0000_0000,
    ensures
        exists|j: int| 0 <= j <= rdv.len() && !contains_id(rdv, #[trigger] (j as u32)),
{
    let n = rdv.len() as int;
    assert_by_contradiction!(exists|j: int| 0 <= j <= rdv.len() && !contains_id(rdv, #[trigger] (j as u32)), {
        let ids = rdv.map_values(|e: (u32, RdvRemote)| e.0 as int);
        assert forall|j: int| 0 <= j <= n implies ids.to_set().contains(j) by {
            assert(contains_id(rdv, j as u32));
            let i = choose|i: int| 0 <= i < rdv.len() && (#[trigger] rdv[i]).0 == (j as u32);
            assert(ids[i] == j);
            assert(ids.contains(j));
        }
        vstd::set_lib::lemma_int_range(0, n + 1);
        assert(vstd::set_lib::set_int_range(0, n + 1).subset_of(ids.to_set()));
        broadcast use vstd::seq_lib::seq_to_set_is_finite;

        ids.lemma_cardinality_of_set();
        vstd::set_lib::lemma_len_subset(vstd::set_lib::set_int_range(0, n + 1), ids.to_set());
    });
}

/// Every registration that survives a sweep was in the registry before.
pub proof fn lemma_live_rdv_members(rdv: Seq<(u32, RdvRemote)>, now: u64)
    ensures
        forall|i: int|
            0 <= i < live_rdv(rdv, now).len() ==> rdv.contains(#[trigger] live_rdv(rdv, now)[i]),
{
    lemma_live_rdv_wf(rdv, now);
}

/// Filtering the registry keeps only entries of the original list, in
/// particular distinct ids and sockets.
proof fn lemma_live_rdv_wf(rdv: Seq<(u32, RdvRemote)>, now: u64)
    ensures
        forall|i: int|
            0 <= i < live_rdv(rdv, now).len() ==> rdv.contains(#[trigger] live_rdv(rdv, now)[i]),
        (forall|i: int, j: int|
            0 <= i < j < rdv.len() ==> (#[trigger] rdv[i]).0 != (#[trigger] rdv[j]).0) ==> (
        forall|i: int, j: int|
            0 <= i < j < live_rdv(rdv, now).len() ==> (#[trigger] live_rdv(rdv, now)[i]).0 != (
            #[trigger] live_rdv(rdv, now)[j]).0),
        (forall|i: int, j: int|
            0 <= i < j < rdv.len() ==> (#[trigger] rdv[i]).1.socket_addr != (
            #[trigger] rdv[j]).1.socket_addr) ==> (forall|i: int, j: int|
            0 <= i < j < live_rdv(rdv, now).len() ==> (#[trigger] live_rdv(rdv, now)[i]).1.socket_addr
                != (#[trigger] live_rdv(rdv, now)[j]).1.socket_addr),
    decreases rdv.len(),
{
    if rdv.len() > 0 {
        let dl = rdv.drop_last();
        lemma_live_rdv_wf(dl, now);
        let rest = live_rdv(dl, now);
        let lv = live_rdv(rdv, now);
        assert forall|i: int| 0 <= i < lv.len() implies rdv.contains(#[trigger] lv[i]) by {
            if i < rest.len() {
                assert(lv[i] == rest[i]);
                assert(dl.contains(rest[i]));
                let w = choose|w: int| 0 <= w < dl.len() && dl[w] == rest[i];
                assert(rdv[w] == lv[i]);
            } else {
                assert(lv[i] == rdv.last());
                assert(rdv[rdv.len() - 1] == lv[i]);
            }
        }
        if forall|i: int, j: int|
            0 <= i < j < rdv.len() ==> (#[trigger] rdv[i]).0 != (#[trigger] rdv[j]).0 {
            assert(forall|i: int, j: int|
                0 <= i < j < dl.len() ==> (#[trigger] dl[i]).0 != (#[trigger] dl[j]).0);
            assert forall|i: int, j: int| 0 <= i < j < lv.len() implies (#[trigger] lv[i]).0 != (
            #[trigger] lv[j]).0 by {
                if j < rest.len() {
                    assert(lv[i] == rest[i] && lv[j] == rest[j]);
                } else {
                    assert(lv[j] == rdv.last());
                    assert(lv[i] == rest[i]);
                    assert(dl.contains(rest[i]));
                    let w = choose|w: int| 0 <= w < dl.len() && dl[w] == rest[i];
                    assert(rdv[w] == lv[i]);
                    assert(rdv[w].0 != rdv[rdv.len() - 1].0);
                }
            }
        }
        if forall|i: int, j: int|
            0 <= i < j < rdv.len() ==> (#[trigger] rdv[i]).1.socket_addr != (
            #[trigger] rdv[j]).1.socket_addr {
            assert(forall|i: int, j: int|
                0 <= i < j < dl.len() ==> (#[trigger] dl[i]).1.socket_addr != (
                #[trigger] dl[j]).1.socket_addr);
            assert forall|i: int, j: int| 0 <= i < j < lv.len() implies (
            #[trigger] lv[i]).1.socket_addr != (#[trigger] lv[j]).1.socket_addr by {
                if j < rest.len() {
                    assert(lv[i] == rest[i] && lv[j] == rest[j]);
                } else {
                    assert(lv[j] == rdv.last());
                    assert(lv[i] == rest[i]);
                    assert(dl.contains(rest[i]));
                    let w = choose|w: int| 0 <= w < dl.len() && dl[w] == rest[i];
                    assert(rdv[w] == lv[i]);
                    assert(rdv[w].1.socket_addr != rdv[rdv.len() - 1].1.socket_addr);
                }
            }
        }
    }
}

/// Filtering the punch table keeps only entries of the original list, in
/// particular distinct ids.
proof fn lemma_live_punch_wf(cs: Seq<PunchCheck>, now: u64)
    ensures
        forall|i: int|
            0 <= i < live_punch(cs, now).len() ==> cs.contains(#[trigger] live_punch(cs, now)[i]),
        (forall|i: int, j: int|
            0 <= i < j < cs.len() ==> (#[trigger] cs[i]).id != (#[trigger] cs[j]).id) ==> (
        forall|i: int, j: int|
            0 <= i < j < live_punch(cs, now).len() ==> (#[trigger] live_punch(cs, now)[i]).id != (
            #[trigger] live_punch(cs, now)[j]).id),
    decreases cs.len(),
{
    if cs.len() > 0 {
        let dl = cs.drop_last();
        lemma_live_punch_wf(dl, now);
        let rest = live_punch(dl, now);
        let lv = live_punch(cs, now);
        assert forall|i: int| 0 <= i < lv.len() implies cs.contains(#[trigger] lv[i]) by {
            if i < rest.len() {
                assert(lv[i] == rest[i]);
                assert(dl.contains(rest[i]));
                let w = choose|w: int| 0 <= w < dl.len() && dl[w] == rest[i];
                assert(cs[w] == lv[i]);
            } else {
                assert(lv[i] == cs.last());
                assert(cs[cs.len() - 1] == lv[i]);
            }
        }
        if forall|i: int, j: int|
            0 <= i < j < cs.len() ==> (#[trigger] cs[i]).id != (#[trigger] cs[j]).id {
            assert(forall|i: int, j: int|
                0 <= i < j < dl.len() ==> (#[trigger] dl[i]).id != (#[trigger] dl[j]).id);
            assert forall|i: int, j: int| 0 <= i < j < lv.len() implies (#[trigger] lv[i]).id != (
            #[trigger] lv[j]).id by {
                if j < rest.len() {
                    assert(lv[i] == rest[i] && lv[j] == rest[j]);
                } else {
                    assert(lv[j] == cs.last());
                    assert(lv[i] == rest[i]);
                    assert(dl.contains(rest[i]));
                    let w = choose|w: int| 0 <= w < dl.len() && dl[w] == rest[i];
                    assert(cs[w] == lv[i]);
                    assert(cs[w].id != cs[cs.len() - 1].id);
                }
            }
        }
    }
}

/// Filtering the relay table keeps only entries of the original list, in
/// particular per-peer distinct sockets.
proof fn lemma_live_proxy_wf(ps: Seq<ProxyData>, now: u64)
    ensures
        forall|i: int|
            0 <= i < live_proxy(ps, now).len() ==> ps.contains(#[trigger] live_proxy(ps, now)[i]),
        (forall|i: int, j: int|
            0 <= i < j < ps.len() && (#[trigger] ps[i]).outgoing == (#[trigger] ps[j]).outgoing
                ==> ps[i].out_socket_n != ps[j].out_socket_n) ==> (forall|i: int, j: int|
            0 <= i < j < live_proxy(ps, now).len() && (#[trigger] live_proxy(ps, now)[i]).outgoing
                == (#[trigger] live_proxy(ps, now)[j]).outgoing ==> live_proxy(
                ps,
                now,
            )[i].out_socket_n != live_proxy(ps, now)[j].out_socket_n),
    decreases ps.len(),
{
    if ps.len() > 0 {
        let dl = ps.drop_last();
        lemma_live_proxy_wf(dl, now);
        let rest = live_proxy(dl, now);
        let lv = live_proxy(ps, now);
        assert forall|i: int| 0 <= i < lv.len() implies ps.contains(#[trigger] lv[i]) by {
            if i < rest.len() {
                assert(lv[i] == rest[i]);
                assert(dl.contains(rest[i]));
                let w = choose|w: int| 0 <= w < dl.len() && dl[w] == rest[i];
                assert(ps[w] == lv[i]);
            } else {
                assert(lv[i] == ps.last());
                assert(ps[ps.len() - 1] == lv[i]);
            }
        }
        if forall|i: int, j: int|
            0 <= i < j < ps.len() && (#[trigger] ps[i]).outgoing == (#[trigger] ps[j]).outgoing
                ==> ps[i].out_socket_n != ps[j].out_socket_n {
            assert(forall|i: int, j: int|
                0 <= i < j < dl.len() && (#[trigger] dl[i]).outgoing == (#[trigger] dl[j]).outgoing
                    ==> dl[i].out_socket_n != dl[j].out_socket_n);
            assert forall|i: int, j: int|
                0 <= i < j < lv.len() && (#[trigger] lv[i]).outgoing == (
                #[trigger] lv[j]).outgoing implies lv[i].out_socket_n != lv[j].out_socket_n by {
                if j < rest.len() {
                    assert(lv[i] == rest[i] && lv[j] == rest[j]);
                } else {
                    assert(lv[j] == ps.last());
                    assert(lv[i] == rest[i]);
                    assert(dl.contains(rest[i]));
                    let w = choose|w: int| 0 <= w < dl.len() && dl[w] == rest[i];
                    assert(ps[w] == lv[i]);
                }
            }
        }
    }
}

impl LinkSeekTracker {
    /// A fresh tracker: empty tables, the clock at zero.
    pub fn new() -> (r: Self)
        ensures
            r.wf(),
            r.now == 0,
            r.rdv_hosts@.len() == 0,
            r.punch_checks@.len() == 0,
            r.proxy_list@.len() == 0,
            r.outbound@.len() == 0,
    {
        let r = Self {
            now: 0,
            rdv_hosts: Vec::new(),
            punch_checks: Vec::new(),
            proxy_list: Vec::new(),
            outbound: Vec::new(),
        };
        proof {
            assert(r.out_seq() =~= Seq::<OutboundV>::empty());
        }
        r
    }

    /// The socket registered under `id`, if any.
    pub fn lookup(&self, id: u32) -> (r: Option<SockAddr>)
        ensures
            r == spec_lookup(self.rdv_hosts@, id),
    {
        let n = self.rdv_hosts.len();
        let mut i: usize = 0;
        proof {
            assert(self.rdv_hosts@.skip(0) =~= self.rdv_hosts@);
        }
        while i < n
            invariant
                0 <= i <= n,
                n == self.rdv_hosts@.len(),
                spec_lookup(self.rdv_hosts@, id) == spec_lookup(
                    self.rdv_hosts@.skip(i as int),
                    id,
                ),
            decreases n - i,
        {
            let e = self.rdv_hosts[i];
            proof {
                let tail = self.rdv_hosts@.skip(i as int);
                assert(tail[0] == self.rdv_hosts@[i as int]);
                assert(tail.skip(1) =~= self.rdv_hosts@.skip(i + 1));
            }
            if e.0 == id {
                return Some(e.1.socket_addr);
            }
            i = i + 1;
        }
        proof {
            assert(self.rdv_hosts@.skip(n as int) =~= Seq::<(u32, RdvRemote)>::empty());
        }
        None
    }

    /// Whether some registration carries `id`.
    fn contains_id_exec(&self, id: u32) -> (r: bool)
        ensures
            r == contains_id(self.rdv_hosts@, id),
    {
        let n = self.rdv_hosts.len();
        let mut i: usize = 0;
        while i < n
            invariant
                0 <= i <= n,
                n == self.rdv_hosts@.len(),
                forall|j: int| 0 <= j < i ==> (#[trigger] self.rdv_hosts@[j]).0 != id,
            decreases n - i,
        {
            if self.rdv_hosts[i].0 == id {
                return true;
            }
            i = i + 1;
        }
        false
    }

    /// An id no current registration carries: random draws with rejection,
    /// then a linear scan that the pigeonhole argument shows must succeed.
    fn pick_fresh_id(&self) -> (id: u32)
        requires
            self.rdv_hosts@.len() < 0x1_0000_0000,
        ensures
            !contains_id(self.rdv_hosts@, id),
    {
        let mut attempts: usize = 0;
        while attempts < 16
            invariant
                self.rdv_hosts@.len() < 0x1_0000_0000,
            decreases 16 - attempts,
        {
            let cand = random_u32();
            if !self.contains_id_exec(cand) {
                return cand;
            }
            attempts = attempts + 1;
        }
        let n = self.rdv_hosts.len() as u64;
        let mut c: u64 = 0;
        while c <= n
            invariant
                0 <= c <= n + 1,
                n == self.rdv_hosts@.len(),
                n < 0x1_0000_0000,
                forall|j: int| 0 <= j < c ==> contains_id(self.rdv_hosts@, #[trigger] (j as u32)),
            decreases n + 1 - c,
        {
            if !self.contains_id_exec(c as u32) {
                return c as u32;
            }
            proof {
                assert forall|j: int| 0 <= j < c + 1 implies contains_id(
                    self.rdv_hosts@,
                    #[trigger] (j as u32),
                ) by {
                    if j == c {
                        assert(contains_id(self.rdv_hosts@, c as u32));
                    }
                }
            }
            c = c + 1;
        }
        proof {
            lemma_some_id_free(self.rdv_hosts@);
            let j = choose|j: int|
                0 <= j <= self.rdv_hosts@.len() && !contains_id(
                    self.rdv_hosts@,
                    #[trigger] (j as u32),
                );
            assert(contains_id(self.rdv_hosts@, j as u32));
        }
        0
    }

    /// Allocates a fresh id for a socket not yet registered and inserts the
    /// registration.
    fn gen_random_rdv_id(&mut self, socket_addr: SockAddr) -> (id: u32)
        requires
            old(self).wf(),
            !contains_socket(old(self).rdv_hosts@, socket_addr),
            old(self).rdv_hosts@.len() < 0x1_0000_0000,
        ensures
            final(self).wf(),
            !contains_id(old(self).rdv_hosts@, id),
            final(self).rdv_hosts@ == old(self).rdv_hosts@.push(
                (
                    id,
                    RdvRemote {
                        socket_addr,
                        expiring: (old(self).now + REGISTER_EXPIRE_TIME) as u64,
                    },
                ),
            ),
            final(self).now == old(self).now,
            final(self).punch_checks@ == old(self).punch_checks@,
            final(self).proxy_list@ == old(self).proxy_list@,
            final(self).outbound@ == old(self).outbound@,
    {
        let id = self.pick_fresh_id();
        let exp = self.now + REGISTER_EXPIRE_TIME;
        self.rdv_hosts.push((id, RdvRemote { socket_addr, expiring: exp }));
        proof {
            let post = self.rdv_hosts@;
            let pre = old(self).rdv_hosts@;
            assert forall|i: int, j: int| 0 <= i < j < post.len() implies (#[trigger] post[i]).0
                != (#[trigger] post[j]).0 by {
                if j < post.len() - 1 {
                    assert(post[i] == pre[i] && post[j] == pre[j]);
                } else {
                    assert(post[i] == pre[i]);
                    assert(contains_id(pre, pre[i].0));
                }
            }
            assert forall|i: int, j: int| 0 <= i < j < post.len() implies (
            #[trigger] post[i]).1.socket_addr != (#[trigger] post[j]).1.socket_addr by {
                if j < post.len() - 1 {
                    assert(post[i] == pre[i] && post[j] == pre[j]);
                } else {
                    assert(post[i] == pre[i]);
                    assert(contains_socket(pre, pre[i].1.socket_addr));
                }
            }
        }
        id
    }

    /// Registers a socket, or refreshes its registration: the same socket
    /// always gets its old id back while the registration lives.
    pub fn register_or_refresh(&mut self, socket_addr: SockAddr) -> (id: u32)
        requires
            old(self).wf(),
            old(self).rdv_hosts@.len() < 0x1_0000_0000,
        ensures
            final(self).wf(),
            register_step(old(self).rdv_hosts@, socket_addr, old(self).now, id, final(self).rdv_hosts@),
            final(self).now == old(self).now,
            final(self).punch_checks@ == old(self).punch_checks@,
            final(self).proxy_list@ == old(self).proxy_list@,
            final(self).outbound@ == old(self).outbound@,
    {
        let n = self.rdv_hosts.len();
        let mut i: usize = 0;
        while i < n
            invariant
                0 <= i <= n,
                n == self.rdv_hosts@.len(),
                self == old(self),
                old(self).wf(),
                forall|j: int|
                    0 <= j < i ==> (#[trigger] self.rdv_hosts@[j]).1.socket_addr != socket_addr,
            decreases n - i,
        {
            let e = self.rdv_hosts[i];
            if e.1.socket_addr == socket_addr {
                let id = e.0;
                let exp = self.now + REGISTER_EXPIRE_TIME;
                let entry = (id, RdvRemote { socket_addr, expiring: exp });
                self.rdv_hosts.set(i, entry);
                proof {
                    let pre = old(self).rdv_hosts@;
                    assert(contains_socket(pre, socket_addr));
                    let ci = choose|ci: int|
                        0 <= ci < pre.len() && (#[trigger] pre[ci]).1.socket_addr == socket_addr;
                    if ci < i {
                        assert(pre[ci].1.socket_addr != socket_addr);
                    }
                    if ci > i {
                        assert(pre[i as int].1.socket_addr != pre[ci].1.socket_addr);
                    }
                    assert(ci == i);
                    assert(register_step(pre, socket_addr, old(self).now, id, self.rdv_hosts@));
                    let post = self.rdv_hosts@;
                    assert forall|a: int, b: int| 0 <= a < b < post.len() implies (
                    #[trigger] post[a]).0 != (#[trigger] post[b]).0 by {
                        assert(post[a].0 == pre[a].0 && post[b].0 == pre[b].0);
                    }
                    assert forall|a: int, b: int| 0 <= a < b < post.len() implies (
                    #[trigger] post[a]).1.socket_addr != (#[trigger] post[b]).1.socket_addr by {
                        assert(post[a].1.socket_addr == pre[a].1.socket_addr && post[b].1.socket_addr
                            == pre[b].1.socket_addr);
                    }
                }
                return id;
            }
            i = i + 1;
        }
        proof {
            if contains_socket(self.rdv_hosts@, socket_addr) {
                let w = choose|w: int|
                    0 <= w < self.rdv_hosts@.len() && (#[trigger] self.rdv_hosts@[w]).1.socket_addr
                        == socket_addr;
                assert(self.rdv_hosts@[w].1.socket_addr != socket_addr);
            }
        }
        let id = self.gen_random_rdv_id(socket_addr);
        id
    }

    /// Queues a control reply, twice in a row as a loss hedge, for the given
    /// peer out of the given local socket.
    pub fn send_msg(&mut self, msg: FromMiddlemanMsg, socket_n: usize, remote: SockAddr)
        requires
            socket_n < UDP_SOCKET_N,
        ensures
            final(self).out_seq() == old(self).out_seq() + out_twice(msg@, socket_n, remote),
            final(self).now == old(self).now,
            final(self).rdv_hosts@ == old(self).rdv_hosts@,
            final(self).punch_checks@ == old(self).punch_checks@,
            final(self).proxy_list@ == old(self).proxy_list@,
            final(self).outbound@.len() == old(self).outbound@.len() + 2,
            forall|i: int|
                0 <= i < old(self).outbound@.len() ==> (#[trigger] final(self).outbound@[i])
                    == old(self).outbound@[i],
            forall|i: int|
                old(self).outbound@.len() <= i < final(self).outbound@.len() ==> (#[trigger] final(self).outbound@[i]).socket_n == socket_n,
    {
        let ghost q0 = self.out_seq();
        let b1 = msg.serialize();
        let b2 = msg.serialize();
        let item1 = OutboundItem { bytes: b1, dest: remote, socket_n };
        let item2 = OutboundItem { bytes: b2, dest: remote, socket_n };
        proof {
            assert(item1@ == out_item(msg@, socket_n, remote));
            assert(item2@ == out_item(msg@, socket_n, remote));
        }
        self.outbound.push(item1);
        self.outbound.push(item2);
        proof {
            assert(self.out_seq() =~= q0 + out_twice(msg@, socket_n, remote)) by {
                assert forall|i: int| 0 <= i < self.out_seq().len() implies self.out_seq()[i] == (
                q0 + out_twice(msg@, socket_n, remote))[i] by {
                    assert(self.out_seq()[i] == self.outbound@[i]@);
                    if i < q0.len() {
                        assert(q0[i] == old(self).outbound@[i]@);
                    }
                }
                assert(self.out_seq().len() == self.outbound@.len());
            }
        }
    }

    /// Drains the outbound queue for the event loop to flush, in order.
    pub fn take_outbound(&mut self) -> (r: Vec<OutboundItem>)
        ensures
            r@ == old(self).outbound@,
            final(self).outbound@.len() == 0,
            final(self).now == old(self).now,
            final(self).rdv_hosts@ == old(self).rdv_hosts@,
            final(self).punch_checks@ == old(self).punch_checks@,
            final(self).proxy_list@ == old(self).proxy_list@,
            old(self).wf() ==> final(self).wf(),
    {
        let r = self.outbound.split_off(0);
        proof {
            assert(r@ =~= old(self).outbound@);
            assert(self.outbound@ =~= old(self).outbound@.subrange(0, 0));
        }
        r
    }

    /// Advances the clock and sweeps every expired registration, pending
    /// check and idle relay session.
    pub fn cleanup(&mut self, now: u64)
        requires
            old(self).wf(),
            now >= old(self).now,
            now + REGISTER_EXPIRE_TIME <= u64::MAX,
        ensures
            final(self).wf(),
            final(self).now == now,
            final(self).rdv_hosts@ == live_rdv(old(self).rdv_hosts@, now),
            final(self).punch_checks@ == live_punch(old(self).punch_checks@, now),
            final(self).proxy_list@ == live_proxy(old(self).proxy_list@, now),
            final(self).outbound@ == old(self).outbound@,
    {
        self.now = now;
        let n1 = self.rdv_hosts.len();
        let mut kept_rdv: Vec<(u32, RdvRemote)> = Vec::new();
        let mut i: usize = 0;
        proof {
            assert(live_rdv(self.rdv_hosts@.take(0), now) =~= Seq::<(u32, RdvRemote)>::empty());
        }
        while i < n1
            invariant
                0 <= i <= n1,
                n1 == self.rdv_hosts@.len(),
                kept_rdv@ == live_rdv(self.rdv_hosts@.take(i as int), now),
            decreases n1 - i,
        {
            let e = self.rdv_hosts[i];
            proof {
                let cur = self.rdv_hosts@.take(i + 1);
                assert(cur.drop_last() =~= self.rdv_hosts@.take(i as int));
                assert(cur.last() == self.rdv_hosts@[i as int]);
            }
            if !e.1.is_expired(now) {
                kept_rdv.push(e);
            }
            i = i + 1;
        }
        proof {
            assert(self.rdv_hosts@.take(n1 as int) =~= self.rdv_hosts@);
        }
        self.rdv_hosts = kept_rdv;

        let n2 = self.punch_checks.len();
        let mut kept_punch: Vec<PunchCheck> = Vec::new();
        let mut j: usize = 0;
        proof {
            assert(live_punch(self.punch_checks@.take(0), now) =~= Seq::<PunchCheck>::empty());
        }
        while j < n2
            invariant
                0 <= j <= n2,
                n2 == self.punch_checks@.len(),
                kept_punch@ == live_punch(self.punch_checks@.take(j as int), now),
            decreases n2 - j,
        {
            let c = self.punch_checks[j];
            proof {
                let cur = self.punch_checks@.take(j + 1);
                assert(cur.drop_last() =~= self.punch_checks@.take(j as int));
                assert(cur.last() == self.punch_checks@[j as int]);
            }
            if !c.is_expired(now) {
                kept_punch.push(c);
            }
            j = j + 1;
        }
        proof {
            assert(self.punch_checks@.take(n2 as int) =~= self.punch_checks@);
        }
        self.punch_checks = kept_punch;

        let n3 = self.proxy_list.len();
        let mut kept_proxy: Vec<ProxyData> = Vec::new();
        let mut k: usize = 0;
        proof {
            assert(live_proxy(self.proxy_list@.take(0), now) =~= Seq::<ProxyData>::empty());
        }
        while k < n3
            invariant
                0 <= k <= n3,
                n3 == self.proxy_list@.len(),
                kept_proxy@ == live_proxy(self.proxy_list@.take(k as int), now),
                forall|x: int|
                    0 <= x < n3 ==> (#[trigger] self.proxy_list@[x]).last_active
                        + PROXY_EXPIRE_TIME <= u64::MAX,
            decreases n3 - k,
        {
            let p = self.proxy_list[k];
            proof {
                let cur = self.proxy_list@.take(k + 1);
                assert(cur.drop_last() =~= self.proxy_list@.take(k as int));
                assert(cur.last() == self.proxy_list@[k as int]);
            }
            if !p.is_expired(now) {
                kept_proxy.push(p);
            }
            k = k + 1;
        }
        proof {
            assert(self.proxy_list@.take(n3 as int) =~= self.proxy_list@);
        }
        self.proxy_list = kept_proxy;

        proof {
            lemma_live_rdv_wf(old(self).rdv_hosts@, now);
            lemma_live_punch_wf(old(self).punch_checks@, now);
            lemma_live_proxy_wf(old(self).proxy_list@, now);
            let lp = live_proxy(old(self).proxy_list@, now);
            assert forall|x: int| 0 <= x < lp.len() implies (#[trigger] lp[x]).in_socket_n
                < UDP_SOCKET_N && lp[x].out_socket_n < UDP_SOCKET_N && lp[x].in_socket_n
                != lp[x].out_socket_n && lp[x].last_active <= now by {
                assert(old(self).proxy_list@.contains(lp[x]));
                let w = choose|w: int|
                    0 <= w < old(self).proxy_list@.len() && old(self).proxy_list@[w] == lp[x];
                assert(old(self).proxy_list@[w].last_active <= old(self).now);
            }
            let lc = live_punch(old(self).punch_checks@, now);
            assert forall|x: int| 0 <= x < lc.len() implies (#[trigger] lc[x]).first_received.1
                < UDP_SOCKET_N by {
                assert(old(self).punch_checks@.contains(lc[x]));
                let w = choose|w: int|
                    0 <= w < old(self).punch_checks@.len() && old(self).punch_checks@[w] == lc[x];
                assert(old(self).punch_checks@[w].first_received.1 < UDP_SOCKET_N);
            }
        }
    }
}


/// What the first-match search for a punch check guarantees.
proof fn lemma_find_punch_props(cs: Seq<PunchCheck>, id: u32)
    ensures
        match find_punch_idx(cs, id) {
            Some(k) => 0 <= k < cs.len() && cs[k].id == id && forall|j: int|
                0 <= j < k ==> (#[trigger] cs[j]).id != id,
            None => forall|j: int| 0 <= j < cs.len() ==> (#[trigger] cs[j]).id != id,
        },
    decreases cs.len(),
{
    if cs.len() > 0 && cs[0].id != id {
        lemma_find_punch_props(cs.skip(1), id);
        match find_punch_idx(cs.skip(1), id) {
            Some(k) => {
                assert forall|j: int| 0 <= j < k + 1 implies (#[trigger] cs[j]).id != id by {
                    if j > 0 {
                        assert(cs.skip(1)[j - 1].id != id);
                    }
                }
            },
            None => {
                assert forall|j: int| 0 <= j < cs.len() implies (#[trigger] cs[j]).id != id by {
                    if j > 0 {
                        assert(cs.skip(1)[j - 1].id != id);
                    }
                }
            },
        }
    }
}

/// What the first-match search for a relay session guarantees.
proof fn lemma_find_proxy_props(ps: Seq<ProxyData>, n: usize, s: SockAddr)
    ensures
        match find_proxy_idx(ps, n, s) {
            Some(k) => 0 <= k < ps.len() && ((ps[k].in_socket_n == n && ps[k].incoming == s) || (
            ps[k].out_socket_n == n && ps[k].outgoing == s)) && forall|j: int|
                0 <= j < k ==> !(((#[trigger] ps[j]).in_socket_n == n && ps[j].incoming == s) || (
                ps[j].out_socket_n == n && ps[j].outgoing == s)),
            None => forall|j: int|
                0 <= j < ps.len() ==> !(((#[trigger] ps[j]).in_socket_n == n && ps[j].incoming
                    == s) || (ps[j].out_socket_n == n && ps[j].outgoing == s)),
        },
    decreases ps.len(),
{
    if ps.len() > 0 && !((ps[0].in_socket_n == n && ps[0].incoming == s) || (ps[0].out_socket_n
        == n && ps[0].outgoing == s)) {
        lemma_find_proxy_props(ps.skip(1), n, s);
        match find_proxy_idx(ps.skip(1), n, s) {
            Some(k) => {
                assert forall|j: int| 0 <= j < k + 1 implies !(((#[trigger] ps[j]).in_socket_n == n
                    && ps[j].incoming == s) || (ps[j].out_socket_n == n && ps[j].outgoing
                    == s)) by {
                    if j > 0 {
                        assert(ps[j] == ps.skip(1)[j - 1]);
                    }
                }
            },
            None => {
                assert forall|j: int| 0 <= j < ps.len() implies !(((#[trigger] ps[j]).in_socket_n
                    == n && ps[j].incoming == s) || (ps[j].out_socket_n == n && ps[j].outgoing
                    == s)) by {
                    if j > 0 {
                        assert(ps[j] == ps.skip(1)[j - 1]);
                    }
                }
            },
        }
    }
}

/// What the descending search for a free local socket guarantees.
proof fn lemma_pick_out_props(ps: Seq<ProxyData>, remote: SockAddr, our_n: usize, k: int)
    ensures
        match pick_out(ps, remote, our_n, k) {
            Some(c) => 0 <= c <= k && c != our_n && !out_sock_used(ps, remote, c),
            None => true,
        },
    decreases k + 1,
{
    if k >= 0 && !(k != our_n && !out_sock_used(ps, remote, k)) {
        lemma_pick_out_props(ps, remote, our_n, k - 1);
    }
}

impl LinkSeekTracker {
    /// The first pending check for `id`, if any.
    fn find_punch(&self, id: u32) -> (r: Option<usize>)
        ensures
            match r {
                Some(k) => find_punch_idx(self.punch_checks@, id) == Some(k as int) && k
                    < self.punch_checks@.len(),
                None => find_punch_idx(self.punch_checks@, id) is None,
            },
    {
        let n = self.punch_checks.len();
        let mut i: usize = 0;
        while i < n
            invariant
                0 <= i <= n,
                n == self.punch_checks@.len(),
                forall|j: int| 0 <= j < i ==> (#[trigger] self.punch_checks@[j]).id != id,
            decreases n - i,
        {
            if self.punch_checks[i].id == id {
                proof {
                    lemma_find_punch_props(self.punch_checks@, id);
                    match find_punch_idx(self.punch_checks@, id) {
                        Some(k) => {
                            if k < i {
                                assert(self.punch_checks@[k].id != id);
                            }
                            if k > i {
                                assert(self.punch_checks@[i as int].id != id);
                            }
                        },
                        None => {
                            assert(self.punch_checks@[i as int].id != id);
                        },
                    }
                }
                return Some(i);
            }
            i = i + 1;
        }
        proof {
            lemma_find_punch_props(self.punch_checks@, id);
            if find_punch_idx(self.punch_checks@, id) is Some {
                let k = find_punch_idx(self.punch_checks@, id)->Some_0;
                assert(self.punch_checks@[k].id != id);
            }
        }
        None
    }

    /// The first relay session matching an arriving datagram, if any.
    fn find_proxy(&self, n: usize, s: SockAddr) -> (r: Option<usize>)
        ensures
            match r {
                Some(k) => find_proxy_idx(self.proxy_list@, n, s) == Some(k as int) && k
                    < self.proxy_list@.len(),
                None => find_proxy_idx(self.proxy_list@, n, s) is None,
            },
    {
        let count = self.proxy_list.len();
        let mut i: usize = 0;
        while i < count
            invariant
                0 <= i <= count,
                count == self.proxy_list@.len(),
                forall|j: int|
                    0 <= j < i ==> !(((#[trigger] self.proxy_list@[j]).in_socket_n == n
                        && self.proxy_list@[j].incoming == s) || (self.proxy_list@[j].out_socket_n
                        == n && self.proxy_list@[j].outgoing == s)),
            decreases count - i,
        {
            let p = self.proxy_list[i];
            if (p.in_socket_n == n && p.incoming == s) || (p.out_socket_n == n && p.outgoing
                == s) {
                proof {
                    lemma_find_proxy_props(self.proxy_list@, n, s);
                    match find_proxy_idx(self.proxy_list@, n, s) {
                        Some(k) => {
                            if k < i {
                                assert(!(((self.proxy_list@[k]).in_socket_n == n
                                    && self.proxy_list@[k].incoming == s) || (
                                self.proxy_list@[k].out_socket_n == n
                                    && self.proxy_list@[k].outgoing == s)));
                            }
                            if k > i {
                                assert(!(((self.proxy_list@[i as int]).in_socket_n == n
                                    && self.proxy_list@[i as int].incoming == s) || (
                                self.proxy_list@[i as int].out_socket_n == n
                                    && self.proxy_list@[i as int].outgoing == s)));
                            }
                        },
                        None => {
                            assert(!(((self.proxy_list@[i as int]).in_socket_n == n
                                && self.proxy_list@[i as int].incoming == s) || (
                            self.proxy_list@[i as int].out_socket_n == n
                                && self.proxy_list@[i as int].outgoing == s)));
                        },
                    }
                }
                return Some(i);
            }
            i = i + 1;
        }
        proof {
            lemma_find_proxy_props(self.proxy_list@, n, s);
            if find_proxy_idx(self.proxy_list@, n, s) is Some {
                let k = find_proxy_idx(self.proxy_list@, n, s)->Some_0;
                assert(!(((self.proxy_list@[k]).in_socket_n == n && self.proxy_list@[k].incoming
                    == s) || (self.proxy_list@[k].out_socket_n == n
                    && self.proxy_list@[k].outgoing == s)));
            }
        }
        None
    }

    /// Whether local socket `k` already relays toward `remote`.
    fn out_sock_used_exec(&self, remote: SockAddr, k: usize) -> (r: bool)
        ensures
            r == out_sock_used(self.proxy_list@, remote, k as int),
    {
        let count = self.proxy_list.len();
        let mut i: usize = 0;
        while i < count
            invariant
                0 <= i <= count,
                count == self.proxy_list@.len(),
                forall|j: int|
                    0 <= j < i ==> !((#[trigger] self.proxy_list@[j]).outgoing == remote
                        && self.proxy_list@[j].out_socket_n == k),
            decreases count - i,
        {
            let p = self.proxy_list[i];
            if p.outgoing == remote && p.out_socket_n == k {
                return true;
            }
            i = i + 1;
        }
        false
    }

    /// Whether a session from `caller` toward `remote` already exists.
    fn proxy_exists(&self, caller: SockAddr, remote: SockAddr) -> (r: bool)
        ensures
            r == proxy_pair_exists(self.proxy_list@, caller, remote),
    {
        let count = self.proxy_list.len();
        let mut i: usize = 0;
        while i < count
            invariant
                0 <= i <= count,
                count == self.proxy_list@.len(),
                forall|j: int|
                    0 <= j < i ==> !((#[trigger] self.proxy_list@[j]).incoming == caller
                        && self.proxy_list@[j].outgoing == remote),
            decreases count - i,
        {
            let p = self.proxy_list[i];
            if p.incoming == caller && p.outgoing == remote {
                return true;
            }
            i = i + 1;
        }
        false
    }

    /// The highest free local socket for a new relay toward `remote`, other
    /// than the one the request arrived on.
    fn pick_out_socket(&self, remote: SockAddr, our_n: usize) -> (r: Option<usize>)
        ensures
            ({
                let spec_r = pick_out(self.proxy_list@, remote, our_n, UDP_SOCKET_N - 1);
                match r {
                    Some(k) => spec_r == Some(k as int) && k < UDP_SOCKET_N,
                    None => spec_r is None,
                }
            }),
    {
        let mut k: usize = UDP_SOCKET_N;
        while k > 0
            invariant
                0 <= k <= UDP_SOCKET_N,
                pick_out(self.proxy_list@, remote, our_n, UDP_SOCKET_N - 1) == pick_out(
                    self.proxy_list@,
                    remote,
                    our_n,
                    k - 1,
                ),
            decreases k,
        {
            k = k - 1;
            if k != our_n && !self.out_sock_used_exec(remote, k) {
                return Some(k);
            }
        }
        None
    }

    /// Queues one raw datagram for forwarding, unchanged.
    fn push_raw(&mut self, bytes: &[u8], dest: SockAddr, socket_n: usize)
        requires
            socket_n < UDP_SOCKET_N,
        ensures
            final(self).out_seq() == old(self).out_seq() + seq![
                OutboundV { bytes: bytes@, dest, socket_n },
            ],
            final(self).now == old(self).now,
            final(self).rdv_hosts@ == old(self).rdv_hosts@,
            final(self).punch_checks@ == old(self).punch_checks@,
            final(self).proxy_list@ == old(self).proxy_list@,
            final(self).outbound@.len() == old(self).outbound@.len() + 1,
            forall|i: int|
                0 <= i < old(self).outbound@.len() ==> (#[trigger] final(self).outbound@[i])
                    == old(self).outbound@[i],
            forall|i: int|
                old(self).outbound@.len() <= i < final(self).outbound@.len() ==> (#[trigger] final(self).outbound@[i]).socket_n == socket_n,
    {
        let ghost q0 = self.out_seq();
        let item = OutboundItem { bytes: vstd::slice::slice_to_vec(bytes), dest, socket_n };
        proof {
            assert(item@ == (OutboundV { bytes: bytes@, dest, socket_n }));
        }
        self.outbound.push(item);
        proof {
            assert(self.out_seq() =~= q0 + seq![OutboundV { bytes: bytes@, dest, socket_n }]) by {
                assert forall|i: int| 0 <= i < self.out_seq().len() implies self.out_seq()[i] == (
                q0 + seq![OutboundV { bytes: bytes@, dest, socket_n }])[i] by {
                    assert(self.out_seq()[i] == self.outbound@[i]@);
                    if i < q0.len() {
                        assert(q0[i] == old(self).outbound@[i]@);
                    }
                }
                assert(self.out_seq().len() == self.outbound@.len());
            }
        }
    }
}


impl LinkSeekTracker {
    /// Dispatches one control message: registration, punch request, punch
    /// probe, relay set-up, or ping.
    pub fn process_linkseeker_msg(
        &mut self,
        msg: ToMiddlemanMsg,
        our_socket_n: usize,
        socket_addr: SockAddr,
    )
        requires
            old(self).wf(),
            our_socket_n < UDP_SOCKET_N,
            old(self).rdv_hosts@.len() < 0x1_0000_0000,
        ensures
            final(self).wf(),
            control_step(*old(self), msg, our_socket_n, socket_addr, *final(self)),
    {
        match msg {
            ToMiddlemanMsg::Register => {
                let id = self.register_or_refresh(socket_addr);
                let ghost mid = *self;
                self.send_msg(FromMiddlemanMsg::RegisterOk { id }, our_socket_n, socket_addr);
                proof {
                    assert(mid.out_seq() =~= old(self).out_seq());
                    assert(register_step(
                        old(self).rdv_hosts@,
                        socket_addr,
                        old(self).now,
                        id,
                        self.rdv_hosts@,
                    ));
                }
            },
            ToMiddlemanMsg::Request { id, use_proxy: _ } => {
                match self.lookup(id) {
                    Some(host) => {
                        let ghost q0 = self.out_seq();
                        self.send_msg(
                            FromMiddlemanMsg::PunchOrder { remote: socket_addr },
                            our_socket_n,
                            host,
                        );
                        self.send_msg(
                            FromMiddlemanMsg::PunchOrder { remote: host },
                            our_socket_n,
                            socket_addr,
                        );
                        proof {
                            assert(self.out_seq() =~= q0 + out_twice(
                                FromMsgView::PunchOrder { remote: socket_addr },
                                our_socket_n,
                                host,
                            ) + out_twice(
                                FromMsgView::PunchOrder { remote: host },
                                our_socket_n,
                                socket_addr,
                            ));
                        }
                    },
                    None => {
                        let err = err_host_not_exist_v();
                        self.send_msg(
                            FromMiddlemanMsg::RequestErr { msg: err },
                            our_socket_n,
                            socket_addr,
                        );
                    },
                }
            },
            ToMiddlemanMsg::PunchCheck { id } => {
                match self.find_punch(id) {
                    Some(k) => {
                        let c = self.punch_checks[k];
                        if c.first_received.1 != our_socket_n {
                            let ok = c.first_received.0 == socket_addr;
                            self.punch_checks.remove(k);
                            proof {
                                let pre = old(self).punch_checks@;
                                let post = self.punch_checks@;
                                assert(post == pre.remove(k as int));
                                assert forall|a: int, b: int| 0 <= a < b < post.len() implies (
                                #[trigger] post[a]).id != (#[trigger] post[b]).id by {
                                    let pa = if a < k { a } else { a + 1 };
                                    let pb = if b < k { b } else { b + 1 };
                                    assert(post[a] == pre[pa] && post[b] == pre[pb]);
                                }
                                assert forall|a: int| 0 <= a < post.len() implies (
                                #[trigger] post[a]).first_received.1 < UDP_SOCKET_N by {
                                    let pa = if a < k { a } else { a + 1 };
                                    assert(post[a] == pre[pa]);
                                }
                            }
                            let ghost q0 = self.out_seq();
                            self.send_msg(
                                FromMiddlemanMsg::PunchCheckResult { ok },
                                our_socket_n,
                                socket_addr,
                            );
                            self.send_msg(
                                FromMiddlemanMsg::PunchCheckResult { ok },
                                c.first_received.1,
                                c.first_received.0,
                            );
                            proof {
                                assert(self.out_seq() =~= q0 + out_twice(
                                    FromMsgView::PunchCheckResult { ok },
                                    our_socket_n,
                                    socket_addr,
                                ) + out_twice(
                                    FromMsgView::PunchCheckResult { ok },
                                    c.first_received.1,
                                    c.first_received.0,
                                ));
                            }
                        }
                    },
                    None => {
                        let check = PunchCheck::new(id, (socket_addr, our_socket_n), self.now);
                        self.punch_checks.push(check);
                        proof {
                            lemma_find_punch_props(old(self).punch_checks@, id);
                            let pre = old(self).punch_checks@;
                            let post = self.punch_checks@;
                            assert forall|a: int, b: int| 0 <= a < b < post.len() implies (
                            #[trigger] post[a]).id != (#[trigger] post[b]).id by {
                                if b < post.len() - 1 {
                                    assert(post[a] == pre[a] && post[b] == pre[b]);
                                } else {
                                    assert(post[a] == pre[a]);
                                    assert(pre[a].id != id);
                                }
                            }
                        }
                    },
                }
            },
            ToMiddlemanMsg::ProxyTo { remote } => {
                if self.proxy_exists(socket_addr, remote) {
                } else {
                    match self.pick_out_socket(remote, our_socket_n) {
                        Some(k) => {
                            let session = ProxyData::new(
                                (socket_addr, our_socket_n),
                                (remote, k),
                                self.now,
                            );
                            self.proxy_list.push(session);
                            proof {
                                lemma_pick_out_props(
                                    old(self).proxy_list@,
                                    remote,
                                    our_socket_n,
                                    UDP_SOCKET_N - 1,
                                );
                                let pre = old(self).proxy_list@;
                                let post = self.proxy_list@;
                                assert forall|a: int, b: int|
                                    0 <= a < b < post.len() && (#[trigger] post[a]).outgoing == (
                                    #[trigger] post[b]).outgoing implies post[a].out_socket_n
                                    != post[b].out_socket_n by {
                                    if b < post.len() - 1 {
                                        assert(post[a] == pre[a] && post[b] == pre[b]);
                                    } else {
                                        assert(post[a] == pre[a]);
                                        if pre[a].outgoing == remote && pre[a].out_socket_n
                                            == k {
                                            assert(out_sock_used(pre, remote, k as int));
                                        }
                                    }
                                }
                            }
                            self.send_msg(
                                FromMiddlemanMsg::ProxyResult { remote, ok: true },
                                our_socket_n,
                                socket_addr,
                            );
                        },
                        None => {
                            self.send_msg(
                                FromMiddlemanMsg::ProxyResult { remote, ok: false },
                                our_socket_n,
                                socket_addr,
                            );
                        },
                    }
                }
            },
            ToMiddlemanMsg::Ping { id } => {
                self.send_msg(FromMiddlemanMsg::Pong { id }, our_socket_n, socket_addr);
            },
        }
    }

    /// Forwards a non-control datagram along its relay session, if one
    /// matches; otherwise drops it.
    pub fn process_other_msg(&mut self, bytes: &[u8], our_socket_n: usize, socket_addr: SockAddr)
        requires
            old(self).wf(),
        ensures
            final(self).wf(),
            forward_step(*old(self), bytes@, our_socket_n, socket_addr, *final(self)),
    {
        match self.find_proxy(our_socket_n, socket_addr) {
            None => {
                proof {
                    assert(self.out_seq() =~= old(self).out_seq());
                }
            },
            Some(k) => {
                let p = self.proxy_list[k];
                if p.incoming == socket_addr {
                    let bumped = if p.in_packets < u64::MAX {
                        p.in_packets + 1
                    } else {
                        p.in_packets
                    };
                    let updated = ProxyData { in_packets: bumped, last_active: self.now, ..p };
                    self.proxy_list.set(k, updated);
                    proof {
                        self.lemma_update_keeps_wf(*old(self), k as int, updated);
                    }
                    self.push_raw(bytes, p.outgoing, p.out_socket_n);
                } else {
                    let bumped = if p.out_packets < u64::MAX {
                        p.out_packets + 1
                    } else {
                        p.out_packets
                    };
                    let updated = ProxyData { out_packets: bumped, last_active: self.now, ..p };
                    self.proxy_list.set(k, updated);
                    proof {
                        self.lemma_update_keeps_wf(*old(self), k as int, updated);
                    }
                    self.push_raw(bytes, p.incoming, p.in_socket_n);
                }
            },
        }
    }

    /// Replacing a session by one with the same peers and sockets keeps the
    /// invariant.
    proof fn lemma_update_keeps_wf(&self, pre: LinkSeekTracker, k: int, updated: ProxyData)
        requires
            pre.wf(),
            0 <= k < pre.proxy_list@.len(),
            self.proxy_list@ == pre.proxy_list@.update(k, updated),
            updated.incoming == pre.proxy_list@[k].incoming,
            updated.in_socket_n == pre.proxy_list@[k].in_socket_n,
            updated.outgoing == pre.proxy_list@[k].outgoing,
            updated.out_socket_n == pre.proxy_list@[k].out_socket_n,
            updated.last_active <= pre.now,
            self.now == pre.now,
            self.rdv_hosts@ == pre.rdv_hosts@,
            self.punch_checks@ == pre.punch_checks@,
            self.outbound@ == pre.outbound@,
        ensures
            self.wf(),
    {
        let post = self.proxy_list@;
        let old_list = pre.proxy_list@;
        assert forall|i: int| 0 <= i < post.len() implies (#[trigger] post[i]).in_socket_n
            < UDP_SOCKET_N && post[i].out_socket_n < UDP_SOCKET_N && post[i].in_socket_n
            != post[i].out_socket_n && post[i].last_active <= self.now by {
            if i != k {
                assert(post[i] == old_list[i]);
            }
        }
        assert forall|i: int, j: int|
            0 <= i < j < post.len() && (#[trigger] post[i]).outgoing == (
            #[trigger] post[j]).outgoing implies post[i].out_socket_n != post[j].out_socket_n by {
            let oi = if i == k {
                old_list[k]
            } else {
                old_list[i]
            };
            assert(post[i].outgoing == old_list[i].outgoing && post[i].out_socket_n
                == old_list[i].out_socket_n);
            assert(post[j].outgoing == old_list[j].outgoing && post[j].out_socket_n
                == old_list[j].out_socket_n);
        }
    }

    /// Takes one arriving datagram: a control message goes to the
    /// dispatcher, anything else to the relay forwarder.
    pub fn process_incoming(&mut self, bytes: &[u8], our_socket_n: usize, socket_addr: SockAddr)
        requires
            old(self).wf(),
            our_socket_n < UDP_SOCKET_N,
            old(self).rdv_hosts@.len() < 0x1_0000_0000,
        ensures
            final(self).wf(),
            match crate::parse::spec_parse_to(bytes@) {
                Some(m) => control_step(*old(self), m, our_socket_n, socket_addr, *final(self)),
                None => forward_step(*old(self), bytes@, our_socket_n, socket_addr, *final(self)),
            },
    {
        match ToMiddlemanMsg::parse(bytes) {
            Some(msg) => self.process_linkseeker_msg(msg, our_socket_n, socket_addr),
            None => self.process_other_msg(bytes, our_socket_n, socket_addr),
        }
    }
}

} // verus!
