//! The control messages the server exchanges with its clients, and the
//! fixed tokens of the wire format: the magic prefix, the command words and
//! the field keys.

use vstd::prelude::*;
use crate::addr::SockAddr;
use crate::tokens::token_clean;

verus! {

/// ASCII '/'
pub const SLASH: u8 = 47;

/// ASCII '='
pub const EQUALS: u8 = 61;

/// A message a client sends to the server.
#[derive(Debug, Clone, Copy, PartialEq, Eq, Structural)]
pub enum ToMiddlemanMsg {
    /// Register with the server; answered with an id.
    Register,
    /// Ask to be connected to the host registered under `id`.
    Request { id: u32, use_proxy: bool },
    /// Probe whether this client's NAT keeps its source port stable.
    PunchCheck { id: u32 },
    /// Ask the server to relay between this client and `remote`.
    ProxyTo { remote: SockAddr },
    Ping { id: u32 },
}

/// A message the server sends to a client.
#[derive(Debug, Clone, PartialEq, Eq)]
pub enum FromMiddlemanMsg {
    RegisterOk { id: u32 },
    RegisterErr { msg: Vec<u8> },
    /// The request to connect to a registered host has failed.
    RequestErr { msg: Vec<u8> },
    /// Order the client or host to punch toward `remote`.
    PunchOrder { remote: SockAddr },
    /// Order a client to punch toward this server, at the port given.
    PunchLinkseeker { port: u16 },
    PunchCheckResult { ok: bool },
    ProxyResult { remote: SockAddr, ok: bool },
    Pong { id: u32 },
}

/// The mathematical value of a server→client message: text fields are byte
/// sequences.
pub enum FromMsgView {
    RegisterOk { id: u32 },
    RegisterErr { msg: Seq<u8> },
    RequestErr { msg: Seq<u8> },
    PunchOrder { remote: SockAddr },
    PunchLinkseeker { port: u16 },
    PunchCheckResult { ok: bool },
    ProxyResult { remote: SockAddr, ok: bool },
    Pong { id: u32 },
}

impl View for FromMiddlemanMsg {
    type V = FromMsgView;

    open spec fn view(&self) -> FromMsgView {
        match self {
            FromMiddlemanMsg::RegisterOk { id } => FromMsgView::RegisterOk { id: *id },
            FromMiddlemanMsg::RegisterErr { msg } => FromMsgView::RegisterErr { msg: msg@ },
            FromMiddlemanMsg::RequestErr { msg } => FromMsgView::RequestErr { msg: msg@ },
            FromMiddlemanMsg::PunchOrder { remote } => FromMsgView::PunchOrder { remote: *remote },
            FromMiddlemanMsg::PunchLinkseeker { port } => FromMsgView::PunchLinkseeker {
                port: *port,
            },
            FromMiddlemanMsg::PunchCheckResult { ok } => FromMsgView::PunchCheckResult {
                ok: *ok,
            },
            FromMiddlemanMsg::ProxyResult { remote, ok } => FromMsgView::ProxyResult {
                remote: *remote,
                ok: *ok,
            },
            FromMiddlemanMsg::Pong { id } => FromMsgView::Pong { id: *id },
        }
    }
}

/// Whether a server→client message can be put on the wire faithfully: a
/// free-text field must not contain the separator '/' nor '='.
pub open spec fn from_msg_wf(m: FromMsgView) -> bool {
    match m {
        FromMsgView::RegisterErr { msg } => token_clean(msg, SLASH) && token_clean(msg, EQUALS),
        FromMsgView::RequestErr { msg } => token_clean(msg, SLASH) && token_clean(msg, EQUALS),
        _ => true,
    }
}

/// The magic prefix every control datagram starts with: "U".
pub open spec fn magic() -> Seq<u8> {
    seq![85u8]
}

/// The magic prefix, as bytes.
pub fn magic_v() -> (r: Vec<u8>)
    ensures
        r@ == magic(),
{
    let mut r: Vec<u8> = Vec::new();
    r.push(85);
    proof {
        assert(r@ =~= magic());
    }
    r
}

/// The wire token "register".
pub open spec fn cmd_register() -> Seq<u8> {
    seq![114u8, 101u8, 103u8, 105u8, 115u8, 116u8, 101u8, 114u8]
}

/// The wire token "register", as bytes.
pub fn cmd_register_v() -> (r: Vec<u8>)
    ensures
        r@ == cmd_register(),
{
    let mut r: Vec<u8> = Vec::new();
    r.push(114);
    r.push(101);
    r.push(103);
    r.push(105);
    r.push(115);
    r.push(116);
    r.push(101);
    r.push(114);
    proof {
        assert(r@ =~= cmd_register());
    }
    r
}

/// The wire token "registerok".
pub open spec fn cmd_registerok() -> Seq<u8> {
    seq![114u8, 101u8, 103u8, 105u8, 115u8, 116u8, 101u8, 114u8, 111u8, 107u8]
}

/// The wire token "registerok", as bytes.
pub fn cmd_registerok_v() -> (r: Vec<u8>)
    ensures
        r@ == cmd_registerok(),
{
    let mut r: Vec<u8> = Vec::new();
    r.push(114);
    r.push(101);
    r.push(103);
    r.push(105);
    r.push(115);
    r.push(116);
    r.push(101);
    r.push(114);
    r.push(111);
    r.push(107);
    proof {
        assert(r@ =~= cmd_registerok());
    }
    r
}

/// The wire token "registererr".
pub open spec fn cmd_registererr() -> Seq<u8> {
    seq![114u8, 101u8, 103u8, 105u8, 115u8, 116u8, 101u8, 114u8, 101u8, 114u8, 114u8]
}

/// The wire token "registererr", as bytes.
pub fn cmd_registererr_v() -> (r: Vec<u8>)
    ensures
        r@ == cmd_registererr(),
{
    let mut r: Vec<u8> = Vec::new();
    r.push(114);
    r.push(101);
    r.push(103);
    r.push(105);
    r.push(115);
    r.push(116);
    r.push(101);
    r.push(114);
    r.push(101);
    r.push(114);
    r.push(114);
    proof {
        assert(r@ =~= cmd_registererr());
    }
    r
}

/// The wire token "request".
pub open spec fn cmd_request() -> Seq<u8> {
    seq![114u8, 101u8, 113u8, 117u8, 101u8, 115u8, 116u8]
}

/// The wire token "request", as bytes.
pub fn cmd_request_v() -> (r: Vec<u8>)
    ensures
        r@ == cmd_request(),
{
    let mut r: Vec<u8> = Vec::new();
    r.push(114);
    r.push(101);
    r.push(113);
    r.push(117);
    r.push(101);
    r.push(115);
    r.push(116);
    proof {
        assert(r@ =~= cmd_request());
    }
    r
}

/// The wire token "requesterr".
pub open spec fn cmd_requesterr() -> Seq<u8> {
    seq![114u8, 101u8, 113u8, 117u8, 101u8, 115u8, 116u8, 101u8, 114u8, 114u8]
}

/// The wire token "requesterr", as bytes.
pub fn cmd_requesterr_v() -> (r: Vec<u8>)
    ensures
        r@ == cmd_requesterr(),
{
    let mut r: Vec<u8> = Vec::new();
    r.push(114);
    r.push(101);
    r.push(113);
    r.push(117);
    r.push(101);
    r.push(115);
    r.push(116);
    r.push(101);
    r.push(114);
    r.push(114);
    proof {
        assert(r@ =~= cmd_requesterr());
    }
    r
}

/// The wire token "punchorder".
pub open spec fn cmd_punchorder() -> Seq<u8> {
    seq![112u8, 117u8, 110u8, 99u8, 104u8, 111u8, 114u8, 100u8, 101u8, 114u8]
}

/// The wire token "punchorder", as bytes.
pub fn cmd_punchorder_v() -> (r: Vec<u8>)
    ensures
        r@ == cmd_punchorder(),
{
    let mut r: Vec<u8> = Vec::new();
    r.push(112);
    r.push(117);
    r.push(110);
    r.push(99);
    r.push(104);
    r.push(111);
    r.push(114);
    r.push(100);
    r.push(101);
    r.push(114);
    proof {
        assert(r@ =~= cmd_punchorder());
    }
    r
}

/// The wire token "punchlnksk".
pub open spec fn cmd_punchlnksk() -> Seq<u8> {
    seq![112u8, 117u8, 110u8, 99u8, 104u8, 108u8, 110u8, 107u8, 115u8, 107u8]
}

/// The wire token "punchlnksk", as bytes.
pub fn cmd_punchlnksk_v() -> (r: Vec<u8>)
    ensures
        r@ == cmd_punchlnksk(),
{
    let mut r: Vec<u8> = Vec::new();
    r.push(112);
    r.push(117);
    r.push(110);
    r.push(99);
    r.push(104);
    r.push(108);
    r.push(110);
    r.push(107);
    r.push(115);
    r.push(107);
    proof {
        assert(r@ =~= cmd_punchlnksk());
    }
    r
}

/// The wire token "punchcheck".
pub open spec fn cmd_punchcheck() -> Seq<u8> {
    seq![112u8, 117u8, 110u8, 99u8, 104u8, 99u8, 104u8, 101u8, 99u8, 107u8]
}

/// The wire token "punchcheck", as bytes.
pub fn cmd_punchcheck_v() -> (r: Vec<u8>)
    ensures
        r@ == cmd_punchcheck(),
{
    let mut r: Vec<u8> = Vec::new();
    r.push(112);
    r.push(117);
    r.push(110);
    r.push(99);
    r.push(104);
    r.push(99);
    r.push(104);
    r.push(101);
    r.push(99);
    r.push(107);
    proof {
        assert(r@ =~= cmd_punchcheck());
    }
    r
}

/// The wire token "punchcheckr".
pub open spec fn cmd_punchcheckr() -> Seq<u8> {
    seq![112u8, 117u8, 110u8, 99u8, 104u8, 99u8, 104u8, 101u8, 99u8, 107u8, 114u8]
}

/// The wire token "punchcheckr", as bytes.
pub fn cmd_punchcheckr_v() -> (r: Vec<u8>)
    ensures
        r@ == cmd_punchcheckr(),
{
    let mut r: Vec<u8> = Vec::new();
    r.push(112);
    r.push(117);
    r.push(110);
    r.push(99);
    r.push(104);
    r.push(99);
    r.push(104);
    r.push(101);
    r.push(99);
    r.push(107);
    r.push(114);
    proof {
        assert(r@ =~= cmd_punchcheckr());
    }
    r
}

/// The wire token "proxy".
pub open spec fn cmd_proxy() -> Seq<u8> {
    seq![112u8, 114u8, 111u8, 120u8, 121u8]
}

/// The wire token "proxy", as bytes.
pub fn cmd_proxy_v() -> (r: Vec<u8>)
    ensures
        r@ == cmd_proxy(),
{
    let mut r: Vec<u8> = Vec::new();
    r.push(112);
    r.push(114);
    r.push(111);
    r.push(120);
    r.push(121);
    proof {
        assert(r@ =~= cmd_proxy());
    }
    r
}

/// The wire token "proxyr".
pub open spec fn cmd_proxyr() -> Seq<u8> {
    seq![112u8, 114u8, 111u8, 120u8, 121u8, 114u8]
}

/// The wire token "proxyr", as bytes.
pub fn cmd_proxyr_v() -> (r: Vec<u8>)
    ensures
        r@ == cmd_proxyr(),
{
    let mut r: Vec<u8> = Vec::new();
    r.push(112);
    r.push(114);
    r.push(111);
    r.push(120);
    r.push(121);
    r.push(114);
    proof {
        assert(r@ =~= cmd_proxyr());
    }
    r
}

/// The wire token "ping".
pub open spec fn cmd_ping() -> Seq<u8> {
    seq![112u8, 105u8, 110u8, 103u8]
}

/// The wire token "ping", as bytes.
pub fn cmd_ping_v() -> (r: Vec<u8>)
    ensures
        r@ == cmd_ping(),
{
    let mut r: Vec<u8> = Vec::new();
    r.push(112);
    r.push(105);
    r.push(110);
    r.push(103);
    proof {
        assert(r@ =~= cmd_ping());
    }
    r
}

/// The wire token "pong".
pub open spec fn cmd_pong() -> Seq<u8> {
    seq![112u8, 111u8, 110u8, 103u8]
}

/// The wire token "pong", as bytes.
pub fn cmd_pong_v() -> (r: Vec<u8>)
    ensures
        r@ == cmd_pong(),
{
    let mut r: Vec<u8> = Vec::new();
    r.push(112);
    r.push(111);
    r.push(110);
    r.push(103);
    proof {
        assert(r@ =~= cmd_pong());
    }
    r
}

/// The wire token "id".
pub open spec fn key_id() -> Seq<u8> {
    seq![105u8, 100u8]
}

/// The wire token "id", as bytes.
pub fn key_id_v() -> (r: Vec<u8>)
    ensures
        r@ == key_id(),
{
    let mut r: Vec<u8> = Vec::new();
    r.push(105);
    r.push(100);
    proof {
        assert(r@ =~= key_id());
    }
    r
}

/// The wire token "useproxy".
pub open spec fn key_useproxy() -> Seq<u8> {
    seq![117u8, 115u8, 101u8, 112u8, 114u8, 111u8, 120u8, 121u8]
}

/// The wire token "useproxy", as bytes.
pub fn key_useproxy_v() -> (r: Vec<u8>)
    ensures
        r@ == key_useproxy(),
{
    let mut r: Vec<u8> = Vec::new();
    r.push(117);
    r.push(115);
    r.push(101);
    r.push(112);
    r.push(114);
    r.push(111);
    r.push(120);
    r.push(121);
    proof {
        assert(r@ =~= key_useproxy());
    }
    r
}

/// The wire token "remote".
pub open spec fn key_remote() -> Seq<u8> {
    seq![114u8, 101u8, 109u8, 111u8, 116u8, 101u8]
}

/// The wire token "remote", as bytes.
pub fn key_remote_v() -> (r: Vec<u8>)
    ensures
        r@ == key_remote(),
{
    let mut r: Vec<u8> = Vec::new();
    r.push(114);
    r.push(101);
    r.push(109);
    r.push(111);
    r.push(116);
    r.push(101);
    proof {
        assert(r@ =~= key_remote());
    }
    r
}

/// The wire token "ok".
pub open spec fn key_ok() -> Seq<u8> {
    seq![111u8, 107u8]
}

/// The wire token "ok", as bytes.
pub fn key_ok_v() -> (r: Vec<u8>)
    ensures
        r@ == key_ok(),
{
    let mut r: Vec<u8> = Vec::new();
    r.push(111);
    r.push(107);
    proof {
        assert(r@ =~= key_ok());
    }
    r
}

/// The wire token "port".
pub open spec fn key_port() -> Seq<u8> {
    seq![112u8, 111u8, 114u8, 116u8]
}

/// The wire token "port", as bytes.
pub fn key_port_v() -> (r: Vec<u8>)
    ensures
        r@ == key_port(),
{
    let mut r: Vec<u8> = Vec::new();
    r.push(112);
    r.push(111);
    r.push(114);
    r.push(116);
    proof {
        assert(r@ =~= key_port());
    }
    r
}

/// The wire token "msg".
pub open spec fn key_msg() -> Seq<u8> {
    seq![109u8, 115u8, 103u8]
}

/// The wire token "msg", as bytes.
pub fn key_msg_v() -> (r: Vec<u8>)
    ensures
        r@ == key_msg(),
{
    let mut r: Vec<u8> = Vec::new();
    r.push(109);
    r.push(115);
    r.push(103);
    proof {
        assert(r@ =~= key_msg());
    }
    r
}

} // verus!
