//! Parsing of control messages: strip the magic prefix, split on '/', read
//! the command word, then the `key=value` fields. Unknown keys are ignored;
//! a field token without exactly one '=' invalidates the whole message; for
//! each known key the last occurrence decides.

use vstd::prelude::*;
use crate::addr::{spec_parse_addr, parse_addr, SockAddr, spec_port};
use crate::data::{
    FromMiddlemanMsg, FromMsgView, ToMiddlemanMsg, magic, magic_v, SLASH, EQUALS, cmd_register,
    cmd_registerok, cmd_registererr, cmd_request, cmd_requesterr, cmd_punchorder, cmd_punchlnksk,
    cmd_punchcheck, cmd_punchcheckr, cmd_proxy, cmd_proxyr, cmd_ping, cmd_pong, cmd_register_v,
    cmd_registerok_v, cmd_registererr_v, cmd_request_v, cmd_requesterr_v, cmd_punchorder_v,
    cmd_punchlnksk_v, cmd_punchcheck_v, cmd_punchcheckr_v, cmd_proxy_v, cmd_proxyr_v, cmd_ping_v,
    cmd_pong_v, key_id, key_useproxy, key_remote, key_ok, key_port, key_msg, key_id_v,
    key_useproxy_v, key_remote_v, key_ok_v, key_port_v, key_msg_v,
};
use crate::digits::{spec_parse_dec, parse_dec};
use crate::tokens::{split_on, split_bytes, find_byte, lemma_first_idx, subvec};
use vstd::slice::{slice_subrange, slice_to_vec};

verus! {

/// The bytes after the magic prefix, or nothing if the prefix is absent.
pub open spec fn strip_magic(s: Seq<u8>) -> Option<Seq<u8>> {
    if s.len() >= magic().len() && s.take(magic().len() as int) == magic() {
        Some(s.skip(magic().len() as int))
    } else {
        None
    }
}

/// A field token split at its '=': defined only when the token holds
/// exactly one '='.
pub open spec fn kv_split(t: Seq<u8>) -> Option<(Seq<u8>, Seq<u8>)> {
    let ts = split_on(t, EQUALS);
    if ts.len() == 2 {
        Some((ts[0], ts[1]))
    } else {
        None
    }
}

/// All field tokens split at their '='; nothing if any token is malformed.
pub open spec fn kvs_of(ts: Seq<Seq<u8>>) -> Option<Seq<(Seq<u8>, Seq<u8>)>>
    decreases ts.len(),
{
    if ts.len() == 0 {
        Some(Seq::empty())
    } else {
        match (kvs_of(ts.drop_last()), kv_split(ts.last())) {
            (Some(kvs), Some(kv)) => Some(kvs.push(kv)),
            _ => None,
        }
    }
}

/// The value of the last field with the given key, if any.
pub open spec fn last_val(kvs: Seq<(Seq<u8>, Seq<u8>)>, key: Seq<u8>) -> Option<Seq<u8>>
    decreases kvs.len(),
{
    if kvs.len() == 0 {
        None
    } else if kvs.last().0 == key {
        Some(kvs.last().1)
    } else {
        last_val(kvs.drop_last(), key)
    }
}

/// A decimal field value that fits an id.
pub open spec fn spec_u32_field(t: Seq<u8>) -> Option<u32> {
    match spec_parse_dec(t) {
        Some(v) => if v <= 0xFFFF_FFFF {
            Some(v as u32)
        } else {
            None
        },
        None => None,
    }
}

/// A boolean field value: "1" or "0", anything else invalid.
pub open spec fn spec_bool_field(t: Seq<u8>) -> Option<bool> {
    if t == seq![49u8] {
        Some(true)
    } else if t == seq![48u8] {
        Some(false)
    } else {
        None
    }
}

/// The client→server message denoted by a datagram, if any.
pub open spec fn spec_parse_to(s: Seq<u8>) -> Option<ToMiddlemanMsg> {
    match strip_magic(s) {
        None => None,
        Some(tail) => {
            let ts = split_on(tail, SLASH);
            let cmd = ts[0];
            match kvs_of(ts.skip(1)) {
                None => None,
                Some(kvs) => {
                    if cmd == cmd_register() {
                        Some(ToMiddlemanMsg::Register)
                    } else if cmd == cmd_request() {
                        match (
                            opt_u32(last_val(kvs, key_id())),
                            opt_bool(last_val(kvs, key_useproxy())),
                        ) {
                            (Some(id), Some(up)) => Some(
                                ToMiddlemanMsg::Request { id, use_proxy: up },
                            ),
                            _ => None,
                        }
                    } else if cmd == cmd_punchcheck() {
                        match opt_u32(last_val(kvs, key_id())) {
                            Some(id) => Some(ToMiddlemanMsg::PunchCheck { id }),
                            None => None,
                        }
                    } else if cmd == cmd_proxy() {
                        match opt_addr(last_val(kvs, key_remote())) {
                            Some(remote) => Some(ToMiddlemanMsg::ProxyTo { remote }),
                            None => None,
                        }
                    } else if cmd == cmd_ping() {
                        match opt_u32(last_val(kvs, key_id())) {
                            Some(id) => Some(ToMiddlemanMsg::Ping { id }),
                            None => None,
                        }
                    } else {
                        None
                    }
                },
            }
        },
    }
}

/// The server→client message denoted by a datagram, if any.
pub open spec fn spec_parse_from(s: Seq<u8>) -> Option<FromMsgView> {
    match strip_magic(s) {
        None => None,
        Some(tail) => {
            let ts = split_on(tail, SLASH);
            let cmd = ts[0];
            match kvs_of(ts.skip(1)) {
                None => None,
                Some(kvs) => {
                    if cmd == cmd_registerok() {
                        match opt_u32(last_val(kvs, key_id())) {
                            Some(id) => Some(FromMsgView::RegisterOk { id }),
                            None => None,
                        }
                    } else if cmd == cmd_registererr() {
                        match last_val(kvs, key_msg()) {
                            Some(msg) => Some(FromMsgView::RegisterErr { msg }),
                            None => None,
                        }
                    } else if cmd == cmd_requesterr() {
                        match last_val(kvs, key_msg()) {
                            Some(msg) => Some(FromMsgView::RequestErr { msg }),
                            None => None,
                        }
                    } else if cmd == cmd_punchorder() {
                        match opt_addr(last_val(kvs, key_remote())) {
                            Some(remote) => Some(FromMsgView::PunchOrder { remote }),
                            None => None,
                        }
                    } else if cmd == cmd_punchlnksk() {
                        match opt_port(last_val(kvs, key_port())) {
                            Some(port) => Some(FromMsgView::PunchLinkseeker { port }),
                            None => None,
                        }
                    } else if cmd == cmd_punchcheckr() {
                        match opt_bool(last_val(kvs, key_ok())) {
                            Some(ok) => Some(FromMsgView::PunchCheckResult { ok }),
                            None => None,
                        }
                    } else if cmd == cmd_proxyr() {
                        match (
                            opt_addr(last_val(kvs, key_remote())),
                            opt_bool(last_val(kvs, key_ok())),
                        ) {
                            (Some(remote), Some(ok)) => Some(
                                FromMsgView::ProxyResult { remote, ok },
                            ),
                            _ => None,
                        }
                    } else if cmd == cmd_pong() {
                        match opt_u32(last_val(kvs, key_id())) {
                            Some(id) => Some(FromMsgView::Pong { id }),
                            None => None,
                        }
                    } else {
                        None
                    }
                },
            }
        },
    }
}

/// A required id field: present and decimal.
pub open spec fn opt_u32(v: Option<Seq<u8>>) -> Option<u32> {
    match v {
        Some(t) => spec_u32_field(t),
        None => None,
    }
}

pub open spec fn opt_bool(v: Option<Seq<u8>>) -> Option<bool> {
    match v {
        Some(t) => spec_bool_field(t),
        None => None,
    }
}

pub open spec fn opt_addr(v: Option<Seq<u8>>) -> Option<SockAddr> {
    match v {
        Some(t) => spec_parse_addr(t),
        None => None,
    }
}

pub open spec fn opt_port(v: Option<Seq<u8>>) -> Option<u16> {
    match v {
        Some(t) => spec_port(t),
        None => None,
    }
}

/// Whether two byte strings hold the same bytes.
pub fn bytes_eq(a: &[u8], b: &[u8]) -> (r: bool)
    ensures
        r <==> a@ == b@,
{
    let n = a.len();
    if n != b.len() {
        proof {
            assert(a@ != b@);
        }
        return false;
    }
    let mut i: usize = 0;
    while i < n
        invariant
            0 <= i <= n,
            n == a@.len(),
            n == b@.len(),
            forall|j: int| 0 <= j < i ==> a@[j] == b@[j],
        decreases n - i,
    {
        if a[i] != b[i] {
            proof {
                assert(a@[i as int] != b@[i as int]);
            }
            return false;
        }
        i = i + 1;
    }
    proof {
        assert(a@ =~= b@);
    }
    true
}

/// Strips the magic prefix; what remains is the command and its fields.
pub fn check_head(bytes: &[u8]) -> (r: Option<&[u8]>)
    ensures
        match r {
            Some(t) => strip_magic(bytes@) == Some(t@),
            None => strip_magic(bytes@) is None,
        },
{
    let m = magic_v();
    let ml = m.len();
    if bytes.len() < ml {
        return None;
    }
    let head = slice_subrange(bytes, 0, ml);
    if !bytes_eq(head, m.as_slice()) {
        proof {
            assert(bytes@.take(magic().len() as int) != magic());
        }
        return None;
    }
    let tail = slice_subrange(bytes, ml, bytes.len());
    proof {
        assert(bytes@.take(magic().len() as int) == magic());
        assert(tail@ =~= bytes@.skip(magic().len() as int));
    }
    Some(tail)
}

/// Splits one field token at its '='; the token must hold exactly one.
pub fn parse_kv(input: &[u8]) -> (r: Option<(Vec<u8>, Vec<u8>)>)
    ensures
        match r {
            Some(kv) => kv_split(input@) == Some((kv.0@, kv.1@)),
            None => kv_split(input@) is None,
        },
{
    let n = input.len();
    let i = find_byte(input, EQUALS);
    proof {
        lemma_first_idx(input@, EQUALS);
    }
    if i == n {
        proof {
            assert(split_on(input@, EQUALS).len() == 1);
        }
        return None;
    }
    let value = slice_subrange(input, i + 1, n);
    proof {
        assert(value@ =~= input@.skip(i + 1));
    }
    let j = find_byte(value, EQUALS);
    proof {
        assert(split_on(input@, EQUALS) == seq![input@.take(i as int)] + split_on(
            input@.skip(i + 1),
            EQUALS,
        ));
    }
    if j != value.len() {
        proof {
            lemma_first_idx(value@, EQUALS);
            assert(split_on(value@, EQUALS).len() >= 2) by {
                crate::tokens::lemma_split_on_len(value@.skip(j + 1), EQUALS);
            }
            assert(split_on(input@, EQUALS).len() >= 3);
        }
        return None;
    }
    proof {
        assert(split_on(value@, EQUALS) == seq![value@]);
        assert(split_on(input@, EQUALS) =~= seq![input@.take(i as int), value@]);
    }
    let key = subvec(input, 0, i);
    let val = slice_to_vec(value);
    Some((key, val))
}

/// Splits every field token (those after the command) at its '='.
pub fn process_all_kv(toks: &Vec<Vec<u8>>, from: usize) -> (r: Option<Vec<(Vec<u8>, Vec<u8>)>>)
    requires
        0 <= from <= toks@.len(),
    ensures
        ({
            let m = toks@.map_values(|t: Vec<u8>| t@).skip(from as int);
            match r {
                Some(kvs) => kvs_of(m) == Some(
                    kvs@.map_values(|p: (Vec<u8>, Vec<u8>)| (p.0@, p.1@)),
                ),
                None => kvs_of(m) is None,
            }
        }),
{
    let ghost full = toks@.map_values(|t: Vec<u8>| t@);
    let ghost m = full.skip(from as int);
    let n = toks.len();
    let mut out: Vec<(Vec<u8>, Vec<u8>)> = Vec::new();
    let mut i: usize = from;
    while i < n
        invariant
            from <= i <= n,
            n == toks@.len(),
            full == toks@.map_values(|t: Vec<u8>| t@),
            m == full.skip(from as int),
            out@.len() == i - from,
            kvs_of(m.take(i - from)) == Some(
                out@.map_values(|p: (Vec<u8>, Vec<u8>)| (p.0@, p.1@)),
            ),
        decreases n - i,
    {
        let ghost out0 = out@;
        match parse_kv(toks[i].as_slice()) {
            Some(kv) => {
                let ghost kvv = (kv.0@, kv.1@);
                out.push(kv);
                proof {
                    let cur = m.take(i + 1 - from);
                    assert(cur.drop_last() =~= m.take(i - from));
                    assert(cur.last() == m[i - from]);
                    assert(m[i - from] == full[i as int]);
                    assert(full[i as int] == toks@[i as int]@);
                    assert(kv_split(cur.last()) == Some(kvv));
                    assert(kvs_of(cur) == Some(
                        out0.map_values(|p: (Vec<u8>, Vec<u8>)| (p.0@, p.1@)).push(kvv),
                    ));
                    assert(out0.push(kv).map_values(|p: (Vec<u8>, Vec<u8>)| (p.0@, p.1@))
                        =~= out0.map_values(|p: (Vec<u8>, Vec<u8>)| (p.0@, p.1@)).push(kvv));
                }
            },
            None => {
                proof {
                    assert(m[i - from] == toks@[i as int]@);
                    lemma_kvs_of_none(m, i - from);
                }
                return None;
            },
        }
        i = i + 1;
    }
    proof {
        assert(m.take(n - from) =~= m);
    }
    Some(out)
}

/// A malformed field token anywhere invalidates the whole list.
pub proof fn lemma_kvs_of_none(ts: Seq<Seq<u8>>, k: int)
    requires
        0 <= k < ts.len(),
        kv_split(ts[k]) is None,
    ensures
        kvs_of(ts) is None,
    decreases ts.len(),
{
    if k < ts.len() - 1 {
        assert(ts.drop_last()[k] == ts[k]);
        lemma_kvs_of_none(ts.drop_last(), k);
    }
}

/// Finds the last field with the given key.
fn last_kv(kvs: &Vec<(Vec<u8>, Vec<u8>)>, key: &[u8]) -> (r: Option<usize>)
    ensures
        ({
            let m = kvs@.map_values(|p: (Vec<u8>, Vec<u8>)| (p.0@, p.1@));
            match r {
                Some(i) => i < kvs@.len() && last_val(m, key@) == Some(m[i as int].1),
                None => last_val(m, key@) is None,
            }
        }),
{
    let ghost m = kvs@.map_values(|p: (Vec<u8>, Vec<u8>)| (p.0@, p.1@));
    let mut i: usize = kvs.len();
    proof {
        assert(m.take(i as int) =~= m);
    }
    while i > 0
        invariant
            0 <= i <= kvs@.len(),
            m == kvs@.map_values(|p: (Vec<u8>, Vec<u8>)| (p.0@, p.1@)),
            last_val(m, key@) == last_val(m.take(i as int), key@),
        decreases i,
    {
        i = i - 1;
        if bytes_eq(kvs[i].0.as_slice(), key) {
            proof {
                let cur = m.take(i + 1);
                assert(cur.last() == m[i as int]);
                assert(m[i as int] == (kvs@[i as int].0@, kvs@[i as int].1@));
                assert(last_val(cur, key@) == Some(m[i as int].1));
            }
            return Some(i);
        }
        proof {
            let cur = m.take(i + 1);
            assert(cur.last() == m[i as int]);
            assert(m[i as int] == (kvs@[i as int].0@, kvs@[i as int].1@));
            assert(m[i as int].0 != key@);
            assert(cur.drop_last() =~= m.take(i as int));
        }
    }
    proof {
        assert(m.take(0) =~= Seq::<(Seq<u8>, Seq<u8>)>::empty());
    }
    None
}

/// Decodes a required id field.
fn field_u32(kvs: &Vec<(Vec<u8>, Vec<u8>)>, key: &[u8]) -> (r: Option<u32>)
    ensures
        r == opt_u32(last_val(kvs@.map_values(|p: (Vec<u8>, Vec<u8>)| (p.0@, p.1@)), key@)),
{
    match last_kv(kvs, key) {
        Some(i) => match parse_dec(kvs[i].1.as_slice()) {
            Some(v) => if v <= 0xFFFF_FFFF {
                Some(v as u32)
            } else {
                None
            },
            None => None,
        },
        None => None,
    }
}

/// Decodes a required boolean field.
fn field_bool(kvs: &Vec<(Vec<u8>, Vec<u8>)>, key: &[u8]) -> (r: Option<bool>)
    ensures
        r == opt_bool(last_val(kvs@.map_values(|p: (Vec<u8>, Vec<u8>)| (p.0@, p.1@)), key@)),
{
    match last_kv(kvs, key) {
        Some(i) => {
            let t = &kvs[i].1;
            if t.len() == 1 && t[0] == 49 {
                proof {
                    assert(t@ =~= seq![49u8]);
                }
                Some(true)
            } else if t.len() == 1 && t[0] == 48 {
                proof {
                    assert(t@ =~= seq![48u8]);
                }
                Some(false)
            } else {
                proof {
                    if t@ == seq![49u8] {
                        assert(t@.len() == 1 && t@[0] == 49);
                    }
                    if t@ == seq![48u8] {
                        assert(t@.len() == 1 && t@[0] == 48);
                    }
                }
                None
            }
        },
        None => None,
    }
}

/// Decodes a required socket-address field.
fn field_addr(kvs: &Vec<(Vec<u8>, Vec<u8>)>, key: &[u8]) -> (r: Option<SockAddr>)
    ensures
        r == opt_addr(last_val(kvs@.map_values(|p: (Vec<u8>, Vec<u8>)| (p.0@, p.1@)), key@)),
{
    match last_kv(kvs, key) {
        Some(i) => parse_addr(kvs[i].1.as_slice()),
        None => None,
    }
}

/// Decodes a required port field.
fn field_port(kvs: &Vec<(Vec<u8>, Vec<u8>)>, key: &[u8]) -> (r: Option<u16>)
    ensures
        r == opt_port(last_val(kvs@.map_values(|p: (Vec<u8>, Vec<u8>)| (p.0@, p.1@)), key@)),
{
    match last_kv(kvs, key) {
        Some(i) => crate::addr::parse_port(kvs[i].1.as_slice()),
        None => None,
    }
}

/// Takes the value of a required free-text field.
fn field_msg(kvs: &Vec<(Vec<u8>, Vec<u8>)>, key: &[u8]) -> (r: Option<Vec<u8>>)
    ensures
        ({
            let lv = last_val(kvs@.map_values(|p: (Vec<u8>, Vec<u8>)| (p.0@, p.1@)), key@);
            match r {
                Some(v) => lv == Some(v@),
                None => lv is None,
            }
        }),
{
    match last_kv(kvs, key) {
        Some(i) => Some(slice_to_vec(kvs[i].1.as_slice())),
        None => None,
    }
}

impl ToMiddlemanMsg {
    /// Parses a datagram as a client→server message.
    pub fn parse(bytes: &[u8]) -> (r: Option<Self>)
        ensures
            r == spec_parse_to(bytes@),
    {
        let tail = match check_head(bytes) {
            Some(t) => t,
            None => {
                return None;
            },
        };
        let toks = split_bytes(tail, SLASH);
        let ghost m = toks@.map_values(|t: Vec<u8>| t@);
        let kvs = match process_all_kv(&toks, 1) {
            Some(k) => k,
            None => {
                proof {
                    assert(m.skip(1) == split_on(tail@, SLASH).skip(1));
                }
                return None;
            },
        };
        let cmd = toks[0].as_slice();
        proof {
            assert(m[0] == toks@[0]@);
        }
        let c1 = cmd_register_v();
        if bytes_eq(cmd, c1.as_slice()) {
            return Some(ToMiddlemanMsg::Register);
        }
        let c2 = cmd_request_v();
        if bytes_eq(cmd, c2.as_slice()) {
            let k1 = key_id_v();
            let k2 = key_useproxy_v();
            return match (field_u32(&kvs, k1.as_slice()), field_bool(&kvs, k2.as_slice())) {
                (Some(id), Some(up)) => Some(ToMiddlemanMsg::Request { id, use_proxy: up }),
                _ => None,
            };
        }
        let c3 = cmd_punchcheck_v();
        if bytes_eq(cmd, c3.as_slice()) {
            let k1 = key_id_v();
            return match field_u32(&kvs, k1.as_slice()) {
                Some(id) => Some(ToMiddlemanMsg::PunchCheck { id }),
                None => None,
            };
        }
        let c4 = cmd_proxy_v();
        if bytes_eq(cmd, c4.as_slice()) {
            let k1 = key_remote_v();
            return match field_addr(&kvs, k1.as_slice()) {
                Some(remote) => Some(ToMiddlemanMsg::ProxyTo { remote }),
                None => None,
            };
        }
        let c5 = cmd_ping_v();
        if bytes_eq(cmd, c5.as_slice()) {
            let k1 = key_id_v();
            return match field_u32(&kvs, k1.as_slice()) {
                Some(id) => Some(ToMiddlemanMsg::Ping { id }),
                None => None,
            };
        }
        None
    }
}

impl FromMiddlemanMsg {
    /// Parses a datagram as a server→client message.
    pub fn parse(bytes: &[u8]) -> (r: Option<Self>)
        ensures
            match r {
                Some(m) => spec_parse_from(bytes@) == Some(m@),
                None => spec_parse_from(bytes@) is None,
            },
    {
        let tail = match check_head(bytes) {
            Some(t) => t,
            None => {
                return None;
            },
        };
        let toks = split_bytes(tail, SLASH);
        let ghost m = toks@.map_values(|t: Vec<u8>| t@);
        let kvs = match process_all_kv(&toks, 1) {
            Some(k) => k,
            None => {
                proof {
                    assert(m.skip(1) == split_on(tail@, SLASH).skip(1));
                }
                return None;
            },
        };
        let cmd = toks[0].as_slice();
        proof {
            assert(m[0] == toks@[0]@);
        }
        let c1 = cmd_registerok_v();
        if bytes_eq(cmd, c1.as_slice()) {
            let k1 = key_id_v();
            return match field_u32(&kvs, k1.as_slice()) {
                Some(id) => Some(FromMiddlemanMsg::RegisterOk { id }),
                None => None,
            };
        }
        let c2 = cmd_registererr_v();
        if bytes_eq(cmd, c2.as_slice()) {
            let k1 = key_msg_v();
            return match field_msg(&kvs, k1.as_slice()) {
                Some(msg) => Some(FromMiddlemanMsg::RegisterErr { msg }),
                None => None,
            };
        }
        let c3 = cmd_requesterr_v();
        if bytes_eq(cmd, c3.as_slice()) {
            let k1 = key_msg_v();
            return match field_msg(&kvs, k1.as_slice()) {
                Some(msg) => Some(FromMiddlemanMsg::RequestErr { msg }),
                None => None,
            };
        }
        let c4 = cmd_punchorder_v();
        if bytes_eq(cmd, c4.as_slice()) {
            let k1 = key_remote_v();
            return match field_addr(&kvs, k1.as_slice()) {
                Some(remote) => Some(FromMiddlemanMsg::PunchOrder { remote }),
                None => None,
            };
        }
        let c5 = cmd_punchlnksk_v();
        if bytes_eq(cmd, c5.as_slice()) {
            let k1 = key_port_v();
            return match field_port(&kvs, k1.as_slice()) {
                Some(port) => Some(FromMiddlemanMsg::PunchLinkseeker { port }),
                None => None,
            };
        }
        let c6 = cmd_punchcheckr_v();
        if bytes_eq(cmd, c6.as_slice()) {
            let k1 = key_ok_v();
            return match field_bool(&kvs, k1.as_slice()) {
                Some(ok) => Some(FromMiddlemanMsg::PunchCheckResult { ok }),
                None => None,
            };
        }
        let c7 = cmd_proxyr_v();
        if bytes_eq(cmd, c7.as_slice()) {
            let k1 = key_remote_v();
            let k2 = key_ok_v();
            return match (field_addr(&kvs, k1.as_slice()), field_bool(&kvs, k2.as_slice())) {
                (Some(remote), Some(ok)) => Some(FromMiddlemanMsg::ProxyResult { remote, ok }),
                _ => None,
            };
        }
        let c8 = cmd_pong_v();
        if bytes_eq(cmd, c8.as_slice()) {
            let k1 = key_id_v();
            return match field_u32(&kvs, k1.as_slice()) {
                Some(id) => Some(FromMiddlemanMsg::Pong { id }),
                None => None,
            };
        }
        None
    }
}

} // verus!
