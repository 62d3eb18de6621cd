//! Serialization of control messages: the magic prefix, the command word,
//! then each field as `/key=value`. The spec-level form is a join of tokens,
//! which is what the parser splits back apart.

use vstd::prelude::*;
use crate::addr::{addr_text, render_addr};
use crate::data::{
    FromMiddlemanMsg, FromMsgView, ToMiddlemanMsg, magic, magic_v, SLASH, EQUALS, cmd_register,
    cmd_registerok, cmd_registererr, cmd_request, cmd_requesterr, cmd_punchorder, cmd_punchlnksk,
    cmd_punchcheck, cmd_punchcheckr, cmd_proxy, cmd_proxyr, cmd_ping, cmd_pong, cmd_register_v,
    cmd_registerok_v, cmd_registererr_v, cmd_request_v, cmd_requesterr_v, cmd_punchorder_v,
    cmd_punchlnksk_v, cmd_punchcheck_v, cmd_punchcheckr_v, cmd_proxy_v, cmd_proxyr_v, cmd_ping_v,
    cmd_pong_v, key_id, key_useproxy, key_remote, key_ok, key_port, key_msg, key_id_v,
    key_useproxy_v, key_remote_v, key_ok_v, key_port_v, key_msg_v,
};
use crate::digits::{dec_rep, u64_to_dec};
use crate::tokens::{join_sep, lemma_join_two, lemma_join_three};

verus! {

/// The text of one `key=value` field.
pub open spec fn kv_text(key: Seq<u8>, value: Seq<u8>) -> Seq<u8> {
    key + seq![EQUALS] + value
}

/// "1" for true, "0" for false.
pub open spec fn bool_text(b: bool) -> Seq<u8> {
    if b {
        seq![49u8]
    } else {
        seq![48u8]
    }
}

/// Renders a boolean field value.
pub fn bool_v(b: bool) -> (r: Vec<u8>)
    ensures
        r@ == bool_text(b),
{
    let mut r: Vec<u8> = Vec::new();
    if b {
        r.push(49);
    } else {
        r.push(48);
    }
    proof {
        assert(r@ =~= bool_text(b));
    }
    r
}

/// The token list of a client→server message: the command word, then one
/// token per field.
pub open spec fn to_tokens(m: ToMiddlemanMsg) -> Seq<Seq<u8>> {
    match m {
        ToMiddlemanMsg::Register => seq![cmd_register()],
        ToMiddlemanMsg::Request { id, use_proxy } => seq![
            cmd_request(),
            kv_text(key_id(), dec_rep(id as nat)),
            kv_text(key_useproxy(), bool_text(use_proxy)),
        ],
        ToMiddlemanMsg::PunchCheck { id } => seq![
            cmd_punchcheck(),
            kv_text(key_id(), dec_rep(id as nat)),
        ],
        ToMiddlemanMsg::ProxyTo { remote } => seq![
            cmd_proxy(),
            kv_text(key_remote(), addr_text(remote)),
        ],
        ToMiddlemanMsg::Ping { id } => seq![cmd_ping(), kv_text(key_id(), dec_rep(id as nat))],
    }
}

/// The bytes of a client→server message.
pub open spec fn spec_serialize_to(m: ToMiddlemanMsg) -> Seq<u8> {
    magic() + join_sep(to_tokens(m), SLASH)
}

/// The token list of a server→client message.
pub open spec fn from_tokens(m: FromMsgView) -> Seq<Seq<u8>> {
    match m {
        FromMsgView::RegisterOk { id } => seq![
            cmd_registerok(),
            kv_text(key_id(), dec_rep(id as nat)),
        ],
        FromMsgView::RegisterErr { msg } => seq![cmd_registererr(), kv_text(key_msg(), msg)],
        FromMsgView::RequestErr { msg } => seq![cmd_requesterr(), kv_text(key_msg(), msg)],
        FromMsgView::PunchOrder { remote } => seq![
            cmd_punchorder(),
            kv_text(key_remote(), addr_text(remote)),
        ],
        FromMsgView::PunchLinkseeker { port } => seq![
            cmd_punchlnksk(),
            kv_text(key_port(), dec_rep(port as nat)),
        ],
        FromMsgView::PunchCheckResult { ok } => seq![
            cmd_punchcheckr(),
            kv_text(key_ok(), bool_text(ok)),
        ],
        FromMsgView::ProxyResult { remote, ok } => seq![
            cmd_proxyr(),
            kv_text(key_remote(), addr_text(remote)),
            kv_text(key_ok(), bool_text(ok)),
        ],
        FromMsgView::Pong { id } => seq![cmd_pong(), kv_text(key_id(), dec_rep(id as nat))],
    }
}

/// The bytes of a server→client message.
pub open spec fn spec_serialize_from(m: FromMsgView) -> Seq<u8> {
    magic() + join_sep(from_tokens(m), SLASH)
}

/// One `/key=value` field, written only when the value is present.
pub struct KeyValueSerializer<'a> {
    pub key: &'a [u8],
    pub value: Option<&'a [u8]>,
}

impl<'a> KeyValueSerializer<'a> {
    pub fn new(key: &'a [u8], value: Option<&'a [u8]>) -> (r: Self)
        ensures
            r.key@ == key@,
            match (r.value, value) {
                (Some(rv), Some(v)) => rv@ == v@,
                (None, None) => true,
                _ => false,
            },
    {
        Self { key, value }
    }

    /// What this field appends: nothing, or a separator and the field text.
    pub open spec fn field_text(&self) -> Seq<u8> {
        match self.value {
            None => Seq::empty(),
            Some(v) => seq![SLASH] + kv_text(self.key@, v@),
        }
    }

    /// Appends the field to a buffer being serialized.
    pub fn append_to(&self, out: &mut Vec<u8>)
        ensures
            final(out)@ == old(out)@ + self.field_text(),
    {
        match self.value {
            None => {
                proof {
                    assert(out@ + self.field_text() =~= out@);
                }
            },
            Some(v) => {
                let ghost o0 = out@;
                out.push(SLASH);
                let mut j: usize = 0;
                let n = self.key.len();
                while j < n
                    invariant
                        0 <= j <= n,
                        n == self.key@.len(),
                        out@ == o0.push(SLASH) + self.key@.take(j as int),
                    decreases n - j,
                {
                    out.push(self.key[j]);
                    proof {
                        assert(o0.push(SLASH) + self.key@.take(j + 1) =~= (o0.push(SLASH)
                            + self.key@.take(j as int)).push(self.key@[j as int]));
                    }
                    j = j + 1;
                }
                out.push(EQUALS);
                let ghost o1 = out@;
                let m = v.len();
                let mut i: usize = 0;
                while i < m
                    invariant
                        0 <= i <= m,
                        m == v@.len(),
                        out@ == o1 + v@.take(i as int),
                    decreases m - i,
                {
                    out.push(v[i]);
                    proof {
                        assert(o1 + v@.take(i + 1) =~= (o1 + v@.take(i as int)).push(
                            v@[i as int],
                        ));
                    }
                    i = i + 1;
                }
                proof {
                    assert(self.key@.take(self.key@.len() as int) =~= self.key@);
                    assert(v@.take(v@.len() as int) =~= v@);
                    assert(out@ =~= o0 + (seq![SLASH] + kv_text(self.key@, v@)));
                }
            },
        }
    }
}

/// Appends every byte of a token.
fn append_token(out: &mut Vec<u8>, t: &[u8])
    ensures
        final(out)@ == old(out)@ + t@,
{
    let ghost o0 = out@;
    let n = t.len();
    let mut i: usize = 0;
    while i < n
        invariant
            0 <= i <= n,
            n == t@.len(),
            out@ == o0 + t@.take(i as int),
        decreases n - i,
    {
        out.push(t[i]);
        proof {
            assert(o0 + t@.take(i + 1) =~= (o0 + t@.take(i as int)).push(t@[i as int]));
        }
        i = i + 1;
    }
    proof {
        assert(t@.take(n as int) =~= t@);
    }
}

impl ToMiddlemanMsg {
    /// Serializes the message for the wire.
    pub fn serialize(&self) -> (r: Vec<u8>)
        ensures
            r@ == spec_serialize_to(*self),
    {
        let mut out = magic_v();
        match self {
            ToMiddlemanMsg::Register => {
                let c = cmd_register_v();
                append_token(&mut out, c.as_slice());
                proof {
                    assert(join_sep(to_tokens(*self), SLASH) == cmd_register());
                    assert(out@ =~= spec_serialize_to(*self));
                }
            },
            ToMiddlemanMsg::Request { id, use_proxy } => {
                let c = cmd_request_v();
                append_token(&mut out, c.as_slice());
                let k1 = key_id_v();
                let v1 = u64_to_dec(*id as u64);
                KeyValueSerializer::new(k1.as_slice(), Some(v1.as_slice())).append_to(&mut out);
                let k2 = key_useproxy_v();
                let v2 = bool_v(*use_proxy);
                KeyValueSerializer::new(k2.as_slice(), Some(v2.as_slice())).append_to(&mut out);
                proof {
                    lemma_join_three(
                        cmd_request(),
                        kv_text(key_id(), dec_rep(*id as nat)),
                        kv_text(key_useproxy(), bool_text(*use_proxy)),
                        SLASH,
                    );
                    assert(out@ =~= spec_serialize_to(*self));
                }
            },
            ToMiddlemanMsg::PunchCheck { id } => {
                let c = cmd_punchcheck_v();
                append_token(&mut out, c.as_slice());
                let k1 = key_id_v();
                let v1 = u64_to_dec(*id as u64);
                KeyValueSerializer::new(k1.as_slice(), Some(v1.as_slice())).append_to(&mut out);
                proof {
                    lemma_join_two(cmd_punchcheck(), kv_text(key_id(), dec_rep(*id as nat)), SLASH);
                    assert(out@ =~= spec_serialize_to(*self));
                }
            },
            ToMiddlemanMsg::ProxyTo { remote } => {
                let c = cmd_proxy_v();
                append_token(&mut out, c.as_slice());
                let k1 = key_remote_v();
                let v1 = render_addr(remote);
                KeyValueSerializer::new(k1.as_slice(), Some(v1.as_slice())).append_to(&mut out);
                proof {
                    lemma_join_two(cmd_proxy(), kv_text(key_remote(), addr_text(*remote)), SLASH);
                    assert(out@ =~= spec_serialize_to(*self));
                }
            },
            ToMiddlemanMsg::Ping { id } => {
                let c = cmd_ping_v();
                append_token(&mut out, c.as_slice());
                let k1 = key_id_v();
                let v1 = u64_to_dec(*id as u64);
                KeyValueSerializer::new(k1.as_slice(), Some(v1.as_slice())).append_to(&mut out);
                proof {
                    lemma_join_two(cmd_ping(), kv_text(key_id(), dec_rep(*id as nat)), SLASH);
                    assert(out@ =~= spec_serialize_to(*self));
                }
            },
        }
        out
    }
}

impl FromMiddlemanMsg {
    /// Serializes the message for the wire.
    pub fn serialize(&self) -> (r: Vec<u8>)
        ensures
            r@ == spec_serialize_from(self@),
    {
        let mut out = magic_v();
        match self {
            FromMiddlemanMsg::RegisterOk { id } => {
                let c = cmd_registerok_v();
                append_token(&mut out, c.as_slice());
                let k1 = key_id_v();
                let v1 = u64_to_dec(*id as u64);
                KeyValueSerializer::new(k1.as_slice(), Some(v1.as_slice())).append_to(&mut out);
                proof {
                    lemma_join_two(cmd_registerok(), kv_text(key_id(), dec_rep(*id as nat)), SLASH);
                    assert(out@ =~= spec_serialize_from(self@));
                }
            },
            FromMiddlemanMsg::RegisterErr { msg } => {
                let c = cmd_registererr_v();
                append_token(&mut out, c.as_slice());
                let k1 = key_msg_v();
                KeyValueSerializer::new(k1.as_slice(), Some(msg.as_slice())).append_to(&mut out);
                proof {
                    lemma_join_two(cmd_registererr(), kv_text(key_msg(), msg@), SLASH);
                    assert(out@ =~= spec_serialize_from(self@));
                }
            },
            FromMiddlemanMsg::RequestErr { msg } => {
                let c = cmd_requesterr_v();
                append_token(&mut out, c.as_slice());
                let k1 = key_msg_v();
                KeyValueSerializer::new(k1.as_slice(), Some(msg.as_slice())).append_to(&mut out);
                proof {
                    lemma_join_two(cmd_requesterr(), kv_text(key_msg(), msg@), SLASH);
                    assert(out@ =~= spec_serialize_from(self@));
                }
            },
            FromMiddlemanMsg::PunchOrder { remote } => {
                let c = cmd_punchorder_v();
                append_token(&mut out, c.as_slice());
                let k1 = key_remote_v();
                let v1 = render_addr(remote);
                KeyValueSerializer::new(k1.as_slice(), Some(v1.as_slice())).append_to(&mut out);
                proof {
                    lemma_join_two(
                        cmd_punchorder(),
                        kv_text(key_remote(), addr_text(*remote)),
                        SLASH,
                    );
                    assert(out@ =~= spec_serialize_from(self@));
                }
            },
            FromMiddlemanMsg::PunchLinkseeker { port } => {
                let c = cmd_punchlnksk_v();
                append_token(&mut out, c.as_slice());
                let k1 = key_port_v();
                let v1 = u64_to_dec(*port as u64);
                KeyValueSerializer::new(k1.as_slice(), Some(v1.as_slice())).append_to(&mut out);
                proof {
                    lemma_join_two(
                        cmd_punchlnksk(),
                        kv_text(key_port(), dec_rep(*port as nat)),
                        SLASH,
                    );
                    assert(out@ =~= spec_serialize_from(self@));
                }
            },
            FromMiddlemanMsg::PunchCheckResult { ok } => {
                let c = cmd_punchcheckr_v();
                append_token(&mut out, c.as_slice());
                let k1 = key_ok_v();
                let v1 = bool_v(*ok);
                KeyValueSerializer::new(k1.as_slice(), Some(v1.as_slice())).append_to(&mut out);
                proof {
                    lemma_join_two(cmd_punchcheckr(), kv_text(key_ok(), bool_text(*ok)), SLASH);
                    assert(out@ =~= spec_serialize_from(self@));
                }
            },
            FromMiddlemanMsg::ProxyResult { remote, ok } => {
                let c = cmd_proxyr_v();
                append_token(&mut out, c.as_slice());
                let k1 = key_remote_v();
                let v1 = render_addr(remote);
                KeyValueSerializer::new(k1.as_slice(), Some(v1.as_slice())).append_to(&mut out);
                let k2 = key_ok_v();
                let v2 = bool_v(*ok);
                KeyValueSerializer::new(k2.as_slice(), Some(v2.as_slice())).append_to(&mut out);
                proof {
                    lemma_join_three(
                        cmd_proxyr(),
                        kv_text(key_remote(), addr_text(*remote)),
                        kv_text(key_ok(), bool_text(*ok)),
                        SLASH,
                    );
                    assert(out@ =~= spec_serialize_from(self@));
                }
            },
            FromMiddlemanMsg::Pong { id } => {
                let c = cmd_pong_v();
                append_token(&mut out, c.as_slice());
                let k1 = key_id_v();
                let v1 = u64_to_dec(*id as u64);
                KeyValueSerializer::new(k1.as_slice(), Some(v1.as_slice())).append_to(&mut out);
                proof {
                    lemma_join_two(cmd_pong(), kv_text(key_id(), dec_rep(*id as nat)), SLASH);
                    assert(out@ =~= spec_serialize_from(self@));
                }
            },
        }
        out
    }
}

} // verus!
