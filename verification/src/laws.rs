//! The codec's guarantees, proved once and for all: serializing and parsing
//! are inverse on every well-formed message; a datagram that does not start
//! with the magic prefix is never taken for a control message; and fields
//! under unknown keys never invalidate a message.

use vstd::prelude::*;
use crate::addr::{addr_text, lemma_addr_text_clean, lemma_addr_round_trip, SockAddr};
use crate::data::{
    FromMsgView, ToMiddlemanMsg, magic, SLASH, EQUALS, from_msg_wf, cmd_register, cmd_registerok,
    cmd_registererr, cmd_request, cmd_requesterr, cmd_punchorder, cmd_punchlnksk, cmd_punchcheck,
    cmd_punchcheckr, cmd_proxy, cmd_proxyr, cmd_ping, cmd_pong, key_id, key_useproxy, key_remote,
    key_ok, key_port, key_msg,
};
use crate::digits::{dec_rep, lemma_dec_rep_digits, lemma_dec_rep_val, all_dec_digits};
use crate::parse::{
    spec_parse_to, spec_parse_from, strip_magic, kv_split, kvs_of, last_val, spec_u32_field,
    spec_bool_field,
};
use crate::serialize::{
    spec_serialize_to, spec_serialize_from, to_tokens, from_tokens, kv_text, bool_text,
};
use crate::tokens::{
    split_on, join_sep, token_clean, tokens_clean, lemma_split_join, lemma_split_clean,
    lemma_split_concat, lemma_split_on_len, lemma_join_two,
};
use crate::tracker::{
    RdvRemote, ProxyData, contains_id, contains_socket, spec_lookup, live_rdv, live_proxy,
    register_step, REGISTER_EXPIRE_TIME,
};
use crate::UDP_SOCKET_N;

verus! {

/// A `key=value` field avoids any byte other than '=' that both sides avoid.
proof fn lemma_kv_clean(key: Seq<u8>, value: Seq<u8>, d: u8)
    requires
        d != EQUALS,
        token_clean(key, d),
        token_clean(value, d),
    ensures
        token_clean(kv_text(key, value), d),
{
    let t = kv_text(key, value);
    assert forall|j: int| 0 <= j < t.len() implies t[j] != d by {
        if j < key.len() {
            assert(t[j] == key[j]);
        } else if j == key.len() {
            assert(t[j] == EQUALS);
        } else {
            assert(t[j] == value[j - key.len() - 1]);
        }
    }
}

/// Splitting a `key=value` field at '=' restores key and value.
proof fn lemma_kv_round(key: Seq<u8>, value: Seq<u8>)
    requires
        token_clean(key, EQUALS),
        token_clean(value, EQUALS),
    ensures
        kv_split(kv_text(key, value)) == Some((key, value)),
{
    let ts = seq![key, value];
    assert(tokens_clean(ts, EQUALS)) by {
        assert(ts[0] == key && ts[1] == value);
        assert forall|k: int| 0 <= k < 2 implies token_clean(#[trigger] ts[k], EQUALS) by {
            if k == 0 {
                assert(ts[k] == key);
            } else {
                assert(ts[k] == value);
            }
        }
    }
    lemma_join_two(key, value, EQUALS);
    lemma_split_join(ts, EQUALS);
    assert(split_on(kv_text(key, value), EQUALS) == ts);
}

/// The magic prefix strips off whatever follows it.
proof fn lemma_strip_magic_prepend(x: Seq<u8>)
    ensures
        strip_magic(magic() + x) == Some(x),
{
    let s = magic() + x;
    assert(s.take(magic().len() as int) =~= magic());
    assert(s.skip(magic().len() as int) =~= x);
}

/// The fixed wire tokens contain neither '/' nor '='.
proof fn lemma_wire_tokens_clean()
    ensures
        token_clean(cmd_register(), SLASH),
        token_clean(cmd_registerok(), SLASH),
        token_clean(cmd_registererr(), SLASH),
        token_clean(cmd_request(), SLASH),
        token_clean(cmd_requesterr(), SLASH),
        token_clean(cmd_punchorder(), SLASH),
        token_clean(cmd_punchlnksk(), SLASH),
        token_clean(cmd_punchcheck(), SLASH),
        token_clean(cmd_punchcheckr(), SLASH),
        token_clean(cmd_proxy(), SLASH),
        token_clean(cmd_proxyr(), SLASH),
        token_clean(cmd_ping(), SLASH),
        token_clean(cmd_pong(), SLASH),
        token_clean(key_id(), SLASH),
        token_clean(key_useproxy(), SLASH),
        token_clean(key_remote(), SLASH),
        token_clean(key_ok(), SLASH),
        token_clean(key_port(), SLASH),
        token_clean(key_msg(), SLASH),
        token_clean(key_id(), EQUALS),
        token_clean(key_useproxy(), EQUALS),
        token_clean(key_remote(), EQUALS),
        token_clean(key_ok(), EQUALS),
        token_clean(key_port(), EQUALS),
        token_clean(key_msg(), EQUALS),
{
}

/// The command words are pairwise distinct where the parser's dispatch
/// needs it.
proof fn lemma_cmds_distinct()
    ensures
        cmd_request() != cmd_register(),
        cmd_punchcheck() != cmd_register(),
        cmd_punchcheck() != cmd_request(),
        cmd_proxy() != cmd_register(),
        cmd_proxy() != cmd_request(),
        cmd_proxy() != cmd_punchcheck(),
        cmd_ping() != cmd_register(),
        cmd_ping() != cmd_request(),
        cmd_ping() != cmd_punchcheck(),
        cmd_ping() != cmd_proxy(),
        cmd_registererr() != cmd_registerok(),
        cmd_requesterr() != cmd_registerok(),
        cmd_requesterr() != cmd_registererr(),
        cmd_punchorder() != cmd_registerok(),
        cmd_punchorder() != cmd_registererr(),
        cmd_punchorder() != cmd_requesterr(),
        cmd_punchlnksk() != cmd_registerok(),
        cmd_punchlnksk() != cmd_registererr(),
        cmd_punchlnksk() != cmd_requesterr(),
        cmd_punchlnksk() != cmd_punchorder(),
        cmd_punchcheckr() != cmd_registerok(),
        cmd_punchcheckr() != cmd_registererr(),
        cmd_punchcheckr() != cmd_requesterr(),
        cmd_punchcheckr() != cmd_punchorder(),
        cmd_punchcheckr() != cmd_punchlnksk(),
        cmd_proxyr() != cmd_registerok(),
        cmd_proxyr() != cmd_registererr(),
        cmd_proxyr() != cmd_requesterr(),
        cmd_proxyr() != cmd_punchorder(),
        cmd_proxyr() != cmd_punchlnksk(),
        cmd_proxyr() != cmd_punchcheckr(),
        cmd_pong() != cmd_registerok(),
        cmd_pong() != cmd_registererr(),
        cmd_pong() != cmd_requesterr(),
        cmd_pong() != cmd_punchorder(),
        cmd_pong() != cmd_punchlnksk(),
        cmd_pong() != cmd_punchcheckr(),
        cmd_pong() != cmd_proxyr(),
{
}

/// The field keys are pairwise distinct where field extraction needs it.
proof fn lemma_keys_distinct()
    ensures
        key_id() != key_useproxy(),
        key_remote() != key_ok(),
{
}

/// A datagram that does not start with the magic prefix is no control
/// message: neither parser accepts it.
pub proof fn lemma_parse_needs_magic(s: Seq<u8>)
    requires
        s.len() < magic().len() || s.take(magic().len() as int) != magic(),
    ensures
        spec_parse_to(s) is None,
        spec_parse_from(s) is None,
{
}


/// The common pipeline: the serialized bytes strip and split back into the
/// message's token list.
proof fn lemma_wire_round(ts: Seq<Seq<u8>>)
    requires
        ts.len() >= 1,
        tokens_clean(ts, SLASH),
    ensures
        strip_magic(magic() + join_sep(ts, SLASH)) == Some(join_sep(ts, SLASH)),
        split_on(join_sep(ts, SLASH), SLASH) == ts,
{
    lemma_strip_magic_prepend(join_sep(ts, SLASH));
    lemma_split_join(ts, SLASH);
}

/// An id field decodes back to the id.
proof fn lemma_u32_field_round(id: u32)
    ensures
        spec_u32_field(dec_rep(id as nat)) == Some(id),
{
    lemma_dec_rep_digits(id as nat);
    lemma_dec_rep_val(id as nat);
}

/// A boolean field decodes back to the boolean.
proof fn lemma_bool_field_round(b: bool)
    ensures
        spec_bool_field(bool_text(b)) == Some(b),
{
    assert(seq![49u8][0] == 49u8);
    assert(seq![48u8][0] == 48u8);
    if b {
        assert(bool_text(b) == seq![49u8]);
    } else {
        assert(bool_text(b) == seq![48u8]);
    }
}

/// A port field decodes back to the port.
proof fn lemma_port_field_round(p: u16)
    ensures
        crate::addr::spec_port(dec_rep(p as nat)) == Some(p),
{
    lemma_dec_rep_digits(p as nat);
    lemma_dec_rep_val(p as nat);
}

/// One field token splits into its key and its rendered value.
proof fn lemma_field_kvs_one(key: Seq<u8>, value: Seq<u8>)
    requires
        token_clean(key, EQUALS),
        token_clean(value, EQUALS),
    ensures
        kvs_of(seq![kv_text(key, value)]) == Some(seq![(key, value)]),
{
    lemma_kv_round(key, value);
    let fs = seq![kv_text(key, value)];
    assert(fs.drop_last() =~= Seq::<Seq<u8>>::empty());
    assert(kvs_of(Seq::<Seq<u8>>::empty()) == Some(Seq::<(Seq<u8>, Seq<u8>)>::empty()));
    assert(fs.last() == kv_text(key, value));
    assert(Seq::<(Seq<u8>, Seq<u8>)>::empty().push((key, value)) =~= seq![(key, value)]);
}

/// Two field tokens split into their keys and rendered values.
proof fn lemma_field_kvs_two(k1: Seq<u8>, v1: Seq<u8>, k2: Seq<u8>, v2: Seq<u8>)
    requires
        token_clean(k1, EQUALS),
        token_clean(v1, EQUALS),
        token_clean(k2, EQUALS),
        token_clean(v2, EQUALS),
    ensures
        kvs_of(seq![kv_text(k1, v1), kv_text(k2, v2)]) == Some(seq![(k1, v1), (k2, v2)]),
{
    lemma_kv_round(k1, v1);
    lemma_kv_round(k2, v2);
    let fs = seq![kv_text(k1, v1), kv_text(k2, v2)];
    assert(fs.drop_last() =~= seq![kv_text(k1, v1)]);
    lemma_field_kvs_one(k1, v1);
    assert(seq![(k1, v1)].push((k2, v2)) =~= seq![(k1, v1), (k2, v2)]);
}

/// Parsing the serialization of a client→server message restores it.
pub proof fn lemma_to_round_trip(m: ToMiddlemanMsg)
    ensures
        spec_parse_to(spec_serialize_to(m)) == Some(m),
{
    lemma_wire_tokens_clean();
    lemma_cmds_distinct();
    lemma_keys_distinct();
    let ts = to_tokens(m);
    match m {
        ToMiddlemanMsg::Register => {
            assert(tokens_clean(ts, SLASH)) by {
                assert forall|k: int| 0 <= k < ts.len() implies token_clean(
                    #[trigger] ts[k],
                    SLASH,
                ) by {
                    assert(ts[k] == cmd_register());
                }
            }
            lemma_wire_round(ts);
            assert(ts.skip(1) =~= Seq::<Seq<u8>>::empty());
            assert(kvs_of(ts.skip(1)) == Some(Seq::<(Seq<u8>, Seq<u8>)>::empty()));
        },
        ToMiddlemanMsg::Request { id, use_proxy } => {
            let idv = dec_rep(id as nat);
            let upv = bool_text(use_proxy);
            lemma_dec_rep_digits(id as nat);
            crate::addr::lemma_dec_digits_clean(idv, SLASH);
            crate::addr::lemma_dec_digits_clean(idv, EQUALS);
            crate::addr::lemma_dec_digits_clean(upv, SLASH);
            crate::addr::lemma_dec_digits_clean(upv, EQUALS);
            let t1 = kv_text(key_id(), idv);
            let t2 = kv_text(key_useproxy(), upv);
            lemma_kv_clean(key_id(), idv, SLASH);
            lemma_kv_clean(key_useproxy(), upv, SLASH);
            assert(tokens_clean(ts, SLASH)) by {
                assert forall|k: int| 0 <= k < ts.len() implies token_clean(
                    #[trigger] ts[k],
                    SLASH,
                ) by {
                    if k == 0 {
                        assert(ts[k] == cmd_request());
                    } else if k == 1 {
                        assert(ts[k] == t1);
                    } else {
                        assert(ts[k] == t2);
                    }
                }
            }
            lemma_wire_round(ts);
            assert(ts.skip(1) =~= seq![t1, t2]);
            lemma_field_kvs_two(key_id(), idv, key_useproxy(), upv);
            let kvs = seq![(key_id(), idv), (key_useproxy(), upv)];
            assert(last_val(kvs, key_useproxy()) == Some(upv));
            assert(kvs.drop_last() =~= seq![(key_id(), idv)]);
            assert(last_val(seq![(key_id(), idv)], key_id()) == Some(idv));
            assert(last_val(kvs, key_id()) == Some(idv));
            lemma_u32_field_round(id);
            lemma_bool_field_round(use_proxy);
        },
        ToMiddlemanMsg::PunchCheck { id } => {
            let idv = dec_rep(id as nat);
            lemma_dec_rep_digits(id as nat);
            crate::addr::lemma_dec_digits_clean(idv, SLASH);
            crate::addr::lemma_dec_digits_clean(idv, EQUALS);
            let t1 = kv_text(key_id(), idv);
            lemma_kv_clean(key_id(), idv, SLASH);
            assert(tokens_clean(ts, SLASH)) by {
                assert forall|k: int| 0 <= k < ts.len() implies token_clean(
                    #[trigger] ts[k],
                    SLASH,
                ) by {
                    if k == 0 {
                        assert(ts[k] == cmd_punchcheck());
                    } else {
                        assert(ts[k] == t1);
                    }
                }
            }
            lemma_wire_round(ts);
            assert(ts.skip(1) =~= seq![t1]);
            lemma_field_kvs_one(key_id(), idv);
            let kvs = seq![(key_id(), idv)];
            assert(last_val(kvs, key_id()) == Some(idv));
            lemma_u32_field_round(id);
        },
        ToMiddlemanMsg::ProxyTo { remote } => {
            let rv = addr_text(remote);
            lemma_addr_text_clean(remote, SLASH);
            lemma_addr_text_clean(remote, EQUALS);
            let t1 = kv_text(key_remote(), rv);
            lemma_kv_clean(key_remote(), rv, SLASH);
            assert(tokens_clean(ts, SLASH)) by {
                assert forall|k: int| 0 <= k < ts.len() implies token_clean(
                    #[trigger] ts[k],
                    SLASH,
                ) by {
                    if k == 0 {
                        assert(ts[k] == cmd_proxy());
                    } else {
                        assert(ts[k] == t1);
                    }
                }
            }
            lemma_wire_round(ts);
            assert(ts.skip(1) =~= seq![t1]);
            lemma_field_kvs_one(key_remote(), rv);
            let kvs = seq![(key_remote(), rv)];
            assert(last_val(kvs, key_remote()) == Some(rv));
            lemma_addr_round_trip(remote);
        },
        ToMiddlemanMsg::Ping { id } => {
            let idv = dec_rep(id as nat);
            lemma_dec_rep_digits(id as nat);
            crate::addr::lemma_dec_digits_clean(idv, SLASH);
            crate::addr::lemma_dec_digits_clean(idv, EQUALS);
            let t1 = kv_text(key_id(), idv);
            lemma_kv_clean(key_id(), idv, SLASH);
            assert(tokens_clean(ts, SLASH)) by {
                assert forall|k: int| 0 <= k < ts.len() implies token_clean(
                    #[trigger] ts[k],
                    SLASH,
                ) by {
                    if k == 0 {
                        assert(ts[k] == cmd_ping());
                    } else {
                        assert(ts[k] == t1);
                    }
                }
            }
            lemma_wire_round(ts);
            assert(ts.skip(1) =~= seq![t1]);
            lemma_field_kvs_one(key_id(), idv);
            let kvs = seq![(key_id(), idv)];
            assert(last_val(kvs, key_id()) == Some(idv));
            lemma_u32_field_round(id);
        },
    }
}


/// Parsing the serialization of a server→client message restores it, as
/// long as any free-text field avoids '/' and '='.
pub proof fn lemma_from_round_trip(m: FromMsgView)
    requires
        from_msg_wf(m),
    ensures
        spec_parse_from(spec_serialize_from(m)) == Some(m),
{
    lemma_wire_tokens_clean();
    lemma_cmds_distinct();
    lemma_keys_distinct();
    let ts = from_tokens(m);
    match m {
        FromMsgView::RegisterOk { id } => {
            let v1 = dec_rep(id as nat);
            lemma_dec_rep_digits(id as nat);
            crate::addr::lemma_dec_digits_clean(v1, SLASH);
            crate::addr::lemma_dec_digits_clean(v1, EQUALS);
            let t1 = kv_text(key_id(), v1);
            lemma_kv_clean(key_id(), v1, SLASH);
            assert(tokens_clean(ts, SLASH)) by {
                assert forall|k: int| 0 <= k < ts.len() implies token_clean(
                    #[trigger] ts[k],
                    SLASH,
                ) by {
                    if k == 0 {
                        assert(ts[k] == cmd_registerok());
                    } else {
                        assert(ts[k] == t1);
                    }
                }
            }
            lemma_wire_round(ts);
            assert(ts.skip(1) =~= seq![t1]);
            lemma_field_kvs_one(key_id(), v1);
            let kvs = seq![(key_id(), v1)];
            assert(last_val(kvs, key_id()) == Some(v1));
            lemma_u32_field_round(id);
        },
        FromMsgView::RegisterErr { msg } => {
            let v1 = msg;
            let t1 = kv_text(key_msg(), v1);
            lemma_kv_clean(key_msg(), v1, SLASH);
            assert(tokens_clean(ts, SLASH)) by {
                assert forall|k: int| 0 <= k < ts.len() implies token_clean(
                    #[trigger] ts[k],
                    SLASH,
                ) by {
                    if k == 0 {
                        assert(ts[k] == cmd_registererr());
                    } else {
                        assert(ts[k] == t1);
                    }
                }
            }
            lemma_wire_round(ts);
            assert(ts.skip(1) =~= seq![t1]);
            lemma_field_kvs_one(key_msg(), v1);
            let kvs = seq![(key_msg(), v1)];
            assert(last_val(kvs, key_msg()) == Some(v1));
        },
        FromMsgView::RequestErr { msg } => {
            let v1 = msg;
            let t1 = kv_text(key_msg(), v1);
            lemma_kv_clean(key_msg(), v1, SLASH);
            assert(tokens_clean(ts, SLASH)) by {
                assert forall|k: int| 0 <= k < ts.len() implies token_clean(
                    #[trigger] ts[k],
                    SLASH,
                ) by {
                    if k == 0 {
                        assert(ts[k] == cmd_requesterr());
                    } else {
                        assert(ts[k] == t1);
                    }
                }
            }
            lemma_wire_round(ts);
            assert(ts.skip(1) =~= seq![t1]);
            lemma_field_kvs_one(key_msg(), v1);
            let kvs = seq![(key_msg(), v1)];
            assert(last_val(kvs, key_msg()) == Some(v1));
        },
        FromMsgView::PunchOrder { remote } => {
            let v1 = addr_text(remote);
            lemma_addr_text_clean(remote, SLASH);
            lemma_addr_text_clean(remote, EQUALS);
            let t1 = kv_text(key_remote(), v1);
            lemma_kv_clean(key_remote(), v1, SLASH);
            assert(tokens_clean(ts, SLASH)) by {
                assert forall|k: int| 0 <= k < ts.len() implies token_clean(
                    #[trigger] ts[k],
                    SLASH,
                ) by {
                    if k == 0 {
                        assert(ts[k] == cmd_punchorder());
                    } else {
                        assert(ts[k] == t1);
                    }
                }
            }
            lemma_wire_round(ts);
            assert(ts.skip(1) =~= seq![t1]);
            lemma_field_kvs_one(key_remote(), v1);
            let kvs = seq![(key_remote(), v1)];
            assert(last_val(kvs, key_remote()) == Some(v1));
            lemma_addr_round_trip(remote);
        },
        FromMsgView::PunchLinkseeker { port } => {
            let v1 = dec_rep(port as nat);
            lemma_dec_rep_digits(port as nat);
            crate::addr::lemma_dec_digits_clean(v1, SLASH);
            crate::addr::lemma_dec_digits_clean(v1, EQUALS);
            let t1 = kv_text(key_port(), v1);
            lemma_kv_clean(key_port(), v1, SLASH);
            assert(tokens_clean(ts, SLASH)) by {
                assert forall|k: int| 0 <= k < ts.len() implies token_clean(
                    #[trigger] ts[k],
                    SLASH,
                ) by {
                    if k == 0 {
                        assert(ts[k] == cmd_punchlnksk());
                    } else {
                        assert(ts[k] == t1);
                    }
                }
            }
            lemma_wire_round(ts);
            assert(ts.skip(1) =~= seq![t1]);
            lemma_field_kvs_one(key_port(), v1);
            let kvs = seq![(key_port(), v1)];
            assert(last_val(kvs, key_port()) == Some(v1));
            lemma_port_field_round(port);
        },
        FromMsgView::PunchCheckResult { ok } => {
            let v1 = bool_text(ok);
            assert(all_dec_digits(v1)) by {
                assert(v1.len() == 1 && (v1[0] == 48 || v1[0] == 49));
            }
            crate::addr::lemma_dec_digits_clean(v1, SLASH);
            crate::addr::lemma_dec_digits_clean(v1, EQUALS);
            let t1 = kv_text(key_ok(), v1);
            lemma_kv_clean(key_ok(), v1, SLASH);
            assert(tokens_clean(ts, SLASH)) by {
                assert forall|k: int| 0 <= k < ts.len() implies token_clean(
                    #[trigger] ts[k],
                    SLASH,
                ) by {
                    if k == 0 {
                        assert(ts[k] == cmd_punchcheckr());
                    } else {
                        assert(ts[k] == t1);
                    }
                }
            }
            lemma_wire_round(ts);
            assert(ts.skip(1) =~= seq![t1]);
            lemma_field_kvs_one(key_ok(), v1);
            let kvs = seq![(key_ok(), v1)];
            assert(last_val(kvs, key_ok()) == Some(v1));
            lemma_bool_field_round(ok);
        },
        FromMsgView::ProxyResult { remote, ok } => {
            let v1 = addr_text(remote);
            let v2 = bool_text(ok);
            lemma_addr_text_clean(remote, SLASH);
            lemma_addr_text_clean(remote, EQUALS);
            assert(all_dec_digits(v2)) by {
                assert(v2.len() == 1 && (v2[0] == 48 || v2[0] == 49));
            }
            crate::addr::lemma_dec_digits_clean(v2, SLASH);
            crate::addr::lemma_dec_digits_clean(v2, EQUALS);
            let t1 = kv_text(key_remote(), v1);
            let t2 = kv_text(key_ok(), v2);
            lemma_kv_clean(key_remote(), v1, SLASH);
            lemma_kv_clean(key_ok(), v2, SLASH);
            assert(tokens_clean(ts, SLASH)) by {
                assert forall|k: int| 0 <= k < ts.len() implies token_clean(
                    #[trigger] ts[k],
                    SLASH,
                ) by {
                    if k == 0 {
                        assert(ts[k] == cmd_proxyr());
                    } else if k == 1 {
                        assert(ts[k] == t1);
                    } else {
                        assert(ts[k] == t2);
                    }
                }
            }
            lemma_wire_round(ts);
            assert(ts.skip(1) =~= seq![t1, t2]);
            lemma_field_kvs_two(key_remote(), v1, key_ok(), v2);
            let kvs = seq![(key_remote(), v1), (key_ok(), v2)];
            assert(last_val(kvs, key_ok()) == Some(v2));
            assert(kvs.drop_last() =~= seq![(key_remote(), v1)]);
            assert(last_val(seq![(key_remote(), v1)], key_remote()) == Some(v1));
            assert(last_val(kvs, key_remote()) == Some(v1));
            lemma_addr_round_trip(remote);
            lemma_bool_field_round(ok);
        },
        FromMsgView::Pong { id } => {
            let v1 = dec_rep(id as nat);
            lemma_dec_rep_digits(id as nat);
            crate::addr::lemma_dec_digits_clean(v1, SLASH);
            crate::addr::lemma_dec_digits_clean(v1, EQUALS);
            let t1 = kv_text(key_id(), v1);
            lemma_kv_clean(key_id(), v1, SLASH);
            assert(tokens_clean(ts, SLASH)) by {
                assert forall|k: int| 0 <= k < ts.len() implies token_clean(
                    #[trigger] ts[k],
                    SLASH,
                ) by {
                    if k == 0 {
                        assert(ts[k] == cmd_pong());
                    } else {
                        assert(ts[k] == t1);
                    }
                }
            }
            lemma_wire_round(ts);
            assert(ts.skip(1) =~= seq![t1]);
            lemma_field_kvs_one(key_id(), v1);
            let kvs = seq![(key_id(), v1)];
            assert(last_val(kvs, key_id()) == Some(v1));
            lemma_u32_field_round(id);
        },
    }
}


/// The shared step of the unknown-field laws: appending `/k=v` to a
/// datagram with the magic prefix extends its token list by one well-formed
/// field token.
proof fn lemma_append_field(s: Seq<u8>, k: Seq<u8>, v: Seq<u8>)
    requires
        strip_magic(s) is Some,
        token_clean(k, SLASH),
        token_clean(k, EQUALS),
        token_clean(v, SLASH),
        token_clean(v, EQUALS),
    ensures
        ({
            let s2 = s + seq![SLASH] + kv_text(k, v);
            let tail = strip_magic(s)->Some_0;
            let tail2 = strip_magic(s2)->Some_0;
            &&& strip_magic(s2) is Some
            &&& split_on(tail2, SLASH) == split_on(tail, SLASH).push(kv_text(k, v))
            &&& kvs_of(split_on(tail2, SLASH).skip(1)) == (match kvs_of(
                split_on(tail, SLASH).skip(1),
            ) {
                Some(kvs) => Some(kvs.push((k, v))),
                None => None,
            })
        }),
{
    let s2 = s + seq![SLASH] + kv_text(k, v);
    let tail = strip_magic(s)->Some_0;
    assert(s2.take(magic().len() as int) =~= s.take(magic().len() as int));
    let tail2 = s2.skip(magic().len() as int);
    assert(tail2 =~= tail + seq![SLASH] + kv_text(k, v));
    lemma_split_concat(tail, kv_text(k, v), SLASH);
    lemma_kv_clean(k, v, SLASH);
    lemma_split_clean(kv_text(k, v), SLASH);
    let ts = split_on(tail, SLASH);
    let ts2 = split_on(tail2, SLASH);
    assert(ts2 =~= ts.push(kv_text(k, v)));
    lemma_split_on_len(tail, SLASH);
    assert(ts2.skip(1) =~= ts.skip(1).push(kv_text(k, v)));
    lemma_kv_round(k, v);
    let fs2 = ts.skip(1).push(kv_text(k, v));
    assert(fs2.drop_last() =~= ts.skip(1));
    assert(fs2.last() == kv_text(k, v));
    assert(kvs_of(fs2) == (match kvs_of(ts.skip(1)) {
        Some(kvs) => Some(kvs.push((k, v))),
        None => None,
    }));
}

/// A later field with a different key leaves a lookup unchanged.
proof fn lemma_last_val_other(kvs: Seq<(Seq<u8>, Seq<u8>)>, k: Seq<u8>, v: Seq<u8>, key: Seq<u8>)
    requires
        k != key,
    ensures
        last_val(kvs.push((k, v)), key) == last_val(kvs, key),
{
    let p = kvs.push((k, v));
    assert(p.last() == (k, v));
    assert(p.drop_last() =~= kvs);
}

/// A trailing field under a key the client→server commands do not read
/// never changes what a datagram parses to.
pub proof fn lemma_parse_to_ignores_unknown(s: Seq<u8>, k: Seq<u8>, v: Seq<u8>)
    requires
        spec_parse_to(s) is Some,
        token_clean(k, SLASH),
        token_clean(k, EQUALS),
        token_clean(v, SLASH),
        token_clean(v, EQUALS),
        k != key_id(),
        k != key_useproxy(),
        k != key_remote(),
    ensures
        spec_parse_to(s + seq![SLASH] + kv_text(k, v)) == spec_parse_to(s),
{
    lemma_append_field(s, k, v);
    let s2 = s + seq![SLASH] + kv_text(k, v);
    let tail = strip_magic(s)->Some_0;
    let tail2 = strip_magic(s2)->Some_0;
    let ts = split_on(tail, SLASH);
    let ts2 = split_on(tail2, SLASH);
    lemma_split_on_len(tail, SLASH);
    assert(ts2[0] == ts[0]);
    let kvs = kvs_of(ts.skip(1))->Some_0;
    assert(kvs_of(ts2.skip(1)) == Some(kvs.push((k, v))));
    lemma_last_val_other(kvs, k, v, key_id());
    lemma_last_val_other(kvs, k, v, key_useproxy());
    lemma_last_val_other(kvs, k, v, key_remote());
}

/// A trailing field under a key the server→client commands do not read
/// never changes what a datagram parses to.
pub proof fn lemma_parse_from_ignores_unknown(s: Seq<u8>, k: Seq<u8>, v: Seq<u8>)
    requires
        spec_parse_from(s) is Some,
        token_clean(k, SLASH),
        token_clean(k, EQUALS),
        token_clean(v, SLASH),
        token_clean(v, EQUALS),
        k != key_id(),
        k != key_msg(),
        k != key_remote(),
        k != key_port(),
        k != key_ok(),
    ensures
        spec_parse_from(s + seq![SLASH] + kv_text(k, v)) == spec_parse_from(s),
{
    lemma_append_field(s, k, v);
    let s2 = s + seq![SLASH] + kv_text(k, v);
    let tail = strip_magic(s)->Some_0;
    let tail2 = strip_magic(s2)->Some_0;
    let ts = split_on(tail, SLASH);
    let ts2 = split_on(tail2, SLASH);
    lemma_split_on_len(tail, SLASH);
    assert(ts2[0] == ts[0]);
    let kvs = kvs_of(ts.skip(1))->Some_0;
    assert(kvs_of(ts2.skip(1)) == Some(kvs.push((k, v))));
    lemma_last_val_other(kvs, k, v, key_id());
    lemma_last_val_other(kvs, k, v, key_msg());
    lemma_last_val_other(kvs, k, v, key_remote());
    lemma_last_val_other(kvs, k, v, key_port());
    lemma_last_val_other(kvs, k, v, key_ok());
}


/// A lookup succeeds exactly when some registration carries the id.
proof fn lemma_lookup_contains(rdv: Seq<(u32, RdvRemote)>, id: u32)
    ensures
        spec_lookup(rdv, id) is Some <==> contains_id(rdv, id),
    decreases rdv.len(),
{
    if rdv.len() > 0 {
        lemma_lookup_contains(rdv.skip(1), id);
        if rdv[0].0 == id {
            assert(contains_id(rdv, id));
        } else {
            if contains_id(rdv.skip(1), id) {
                let w = choose|w: int|
                    0 <= w < rdv.skip(1).len() && (#[trigger] rdv.skip(1)[w]).0 == id;
                assert(rdv[w + 1].0 == id);
                assert(contains_id(rdv, id));
            }
            if contains_id(rdv, id) {
                let w = choose|w: int| 0 <= w < rdv.len() && (#[trigger] rdv[w]).0 == id;
                assert(w > 0);
                assert(rdv.skip(1)[w - 1].0 == id);
                assert(contains_id(rdv.skip(1), id));
            }
        }
    }
}

/// Every registration that survives a sweep is still alive.
proof fn lemma_live_rdv_alive(rdv: Seq<(u32, RdvRemote)>, now: u64)
    ensures
        forall|i: int|
            0 <= i < live_rdv(rdv, now).len() ==> !(#[trigger] live_rdv(rdv, now)[i]).1.spec_expired(
                now,
            ),
    decreases rdv.len(),
{
    if rdv.len() > 0 {
        lemma_live_rdv_alive(rdv.drop_last(), now);
        let rest = live_rdv(rdv.drop_last(), now);
        let lv = live_rdv(rdv, now);
        assert forall|i: int| 0 <= i < lv.len() implies !(#[trigger] lv[i]).1.spec_expired(now) by {
            if i < rest.len() {
                assert(lv[i] == rest[i]);
            }
        }
    }
}

/// Registering twice in a row from the same socket returns the same id,
/// and the registry grows by exactly one entry when the socket was new, by
/// none when it was already registered.
pub proof fn lemma_register_identity_stable(
    pre: Seq<(u32, RdvRemote)>,
    s: SockAddr,
    now1: u64,
    id1: u32,
    mid: Seq<(u32, RdvRemote)>,
    now2: u64,
    id2: u32,
    post: Seq<(u32, RdvRemote)>,
)
    requires
        forall|i: int, j: int|
            0 <= i < j < pre.len() ==> (#[trigger] pre[i]).1.socket_addr != (
            #[trigger] pre[j]).1.socket_addr,
        register_step(pre, s, now1, id1, mid),
        register_step(mid, s, now2, id2, post),
    ensures
        id2 == id1,
        !contains_socket(pre, s) ==> post.len() == pre.len() + 1,
        contains_socket(pre, s) ==> post.len() == pre.len(),
{
    let entry1 = (id1, RdvRemote { socket_addr: s, expiring: (now1 + REGISTER_EXPIRE_TIME) as u64 });
    if contains_socket(pre, s) {
        let c1 = choose|c1: int| 0 <= c1 < pre.len() && (#[trigger] pre[c1]).1.socket_addr == s;
        assert(id1 == pre[c1].0);
        assert(mid == pre.update(c1, entry1));
        assert(mid[c1].1.socket_addr == s);
        assert(contains_socket(mid, s));
        let c2 = choose|c2: int| 0 <= c2 < mid.len() && (#[trigger] mid[c2]).1.socket_addr == s;
        if c2 != c1 {
            assert(mid[c2] == pre[c2]);
            if c2 < c1 {
                assert(pre[c2].1.socket_addr != pre[c1].1.socket_addr);
            } else {
                assert(pre[c1].1.socket_addr != pre[c2].1.socket_addr);
            }
        }
        assert(c2 == c1);
        assert(id2 == mid[c1].0);
        assert(mid[c1] == entry1);
    } else {
        assert(mid == pre.push(entry1));
        assert(mid[pre.len() as int].1.socket_addr == s);
        assert(contains_socket(mid, s));
        let ci = choose|ci: int| 0 <= ci < mid.len() && (#[trigger] mid[ci]).1.socket_addr == s;
        if ci < pre.len() {
            assert(mid[ci] == pre[ci]);
            assert(pre[ci].1.socket_addr == s);
            assert(contains_socket(pre, s));
        }
        assert(ci == pre.len());
        assert(id2 == mid[ci].0);
        assert(mid[ci] == entry1);
    }
}

/// After a sweep, an expired registration is gone: its id no longer
/// resolves.
pub proof fn lemma_sweep_removes_expired(rdv: Seq<(u32, RdvRemote)>, now: u64, k: int)
    requires
        forall|i: int, j: int|
            0 <= i < j < rdv.len() ==> (#[trigger] rdv[i]).0 != (#[trigger] rdv[j]).0,
        0 <= k < rdv.len(),
        rdv[k].1.spec_expired(now),
    ensures
        !contains_id(live_rdv(rdv, now), rdv[k].0),
        spec_lookup(live_rdv(rdv, now), rdv[k].0) is None,
{
    let lv = live_rdv(rdv, now);
    crate::tracker::lemma_live_rdv_members(rdv, now);
    lemma_live_rdv_alive(rdv, now);
    if contains_id(lv, rdv[k].0) {
        let i = choose|i: int| 0 <= i < lv.len() && (#[trigger] lv[i]).0 == rdv[k].0;
        assert(rdv.contains(lv[i]));
        let w = choose|w: int| 0 <= w < rdv.len() && rdv[w] == lv[i];
        if w < k {
            assert(rdv[w].0 != rdv[k].0);
        }
        if w > k {
            assert(rdv[k].0 != rdv[w].0);
        }
        assert(w == k);
        assert(!lv[i].1.spec_expired(now));
    }
    lemma_lookup_contains(lv, rdv[k].0);
}

/// Whether a relay session toward `r` stands at each position, counted.
pub open spec fn count_outgoing(ps: Seq<ProxyData>, r: SockAddr) -> nat
    decreases ps.len(),
{
    if ps.len() == 0 {
        0
    } else {
        count_outgoing(ps.drop_last(), r) + if ps.last().outgoing == r {
            1nat
        } else {
            0nat
        }
    }
}

/// The local sockets pinned by sessions toward `r`.
spec fn out_socks(ps: Seq<ProxyData>, r: SockAddr) -> Set<int>
    decreases ps.len(),
{
    if ps.len() == 0 {
        Set::empty()
    } else {
        let rest = out_socks(ps.drop_last(), r);
        if ps.last().outgoing == r {
            rest.insert(ps.last().out_socket_n as int)
        } else {
            rest
        }
    }
}

proof fn lemma_out_socks(ps: Seq<ProxyData>, r: SockAddr)
    requires
        forall|i: int, j: int|
            0 <= i < j < ps.len() && (#[trigger] ps[i]).outgoing == (#[trigger] ps[j]).outgoing
                ==> ps[i].out_socket_n != ps[j].out_socket_n,
    ensures
        out_socks(ps, r).finite(),
        count_outgoing(ps, r) == out_socks(ps, r).len(),
        forall|x: int|
            out_socks(ps, r).contains(x) ==> exists|i: int|
                0 <= i < ps.len() && (#[trigger] ps[i]).outgoing == r && ps[i].out_socket_n == x,
    decreases ps.len(),
{
    if ps.len() > 0 {
        let dl = ps.drop_last();
        assert(forall|i: int, j: int|
            0 <= i < j < dl.len() && (#[trigger] dl[i]).outgoing == (#[trigger] dl[j]).outgoing
                ==> dl[i].out_socket_n != dl[j].out_socket_n) by {
            assert forall|i: int, j: int|
                0 <= i < j < dl.len() && (#[trigger] dl[i]).outgoing == (
                #[trigger] dl[j]).outgoing implies dl[i].out_socket_n != dl[j].out_socket_n by {
                assert(dl[i] == ps[i] && dl[j] == ps[j]);
            }
        }
        lemma_out_socks(dl, r);
        let rest = out_socks(dl, r);
        if ps.last().outgoing == r {
            let x = ps.last().out_socket_n as int;
            if rest.contains(x) {
                let i = choose|i: int|
                    0 <= i < dl.len() && (#[trigger] dl[i]).outgoing == r && dl[i].out_socket_n
                        == x;
                assert(ps[i] == dl[i]);
                assert(ps[i].out_socket_n != ps[ps.len() - 1].out_socket_n);
            }
            assert(!rest.contains(x));
            assert(out_socks(ps, r).len() == rest.len() + 1);
            assert forall|y: int| out_socks(ps, r).contains(y) implies exists|i: int|
                0 <= i < ps.len() && (#[trigger] ps[i]).outgoing == r && ps[i].out_socket_n
                    == y by {
                if y == x {
                    assert(ps[ps.len() - 1].outgoing == r && ps[ps.len() - 1].out_socket_n == y);
                } else {
                    assert(rest.contains(y));
                    let i = choose|i: int|
                        0 <= i < dl.len() && (#[trigger] dl[i]).outgoing == r && dl[i].out_socket_n
                            == y;
                    assert(ps[i] == dl[i]);
                }
            }
        } else {
            assert forall|y: int| out_socks(ps, r).contains(y) implies exists|i: int|
                0 <= i < ps.len() && (#[trigger] ps[i]).outgoing == r && ps[i].out_socket_n
                    == y by {
                assert(rest.contains(y));
                let i = choose|i: int|
                    0 <= i < dl.len() && (#[trigger] dl[i]).outgoing == r && dl[i].out_socket_n
                        == y;
                assert(ps[i] == dl[i]);
            }
        }
    }
}

/// No peer is ever the target of more relay sessions than the server has
/// local sockets: each such session pins a distinct one of them.
pub proof fn lemma_session_capacity(ps: Seq<ProxyData>, r: SockAddr)
    requires
        forall|i: int| 0 <= i < ps.len() ==> (#[trigger] ps[i]).out_socket_n < UDP_SOCKET_N,
        forall|i: int, j: int|
            0 <= i < j < ps.len() && (#[trigger] ps[i]).outgoing == (#[trigger] ps[j]).outgoing
                ==> ps[i].out_socket_n != ps[j].out_socket_n,
    ensures
        count_outgoing(ps, r) <= UDP_SOCKET_N,
{
    lemma_out_socks(ps, r);
    let socks = out_socks(ps, r);
    assert forall|x: int| socks.contains(x) implies vstd::set_lib::set_int_range(
        0,
        UDP_SOCKET_N as int,
    ).contains(x) by {
        let i = choose|i: int|
            0 <= i < ps.len() && (#[trigger] ps[i]).outgoing == r && ps[i].out_socket_n == x;
        assert(ps[i].out_socket_n < UDP_SOCKET_N);
    }
    vstd::set_lib::lemma_int_range(0, UDP_SOCKET_N as int);
    vstd::set_lib::lemma_len_subset(socks, vstd::set_lib::set_int_range(0, UDP_SOCKET_N as int));
}

/// Every relay session that survives a sweep is still active.
proof fn lemma_live_proxy_alive(ps: Seq<ProxyData>, now: u64)
    ensures
        forall|i: int|
            0 <= i < live_proxy(ps, now).len() ==> !(#[trigger] live_proxy(ps, now)[i]).spec_expired(
                now,
            ),
    decreases ps.len(),
{
    if ps.len() > 0 {
        lemma_live_proxy_alive(ps.drop_last(), now);
        let rest = live_proxy(ps.drop_last(), now);
        let lv = live_proxy(ps, now);
        assert forall|i: int| 0 <= i < lv.len() implies !(#[trigger] lv[i]).spec_expired(now) by {
            if i < rest.len() {
                assert(lv[i] == rest[i]);
            }
        }
    }
}

/// A sweep removes a relay session exactly when it has been idle past its
/// expiry: an idle session goes, a recently active one stays.
pub proof fn lemma_proxy_expiry(ps: Seq<ProxyData>, now: u64, s: ProxyData)
    requires
        ps.contains(s),
    ensures
        live_proxy(ps, now).contains(s) <==> !s.spec_expired(now),
    decreases ps.len(),
{
    let lv = live_proxy(ps, now);
    if s.spec_expired(now) {
        lemma_live_proxy_alive(ps, now);
        if lv.contains(s) {
            let i = choose|i: int| 0 <= i < lv.len() && lv[i] == s;
            assert(!lv[i].spec_expired(now));
        }
    } else {
        let w = choose|w: int| 0 <= w < ps.len() && ps[w] == s;
        let dl = ps.drop_last();
        let rest = live_proxy(dl, now);
        if w < ps.len() - 1 {
            assert(dl[w] == s);
            assert(dl.contains(s));
            lemma_proxy_expiry(dl, now, s);
            let i = choose|i: int| 0 <= i < rest.len() && rest[i] == s;
            assert(lv[i] == rest[i]);
            assert(lv.contains(s));
        } else {
            assert(ps.last() == s);
            assert(lv == rest.push(s));
            assert(lv[lv.len() - 1] == s);
            assert(lv.contains(s));
        }
    }
}

} // verus!
