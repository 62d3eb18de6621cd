//! Socket addresses as the server models them: the IP bits and the port as
//! plain integers, with the standard textual rendering (`a.b.c.d:port`, or
//! `[h:...:h]:port` for IPv6) defined as a spec-level byte string.

use vstd::prelude::*;
use crate::digits::{
    dec_rep, hex_rep, pos_of, pos_val, pow_n, all_dec_digits, all_hex_digits, is_dec_digit,
    is_hex_digit, lemma_dec_rep_digits, lemma_hex_rep_digits, lemma_pos_of_elems, u64_to_dec,
    u64_to_hex, spec_parse_dec, spec_parse_hex, parse_dec, parse_hex, lemma_pow_n_le,
};
use crate::tokens::{
    join_sep, join_bytes, token_clean, tokens_clean, lemma_join_clean, split_on, split_bytes,
    first_idx, first_empty, find_byte, find_first_empty, lemma_first_idx, lemma_first_empty,
    lemma_split_join,
};
use vstd::slice::slice_subrange;

verus! {

/// ASCII '.'
pub const DOT: u8 = 46;

/// ASCII ':'
pub const COLON: u8 = 58;

/// ASCII '['
pub const LBRACK: u8 = 91;

/// ASCII ']'
pub const RBRACK: u8 = 93;

/// An IP address held as its raw bits.
#[derive(Debug, Clone, Copy, PartialEq, Eq, Structural)]
#[allow(inconsistent_fields)]
pub enum IpAddress {
    V4 { bits: u32 },
    V6 { bits: u128 },
}

/// A socket address: IP address and port.
#[derive(Debug, Clone, Copy, PartialEq, Eq, Structural)]
pub struct SockAddr {
    pub ip: IpAddress,
    pub port: u16,
}

/// The four dotted octet strings of an IPv4 address.
pub open spec fn v4_octet_texts(bits: u32) -> Seq<Seq<u8>> {
    pos_of(bits as nat, 256, 4).map_values(|o: nat| dec_rep(o))
}

pub open spec fn v4_text(bits: u32) -> Seq<u8> {
    join_sep(v4_octet_texts(bits), DOT)
}

/// The eight colon-separated hex group strings of an IPv6 address, never
/// compressed.
pub open spec fn v6_group_texts(bits: u128) -> Seq<Seq<u8>> {
    pos_of(bits as nat, 65536, 8).map_values(|g: nat| hex_rep(g))
}

pub open spec fn v6_inner_text(bits: u128) -> Seq<u8> {
    join_sep(v6_group_texts(bits), COLON)
}

/// The textual rendering of a socket address, as it appears on the wire.
pub open spec fn addr_text(a: SockAddr) -> Seq<u8> {
    match a.ip {
        IpAddress::V4 { bits } => v4_text(bits) + seq![COLON] + dec_rep(a.port as nat),
        IpAddress::V6 { bits } => seq![LBRACK] + v6_inner_text(bits) + seq![RBRACK, COLON]
            + dec_rep(a.port as nat),
    }
}

/// A string of decimal digits avoids any non-digit byte.
pub proof fn lemma_dec_digits_clean(s: Seq<u8>, d: u8)
    requires
        all_dec_digits(s),
        !is_dec_digit(d),
    ensures
        token_clean(s, d),
{
}

pub proof fn lemma_hex_digits_clean(s: Seq<u8>, d: u8)
    requires
        all_hex_digits(s),
        !is_hex_digit(d),
    ensures
        token_clean(s, d),
{
}

pub proof fn lemma_v4_octet_texts_clean(bits: u32, d: u8)
    requires
        !is_dec_digit(d),
    ensures
        v4_octet_texts(bits).len() == 4,
        tokens_clean(v4_octet_texts(bits), d),
        forall|k: int| 0 <= k < 4 ==> (#[trigger] v4_octet_texts(bits)[k]).len() >= 1,
        forall|k: int| 0 <= k < 4 ==> all_dec_digits(#[trigger] v4_octet_texts(bits)[k]),
{
    lemma_pos_of_elems(bits as nat, 256, 4);
    let ts = v4_octet_texts(bits);
    assert forall|k: int| 0 <= k < 4 implies token_clean(#[trigger] ts[k], d) && ts[k].len() >= 1
        && all_dec_digits(ts[k]) by {
        let o = pos_of(bits as nat, 256, 4)[k];
        assert(ts[k] == dec_rep(o));
        lemma_dec_rep_digits(o);
        lemma_dec_digits_clean(dec_rep(o), d);
    }
}

pub proof fn lemma_v6_group_texts_clean(bits: u128, d: u8)
    requires
        !is_hex_digit(d),
    ensures
        v6_group_texts(bits).len() == 8,
        tokens_clean(v6_group_texts(bits), d),
        forall|k: int| 0 <= k < 8 ==> (#[trigger] v6_group_texts(bits)[k]).len() >= 1,
        forall|k: int| 0 <= k < 8 ==> all_hex_digits(#[trigger] v6_group_texts(bits)[k]),
{
    lemma_pos_of_elems(bits as nat, 65536, 8);
    let ts = v6_group_texts(bits);
    assert forall|k: int| 0 <= k < 8 implies token_clean(#[trigger] ts[k], d) && ts[k].len() >= 1
        && all_hex_digits(ts[k]) by {
        let g = pos_of(bits as nat, 65536, 8)[k];
        assert(ts[k] == hex_rep(g));
        lemma_hex_rep_digits(g);
        lemma_hex_digits_clean(hex_rep(g), d);
    }
}

/// The rendering of an address avoids every byte that is neither a digit, a
/// hex letter, nor one of '.', ':', '[', ']'. In particular it avoids '/'
/// and '='.
pub proof fn lemma_addr_text_clean(a: SockAddr, d: u8)
    requires
        !is_dec_digit(d),
        !is_hex_digit(d),
        d != DOT,
        d != COLON,
        d != LBRACK,
        d != RBRACK,
    ensures
        token_clean(addr_text(a), d),
{
    let pt = dec_rep(a.port as nat);
    lemma_dec_rep_digits(a.port as nat);
    lemma_dec_digits_clean(pt, d);
    match a.ip {
        IpAddress::V4 { bits } => {
            lemma_v4_octet_texts_clean(bits, d);
            lemma_join_clean(v4_octet_texts(bits), DOT, d);
            let s = addr_text(a);
            let body = v4_text(bits);
            assert forall|j: int| 0 <= j < s.len() implies s[j] != d by {
                if j < body.len() {
                    assert(s[j] == body[j]);
                } else if j == body.len() {
                    assert(s[j] == COLON);
                } else {
                    assert(s[j] == pt[j - body.len() - 1]);
                }
            }
        },
        IpAddress::V6 { bits } => {
            lemma_v6_group_texts_clean(bits, d);
            lemma_join_clean(v6_group_texts(bits), COLON, d);
            let s = addr_text(a);
            let body = v6_inner_text(bits);
            assert forall|j: int| 0 <= j < s.len() implies s[j] != d by {
                if j == 0 {
                    assert(s[j] == LBRACK);
                } else if j <= body.len() {
                    assert(s[j] == body[j - 1]);
                } else if j == body.len() + 1 {
                    assert(s[j] == RBRACK);
                } else if j == body.len() + 2 {
                    assert(s[j] == COLON);
                } else {
                    assert(s[j] == pt[j - body.len() - 3]);
                }
            }
        },
    }
}

/// The dotted octet strings of an IPv4 address, as byte vectors.
fn v4_tokens(bits: u32, k: usize) -> (r: Vec<Vec<u8>>)
    requires
        k <= 4,
    ensures
        r@.map_values(|t: Vec<u8>| t@) == pos_of(bits as nat, 256, k as nat).map_values(
            |o: nat| dec_rep(o),
        ),
    decreases k,
{
    if k == 0 {
        let r: Vec<Vec<u8>> = Vec::new();
        proof {
            assert(r@.map_values(|t: Vec<u8>| t@) =~= pos_of(bits as nat, 256, 0).map_values(
                |o: nat| dec_rep(o),
            ));
        }
        r
    } else {
        let mut r = v4_tokens(bits / 256, k - 1);
        let ghost r0 = r@;
        let o = bits % 256;
        let t = u64_to_dec(o as u64);
        r.push(t);
        proof {
            let b = bits as nat;
            let prev = pos_of(b / 256, 256, (k - 1) as nat);
            lemma_pos_of_elems(b / 256, 256, (k - 1) as nat);
            assert((bits % 256) as nat == b % 256);
            assert((bits / 256) as nat == b / 256);
            assert(pos_of(b, 256, k as nat) == prev.push(b % 256));
            assert(r0.map_values(|t: Vec<u8>| t@).len() == k - 1);
            assert(r0.len() == k - 1);
            assert(r@ == r0.push(t));
            assert forall|i: int| 0 <= i < k implies #[trigger] r@[i]@ == dec_rep(
                pos_of(b, 256, k as nat)[i],
            ) by {
                if i < k - 1 {
                    assert(r@[i] == r0[i]);
                    assert(r0.map_values(|t: Vec<u8>| t@)[i] == r0[i]@);
                    assert(prev.map_values(|o: nat| dec_rep(o))[i] == dec_rep(prev[i]));
                    assert(pos_of(b, 256, k as nat)[i] == prev[i]);
                } else {
                    assert(r@[i] == t);
                    assert(pos_of(b, 256, k as nat)[i] == b % 256);
                }
            }
            assert(r@.map_values(|t: Vec<u8>| t@) =~= pos_of(b, 256, k as nat).map_values(
                |o: nat| dec_rep(o),
            ));
        }
        r
    }
}

/// The hex group strings of an IPv6 address, as byte vectors.
fn v6_tokens(bits: u128, k: usize) -> (r: Vec<Vec<u8>>)
    requires
        k <= 8,
    ensures
        r@.map_values(|t: Vec<u8>| t@) == pos_of(bits as nat, 65536, k as nat).map_values(
            |g: nat| hex_rep(g),
        ),
    decreases k,
{
    if k == 0 {
        let r: Vec<Vec<u8>> = Vec::new();
        proof {
            assert(r@.map_values(|t: Vec<u8>| t@) =~= pos_of(bits as nat, 65536, 0).map_values(
                |g: nat| hex_rep(g),
            ));
        }
        r
    } else {
        let mut r = v6_tokens(bits / 65536, k - 1);
        let ghost r0 = r@;
        let g = bits % 65536;
        let t = u64_to_hex(g as u64);
        r.push(t);
        proof {
            let b = bits as nat;
            let prev = pos_of(b / 65536, 65536, (k - 1) as nat);
            lemma_pos_of_elems(b / 65536, 65536, (k - 1) as nat);
            assert((bits % 65536) as nat == b % 65536);
            assert((bits / 65536) as nat == b / 65536);
            assert(pos_of(b, 65536, k as nat) == prev.push(b % 65536));
            assert(r0.map_values(|t: Vec<u8>| t@).len() == k - 1);
            assert(r0.len() == k - 1);
            assert(r@ == r0.push(t));
            assert forall|i: int| 0 <= i < k implies #[trigger] r@[i]@ == hex_rep(
                pos_of(b, 65536, k as nat)[i],
            ) by {
                if i < k - 1 {
                    assert(r@[i] == r0[i]);
                    assert(r0.map_values(|t: Vec<u8>| t@)[i] == r0[i]@);
                    assert(prev.map_values(|g: nat| hex_rep(g))[i] == hex_rep(prev[i]));
                    assert(pos_of(b, 65536, k as nat)[i] == prev[i]);
                } else {
                    assert(r@[i] == t);
                    assert(pos_of(b, 65536, k as nat)[i] == b % 65536);
                }
            }
            assert(r@.map_values(|t: Vec<u8>| t@) =~= pos_of(b, 65536, k as nat).map_values(
                |g: nat| hex_rep(g),
            ));
        }
        r
    }
}

/// Renders a socket address in its standard textual form.
pub fn render_addr(a: &SockAddr) -> (r: Vec<u8>)
    ensures
        r@ == addr_text(*a),
{
    let mut port_txt = u64_to_dec(a.port as u64);
    match a.ip {
        IpAddress::V4 { bits } => {
            let toks = v4_tokens(bits, 4);
            proof {
                crate::digits::lemma_pos_of_elems(bits as nat, 256, 4);
                assert(toks@.len() == 4) by {
                    assert(toks@.map_values(|t: Vec<u8>| t@).len() == 4);
                }
            }
            let mut out = join_bytes(&toks, DOT);
            out.push(COLON);
            out.append(&mut port_txt);
            proof {
                assert(out@ =~= addr_text(*a));
            }
            out
        },
        IpAddress::V6 { bits } => {
            let toks = v6_tokens(bits, 8);
            proof {
                crate::digits::lemma_pos_of_elems(bits as nat, 65536, 8);
                assert(toks@.len() == 8) by {
                    assert(toks@.map_values(|t: Vec<u8>| t@).len() == 8);
                }
            }
            let body = join_bytes(&toks, COLON);
            let mut out: Vec<u8> = Vec::new();
            out.push(LBRACK);
            let mut body = body;
            out.append(&mut body);
            out.push(RBRACK);
            out.push(COLON);
            out.append(&mut port_txt);
            proof {
                assert(out@ =~= addr_text(*a));
            }
            out
        },
    }
}


/// The value of a decimal token acceptable as an IPv4 octet.
pub open spec fn spec_octet(t: Seq<u8>) -> Option<nat> {
    match spec_parse_dec(t) {
        Some(v) => if v <= 255 {
            Some(v as nat)
        } else {
            None
        },
        None => None,
    }
}

/// The value of a hex token acceptable as an IPv6 group.
pub open spec fn spec_group(t: Seq<u8>) -> Option<nat> {
    match spec_parse_hex(t) {
        Some(v) => if v <= 65535 {
            Some(v as nat)
        } else {
            None
        },
        None => None,
    }
}

/// The value of a decimal token acceptable as a port.
pub open spec fn spec_port(t: Seq<u8>) -> Option<u16> {
    match spec_parse_dec(t) {
        Some(v) => if v <= 65535 {
            Some(v as u16)
        } else {
            None
        },
        None => None,
    }
}

/// Octet values of a token list, or nothing if any token is unacceptable.
pub open spec fn octet_vals(ts: Seq<Seq<u8>>) -> Option<Seq<nat>>
    decreases ts.len(),
{
    if ts.len() == 0 {
        Some(Seq::empty())
    } else {
        match (octet_vals(ts.drop_last()), spec_octet(ts.last())) {
            (Some(vs), Some(v)) => Some(vs.push(v)),
            _ => None,
        }
    }
}

/// Group values of a token list, or nothing if any token is unacceptable.
pub open spec fn group_vals(ts: Seq<Seq<u8>>) -> Option<Seq<nat>>
    decreases ts.len(),
{
    if ts.len() == 0 {
        Some(Seq::empty())
    } else {
        match (group_vals(ts.drop_last()), spec_group(ts.last())) {
            (Some(vs), Some(v)) => Some(vs.push(v)),
            _ => None,
        }
    }
}

pub proof fn lemma_group_vals_all(ts: Seq<Seq<u8>>, vs: Seq<nat>)
    requires
        ts.len() == vs.len(),
        forall|k: int| 0 <= k < ts.len() ==> spec_group(#[trigger] ts[k]) == Some(vs[k]),
    ensures
        group_vals(ts) == Some(vs),
    decreases ts.len(),
{
    if ts.len() > 0 {
        assert(forall|k: int|
            0 <= k < ts.drop_last().len() ==> spec_group(#[trigger] ts.drop_last()[k]) == Some(
                vs.drop_last()[k],
            ));
        lemma_group_vals_all(ts.drop_last(), vs.drop_last());
        assert(spec_group(ts.last()) == Some(vs.last()));
        assert(vs.drop_last().push(vs.last()) =~= vs);
    }
}

pub proof fn lemma_octet_vals_all(ts: Seq<Seq<u8>>, vs: Seq<nat>)
    requires
        ts.len() == vs.len(),
        forall|k: int| 0 <= k < ts.len() ==> spec_octet(#[trigger] ts[k]) == Some(vs[k]),
    ensures
        octet_vals(ts) == Some(vs),
    decreases ts.len(),
{
    if ts.len() > 0 {
        assert(forall|k: int|
            0 <= k < ts.drop_last().len() ==> spec_octet(#[trigger] ts.drop_last()[k]) == Some(
                vs.drop_last()[k],
            ));
        lemma_octet_vals_all(ts.drop_last(), vs.drop_last());
        assert(spec_octet(ts.last()) == Some(vs.last()));
        assert(vs.drop_last().push(vs.last()) =~= vs);
    }
}

/// Eight zero-padded groups around a compressed gap.
pub open spec fn pad_groups(f: Seq<nat>, b: Seq<nat>) -> Seq<nat> {
    f + Seq::new((8 - f.len() - b.len()) as nat, |i: int| 0nat) + b
}

/// Group values of a compressed IPv6 body: front tokens, a gap of zeros,
/// back tokens.
pub open spec fn spec_v6_padded(front: Seq<Seq<u8>>, back: Seq<Seq<u8>>) -> Option<u128> {
    match (group_vals(front), group_vals(back)) {
        (Some(fv), Some(bv)) => if fv.len() + bv.len() <= 7 {
            Some(pos_val(pad_groups(fv, bv), 65536) as u128)
        } else {
            None
        },
        _ => None,
    }
}

/// The bits denoted by the text between the brackets of an IPv6 address:
/// eight colon-separated hex groups, or a form compressed with `::`.
pub open spec fn spec_parse_v6(inner: Seq<u8>) -> Option<u128> {
    let ts = split_on(inner, COLON);
    let e = first_empty(ts);
    if e == ts.len() {
        if ts.len() == 8 {
            match group_vals(ts) {
                Some(gs) => Some(pos_val(gs, 65536) as u128),
                None => None,
            }
        } else {
            None
        }
    } else if e == 0 && ts.len() == 3 && ts[1].len() == 0 && ts[2].len() == 0 {
        Some(0)
    } else if e == 0 && ts.len() >= 3 && ts[1].len() == 0 {
        spec_v6_padded(Seq::empty(), ts.skip(2))
    } else if e == 0 || e == ts.len() - 1 {
        None
    } else if e == ts.len() - 2 && ts[ts.len() - 1].len() == 0 {
        spec_v6_padded(ts.take(e), Seq::empty())
    } else {
        spec_v6_padded(ts.take(e), ts.skip(e + 1))
    }
}

/// The bits denoted by a dotted-quad IPv4 text.
pub open spec fn spec_parse_v4(t: Seq<u8>) -> Option<u32> {
    let ts = split_on(t, DOT);
    if ts.len() == 4 {
        match octet_vals(ts) {
            Some(os) => Some(pos_val(os, 256) as u32),
            None => None,
        }
    } else {
        None
    }
}

/// The address denoted by a textual `host:port`, IPv4 or bracketed IPv6.
pub open spec fn spec_parse_addr(s: Seq<u8>) -> Option<SockAddr> {
    if s.len() == 0 {
        None
    } else if s[0] == LBRACK {
        let close = first_idx(s, RBRACK);
        if close < s.len() && close + 1 < s.len() && s[close + 1] == COLON {
            match (spec_parse_v6(s.subrange(1, close)), spec_port(s.skip(close + 2))) {
                (Some(bits), Some(p)) => Some(SockAddr { ip: IpAddress::V6 { bits }, port: p }),
                _ => None,
            }
        } else {
            None
        }
    } else {
        let i = first_idx(s, COLON);
        if i < s.len() {
            match (spec_parse_v4(s.take(i)), spec_port(s.skip(i + 1))) {
                (Some(bits), Some(p)) => Some(SockAddr { ip: IpAddress::V4 { bits }, port: p }),
                _ => None,
            }
        } else {
            None
        }
    }
}

/// Parses one token as an IPv4 octet.
fn parse_octet(t: &[u8]) -> (r: Option<u8>)
    ensures
        match r {
            Some(v) => spec_octet(t@) == Some(v as nat),
            None => spec_octet(t@) is None,
        },
{
    match parse_dec(t) {
        Some(v) => if v <= 255 {
            Some(v as u8)
        } else {
            None
        },
        None => None,
    }
}

/// Parses one token as an IPv6 group.
fn parse_group(t: &[u8]) -> (r: Option<u16>)
    ensures
        match r {
            Some(v) => spec_group(t@) == Some(v as nat),
            None => spec_group(t@) is None,
        },
{
    match parse_hex(t) {
        Some(v) => if v <= 65535 {
            Some(v as u16)
        } else {
            None
        },
        None => None,
    }
}

/// Parses one token as a port.
pub fn parse_port(t: &[u8]) -> (r: Option<u16>)
    ensures
        r == spec_port(t@),
{
    match parse_dec(t) {
        Some(v) => if v <= 65535 {
            Some(v as u16)
        } else {
            None
        },
        None => None,
    }
}

/// Parses the tokens in `ts[from..to]` as IPv6 groups.
fn parse_group_vals(ts: &Vec<Vec<u8>>, from: usize, to: usize) -> (r: Option<Vec<u16>>)
    requires
        0 <= from <= to <= ts@.len(),
    ensures
        ({
            let sub = ts@.map_values(|t: Vec<u8>| t@).subrange(from as int, to as int);
            match r {
                Some(v) => group_vals(sub) == Some(v@.map_values(|g: u16| g as nat)) && v@.len()
                    == to - from,
                None => group_vals(sub) is None,
            }
        }),
{
    let ghost m = ts@.map_values(|t: Vec<u8>| t@);
    let ghost sub = m.subrange(from as int, to as int);
    let mut out: Vec<u16> = Vec::new();
    let mut i: usize = from;
    while i < to
        invariant
            from <= i <= to <= ts@.len(),
            m == ts@.map_values(|t: Vec<u8>| t@),
            sub == m.subrange(from as int, to as int),
            out@.len() == i - from,
            group_vals(sub.take(i - from)) == Some(out@.map_values(|g: u16| g as nat)),
        decreases to - i,
    {
        let ghost out0 = out@;
        match parse_group(ts[i].as_slice()) {
            Some(g) => {
                out.push(g);
                proof {
                    let pre = sub.take(i - from);
                    let cur = sub.take(i + 1 - from);
                    assert(cur.drop_last() =~= pre);
                    assert(cur.last() == sub[i - from]);
                    assert(sub[i - from] == m[i as int]);
                    assert(m[i as int] == ts@[i as int]@);
                    assert(spec_group(cur.last()) == Some(g as nat));
                    assert(group_vals(cur) == Some(
                        out0.map_values(|x: u16| x as nat).push(g as nat),
                    ));
                    assert(out0.push(g).map_values(|x: u16| x as nat) =~= out0.map_values(
                        |x: u16| x as nat,
                    ).push(g as nat));
                }
            },
            None => {
                proof {
                    assert(sub[i - from] == ts@[i as int]@);
                    lemma_group_vals_none(sub, i - from);
                }
                return None;
            },
        }
        i = i + 1;
    }
    proof {
        assert(sub.take(to - from) =~= sub);
    }
    Some(out)
}

/// A failing token anywhere makes the whole list fail.
pub proof fn lemma_group_vals_none(ts: Seq<Seq<u8>>, k: int)
    requires
        0 <= k < ts.len(),
        spec_group(ts[k]) is None,
    ensures
        group_vals(ts) is None,
    decreases ts.len(),
{
    if k < ts.len() - 1 {
        assert(ts.drop_last()[k] == ts[k]);
        lemma_group_vals_none(ts.drop_last(), k);
    }
}

pub proof fn lemma_octet_vals_none(ts: Seq<Seq<u8>>, k: int)
    requires
        0 <= k < ts.len(),
        spec_octet(ts[k]) is None,
    ensures
        octet_vals(ts) is None,
    decreases ts.len(),
{
    if k < ts.len() - 1 {
        assert(ts.drop_last()[k] == ts[k]);
        lemma_octet_vals_none(ts.drop_last(), k);
    }
}

/// Assembles at most eight group values into address bits.
fn groups_to_bits(gs: &Vec<u16>) -> (r: u128)
    requires
        gs@.len() <= 8,
    ensures
        r as nat == pos_val(gs@.map_values(|g: u16| g as nat), 65536),
{
    let ghost vals = gs@.map_values(|g: u16| g as nat);
    let n = gs.len();
    let mut acc: u128 = 0;
    let mut i: usize = 0;
    while i < n
        invariant
            0 <= i <= n <= 8,
            n == gs@.len(),
            vals == gs@.map_values(|g: u16| g as nat),
            acc as nat == pos_val(vals.take(i as int), 65536),
            (acc as nat) < pow_n(65536, i as nat),
        decreases n - i,
    {
        proof {
            let cur = vals.take(i + 1);
            assert(cur.drop_last() =~= vals.take(i as int));
            assert(cur.last() == vals[i as int]);
            assert(vals[i as int] == gs@[i as int] as nat);
            lemma_pow_n_le(65536, (i + 1) as nat, 8);
            assert(pow_n(65536, 8) == 0x1_0000_0000_0000_0000_0000_0000_0000_0000) by {
                reveal_with_fuel(pow_n, 9);
            }
            assert((acc as nat) * 65536 + 65536 <= pow_n(65536, i as nat) * 65536)
                by (nonlinear_arith)
                requires
                    (acc as nat) < pow_n(65536, i as nat),
            ;
            assert(pow_n(65536, (i + 1) as nat) == 65536 * pow_n(65536, i as nat));
        }
        acc = acc * 65536 + (gs[i] as u128);
        i = i + 1;
    }
    proof {
        assert(vals.take(n as int) =~= vals);
    }
    acc
}

/// Parses the text between the brackets of an IPv6 address.
fn parse_v6_inner(inner: &[u8]) -> (r: Option<u128>)
    ensures
        r == spec_parse_v6(inner@),
{
    let ts = split_bytes(inner, COLON);
    let ghost m = ts@.map_values(|t: Vec<u8>| t@);
    let e = find_first_empty(&ts);
    let n = ts.len();
    proof {
        lemma_first_empty(m);
        assert(m.len() == n);
    }
    if e == n {
        if n == 8 {
            match parse_group_vals(&ts, 0, 8) {
                Some(gs) => {
                    proof {
                        assert(m.subrange(0, 8) =~= m);
                    }
                    Some(groups_to_bits(&gs))
                },
                None => {
                    proof {
                        assert(m.subrange(0, 8) =~= m);
                    }
                    None
                },
            }
        } else {
            None
        }
    } else if e == 0 && n == 3 && ts[1].len() == 0 && ts[2].len() == 0 {
        proof {
            assert(m[1].len() == 0 && m[2].len() == 0);
        }
        Some(0)
    } else if e == 0 && n >= 3 && ts[1].len() == 0 {
        proof {
            assert(m[1].len() == 0);
            if n == 3 {
                assert(m[2].len() != 0);
            }
        }
        parse_padded(&ts, 0, 0, 2, n)
    } else if e == 0 || e == n - 1 {
        None
    } else if e == n - 2 && ts[n - 1].len() == 0 {
        proof {
            assert(m[n - 1].len() == 0);
        }
        parse_padded(&ts, 0, e, n, n)
    } else {
        parse_padded(&ts, 0, e, e + 1, n)
    }
}

/// Parses a compressed IPv6 body: groups `ts[f0..f1]`, a zero gap, groups
/// `ts[b0..b1]`.
fn parse_padded(ts: &Vec<Vec<u8>>, f0: usize, f1: usize, b0: usize, b1: usize) -> (r: Option<
    u128,
>)
    requires
        0 <= f0 <= f1 <= ts@.len(),
        0 <= b0 <= b1 <= ts@.len(),
    ensures
        ({
            let m = ts@.map_values(|t: Vec<u8>| t@);
            r == spec_v6_padded(m.subrange(f0 as int, f1 as int), m.subrange(b0 as int, b1 as int))
        }),
{
    let ghost m = ts@.map_values(|t: Vec<u8>| t@);
    let front = match parse_group_vals(ts, f0, f1) {
        Some(v) => v,
        None => {
            return None;
        },
    };
    let back = match parse_group_vals(ts, b0, b1) {
        Some(v) => v,
        None => {
            return None;
        },
    };
    if front.len() > 7 || back.len() > 7 - front.len() {
        return None;
    }
    let gap = 8 - front.len() - back.len();
    let mut full: Vec<u16> = front;
    let mut j: usize = 0;
    let ghost fl = full@;
    while j < gap
        invariant
            0 <= j <= gap,
            full@ == fl + Seq::new(j as nat, |i: int| 0u16),
        decreases gap - j,
    {
        full.push(0);
        proof {
            assert(fl + Seq::new((j + 1) as nat, |i: int| 0u16) =~= (fl + Seq::new(
                j as nat,
                |i: int| 0u16,
            )).push(0u16));
        }
        j = j + 1;
    }
    let mut back_mut = back;
    let ghost bl = back_mut@;
    full.append(&mut back_mut);
    proof {
        let fv = fl.map_values(|g: u16| g as nat);
        let bv = bl.map_values(|g: u16| g as nat);
        assert(full@.map_values(|g: u16| g as nat) =~= pad_groups(fv, bv));
    }
    Some(groups_to_bits(&full))
}

/// Parses a dotted-quad IPv4 text.
fn parse_v4_text(t: &[u8]) -> (r: Option<u32>)
    ensures
        r == spec_parse_v4(t@),
{
    let ts = split_bytes(t, DOT);
    let ghost m = ts@.map_values(|t: Vec<u8>| t@);
    if ts.len() != 4 {
        return None;
    }
    let mut os: Vec<u8> = Vec::new();
    let mut i: usize = 0;
    while i < 4
        invariant
            0 <= i <= 4,
            m.len() == 4,
            m == ts@.map_values(|t: Vec<u8>| t@),
            m == split_on(t@, DOT),
            ts@.len() == 4,
            os@.len() == i,
            octet_vals(m.take(i as int)) == Some(os@.map_values(|o: u8| o as nat)),
        decreases 4 - i,
    {
        let ghost os0 = os@;
        match parse_octet(ts[i].as_slice()) {
            Some(o) => {
                os.push(o);
                proof {
                    let cur = m.take(i + 1);
                    assert(cur.drop_last() =~= m.take(i as int));
                    assert(cur.last() == m[i as int]);
                    assert(m[i as int] == ts@[i as int]@);
                    assert(spec_octet(cur.last()) == Some(o as nat));
                    assert(octet_vals(cur) == Some(
                        os0.map_values(|x: u8| x as nat).push(o as nat),
                    ));
                    assert(os0.push(o).map_values(|x: u8| x as nat) =~= os0.map_values(
                        |x: u8| x as nat,
                    ).push(o as nat));
                }
            },
            None => {
                proof {
                    assert(m[i as int] == ts@[i as int]@);
                    lemma_octet_vals_none(m, i as int);
                }
                return None;
            },
        }
        i = i + 1;
    }
    proof {
        assert(m.take(4) =~= m);
    }
    let vals = os;
    let mut acc: u32 = 0;
    let mut k: usize = 0;
    let ghost ov = vals@.map_values(|o: u8| o as nat);
    while k < 4
        invariant
            0 <= k <= 4,
            vals@.len() == 4,
            ov == vals@.map_values(|o: u8| o as nat),
            forall|j: int| 0 <= j < 4 ==> ov[j] < 256,
            acc as nat == pos_val(ov.take(k as int), 256),
            (acc as nat) < pow_n(256, k as nat),
        decreases 4 - k,
    {
        proof {
            let cur = ov.take(k + 1);
            assert(cur.drop_last() =~= ov.take(k as int));
            assert(cur.last() == ov[k as int]);
            lemma_pow_n_le(256, (k + 1) as nat, 4);
            assert(pow_n(256, 4) == 0x1_0000_0000) by {
                reveal_with_fuel(pow_n, 5);
            }
            assert((acc as nat) * 256 + 256 <= pow_n(256, k as nat) * 256) by (nonlinear_arith)
                requires
                    (acc as nat) < pow_n(256, k as nat),
            ;
            assert(pow_n(256, (k + 1) as nat) == 256 * pow_n(256, k as nat));
        }
        acc = acc * 256 + (vals[k] as u32);
        k = k + 1;
    }
    proof {
        assert(ov.take(4) =~= ov);
    }
    Some(acc)
}

/// Parses a textual socket address, exactly as `spec_parse_addr` describes.
pub fn parse_addr(s: &[u8]) -> (r: Option<SockAddr>)
    ensures
        r == spec_parse_addr(s@),
{
    let n = s.len();
    if n == 0 {
        return None;
    }
    if s[0] == LBRACK {
        let close = find_byte(s, RBRACK);
        if close < n && close + 1 < n && s[close + 1] == COLON {
            proof {
                lemma_first_idx(s@, RBRACK);
                assert(s@[close as int] == RBRACK);
                assert(close >= 1);
            }
            let inner = slice_subrange(s, 1, close);
            let ptxt = slice_subrange(s, close + 2, n);
            proof {
                assert(ptxt@ =~= s@.skip(close + 2));
            }
            match (parse_v6_inner(inner), parse_port(ptxt)) {
                (Some(bits), Some(p)) => Some(SockAddr { ip: IpAddress::V6 { bits }, port: p }),
                _ => None,
            }
        } else {
            None
        }
    } else {
        let i = find_byte(s, COLON);
        if i < n {
            let iptxt = slice_subrange(s, 0, i);
            let ptxt = slice_subrange(s, i + 1, n);
            proof {
                assert(iptxt@ =~= s@.take(i as int));
                assert(ptxt@ =~= s@.skip(i + 1));
            }
            match (parse_v4_text(iptxt), parse_port(ptxt)) {
                (Some(bits), Some(p)) => Some(SockAddr { ip: IpAddress::V4 { bits }, port: p }),
                _ => None,
            }
        } else {
            None
        }
    }
}


/// Rendering digits gives back the octet value.
proof fn lemma_octet_round(o: nat)
    requires
        o < 256,
    ensures
        spec_octet(dec_rep(o)) == Some(o),
{
    lemma_dec_rep_digits(o);
    crate::digits::lemma_dec_rep_val(o);
}

/// Rendering hex digits gives back the group value.
proof fn lemma_group_round(g: nat)
    requires
        g < 65536,
    ensures
        spec_group(hex_rep(g)) == Some(g),
{
    lemma_hex_rep_digits(g);
    crate::digits::lemma_hex_rep_val(g);
}

proof fn lemma_port_round(p: u16)
    ensures
        spec_port(dec_rep(p as nat)) == Some(p),
{
    lemma_dec_rep_digits(p as nat);
    crate::digits::lemma_dec_rep_val(p as nat);
}

/// Parsing the rendering of an address restores it exactly.
pub proof fn lemma_addr_round_trip(a: SockAddr)
    ensures
        spec_parse_addr(addr_text(a)) == Some(a),
{
    let pt = dec_rep(a.port as nat);
    lemma_dec_rep_digits(a.port as nat);
    lemma_port_round(a.port);
    let s = addr_text(a);
    match a.ip {
        IpAddress::V4 { bits } => {
            let ots = v4_octet_texts(bits);
            let body = v4_text(bits);
            lemma_v4_octet_texts_clean(bits, COLON);
            lemma_v4_octet_texts_clean(bits, DOT);
            lemma_v4_octet_texts_clean(bits, LBRACK);
            lemma_join_clean(ots, DOT, COLON);
            lemma_join_clean(ots, DOT, LBRACK);
            assert(s == body + seq![COLON] + pt);
            // the first byte is a digit of the first octet, not a bracket
            assert(body == ots[0] + seq![DOT] + join_sep(ots.skip(1), DOT));
            assert(ots[0].len() >= 1);
            assert(body[0] == ots[0][0]);
            assert(s[0] == body[0]);
            assert(s[0] != LBRACK);
            assert(s.len() > 0);
            // the first colon separates the host from the port
            assert forall|j: int| 0 <= j < body.len() implies s[j] != COLON by {
                assert(s[j] == body[j]);
            }
            assert(s[body.len() as int] == COLON);
            crate::tokens::lemma_first_idx_at(s, COLON, body.len() as int);
            let i = first_idx(s, COLON);
            assert(i == body.len());
            assert(i < s.len());
            assert(s.take(i) =~= body);
            assert(s.skip(i + 1) =~= pt);
            // the host splits back into the four octet strings
            lemma_split_join(ots, DOT);
            assert(split_on(body, DOT) == ots);
            let vs = pos_of(bits as nat, 256, 4);
            lemma_pos_of_elems(bits as nat, 256, 4);
            assert forall|k: int| 0 <= k < ots.len() implies spec_octet(#[trigger] ots[k])
                == Some(vs[k]) by {
                assert(ots[k] == dec_rep(vs[k]));
                lemma_octet_round(vs[k]);
            }
            lemma_octet_vals_all(ots, vs);
            assert(pow_n(256, 4) == 0x1_0000_0000) by {
                reveal_with_fuel(pow_n, 5);
            }
            crate::digits::lemma_pos_of_val(bits as nat, 256, 4);
            assert(pos_val(vs, 256) == bits as nat);
            assert(spec_parse_v4(body) == Some(bits));
            assert(spec_parse_addr(s) == Some(a));
        },
        IpAddress::V6 { bits } => {
            let gts = v6_group_texts(bits);
            let inner = v6_inner_text(bits);
            lemma_v6_group_texts_clean(bits, RBRACK);
            lemma_v6_group_texts_clean(bits, COLON);
            lemma_join_clean(gts, COLON, RBRACK);
            assert(s == seq![LBRACK] + inner + seq![RBRACK, COLON] + pt);
            assert(s[0] == LBRACK);
            assert(s.len() > 0);
            // the first closing bracket ends the host part
            assert forall|j: int| 0 <= j < 1 + inner.len() implies s[j] != RBRACK by {
                if j == 0 {
                    assert(s[j] == LBRACK);
                } else {
                    assert(s[j] == inner[j - 1]);
                }
            }
            assert(s[1 + inner.len() as int] == RBRACK);
            crate::tokens::lemma_first_idx_at(s, RBRACK, 1 + inner.len() as int);
            let close = first_idx(s, RBRACK);
            assert(close == 1 + inner.len());
            assert(close < s.len());
            assert(s[close + 1] == COLON);
            assert(close + 1 < s.len());
            assert(s.subrange(1, close) =~= inner);
            assert(s.skip(close + 2) =~= pt);
            // the host splits back into the eight group strings
            lemma_split_join(gts, COLON);
            assert(split_on(inner, COLON) == gts);
            crate::tokens::lemma_first_empty(gts);
            if first_empty(gts) < gts.len() {
                assert(gts[first_empty(gts)].len() == 0);
            }
            assert(first_empty(gts) == gts.len());
            let vs = pos_of(bits as nat, 65536, 8);
            lemma_pos_of_elems(bits as nat, 65536, 8);
            assert forall|k: int| 0 <= k < gts.len() implies spec_group(#[trigger] gts[k])
                == Some(vs[k]) by {
                assert(gts[k] == hex_rep(vs[k]));
                lemma_group_round(vs[k]);
            }
            lemma_group_vals_all(gts, vs);
            assert(pow_n(65536, 8) == 0x1_0000_0000_0000_0000_0000_0000_0000_0000) by {
                reveal_with_fuel(pow_n, 9);
            }
            crate::digits::lemma_pos_of_val(bits as nat, 65536, 8);
            assert(pos_val(vs, 65536) == bits as nat);
            assert(spec_parse_v6(inner) == Some(bits));
            assert(spec_parse_addr(s) == Some(a));
        },
    }
}

} // verus!
