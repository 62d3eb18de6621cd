//! Two compact textual forms used beside the wire codec: a socket address
//! as a version tag and fixed-width hex, and a list of numbers joined by
//! commas. Both render and parse as exact inverses.

use vstd::prelude::*;
use crate::addr::{IpAddress, SockAddr, spec_port};
use crate::digits::{
    hex_rep_fixed, pow16, spec_parse_hex, parse_hex, dec_rep, u64_to_dec,
    lemma_hex_rep_fixed_digits, lemma_hex_rep_fixed_val, is_dec_digit, lemma_dec_rep_digits,
    lemma_dec_rep_val,
};
use crate::tokens::{
    split_on, split_bytes, join_sep, join_bytes, token_clean, tokens_clean, lemma_split_join,
};
use vstd::slice::slice_subrange;

verus! {

/// ASCII ','
pub const COMMA: u8 = 44;

/// ASCII '4'
pub const TAG_V4: u8 = 52;

/// ASCII '6'
pub const TAG_V6: u8 = 54;

/// A socket address rendered as a version tag and fixed-width hex: `4`,
/// eight hex digits of address and four of port, or `6` with thirty-two of
/// address.
#[derive(Debug, Clone, Copy, PartialEq, Eq, Structural)]
pub struct SocketAddrCustom(pub SockAddr);

/// The compact rendering of a socket address.
pub open spec fn custom_text(a: SockAddr) -> Seq<u8> {
    match a.ip {
        IpAddress::V4 { bits } => seq![TAG_V4] + hex_rep_fixed(bits as nat, 8) + hex_rep_fixed(
            a.port as nat,
            4,
        ),
        IpAddress::V6 { bits } => seq![TAG_V6] + hex_rep_fixed(bits as nat, 32) + hex_rep_fixed(
            a.port as nat,
            4,
        ),
    }
}

/// An address field in hex, of a value that fits the address width.
pub open spec fn spec_hex_u32(t: Seq<u8>) -> Option<u32> {
    match spec_parse_hex(t) {
        Some(v) => if v <= 0xFFFF_FFFF {
            Some(v as u32)
        } else {
            None
        },
        None => None,
    }
}

/// A port field in hex.
pub open spec fn spec_hex_u16(t: Seq<u8>) -> Option<u16> {
    match spec_parse_hex(t) {
        Some(v) => if v <= 0xFFFF {
            Some(v as u16)
        } else {
            None
        },
        None => None,
    }
}

/// The address denoted by a compact rendering, if any: the tag, then the
/// fixed-width hex address, then the port in hex.
pub open spec fn spec_custom_parse(s: Seq<u8>) -> Option<SockAddr> {
    if s.len() >= 9 && s[0] == TAG_V4 {
        match (spec_hex_u32(s.subrange(1, 9)), spec_hex_u16(s.skip(9))) {
            (Some(bits), Some(p)) => Some(SockAddr { ip: IpAddress::V4 { bits }, port: p }),
            _ => None,
        }
    } else if s.len() >= 33 && s[0] == TAG_V6 {
        match (spec_parse_hex(s.subrange(1, 33)), spec_hex_u16(s.skip(33))) {
            (Some(bits), Some(p)) => Some(SockAddr { ip: IpAddress::V6 { bits: bits as u128 }, port: p }),
            _ => None,
        }
    } else {
        None
    }
}

/// Renders a number as exactly `k` lowercase hex digits.
fn to_hex_fixed(n: u128, k: usize) -> (r: Vec<u8>)
    ensures
        r@ == hex_rep_fixed(n as nat, k as nat),
    decreases k,
{
    if k == 0 {
        let r: Vec<u8> = Vec::new();
        proof {
            assert(r@ =~= hex_rep_fixed(n as nat, 0));
        }
        r
    } else {
        let mut r = to_hex_fixed(n / 16, k - 1);
        let d = (n % 16) as u8;
        let c = if d < 10 {
            d + 48
        } else {
            d + 87
        };
        r.push(c);
        proof {
            let b = n as nat;
            assert((n / 16) as nat == b / 16);
            assert((n % 16) as nat == b % 16);
            assert(r@ =~= hex_rep_fixed(b, k as nat));
        }
        r
    }
}

impl SocketAddrCustom {
    /// Renders the address in its compact form.
    pub fn to_text(&self) -> (r: Vec<u8>)
        ensures
            r@ == custom_text(self.0),
    {
        let mut out: Vec<u8> = Vec::new();
        match self.0.ip {
            IpAddress::V4 { bits } => {
                out.push(TAG_V4);
                let mut ipd = to_hex_fixed(bits as u128, 8);
                out.append(&mut ipd);
            },
            IpAddress::V6 { bits } => {
                out.push(TAG_V6);
                let mut ipd = to_hex_fixed(bits, 32);
                out.append(&mut ipd);
            },
        }
        let mut pd = to_hex_fixed(self.0.port as u128, 4);
        out.append(&mut pd);
        proof {
            assert(out@ =~= custom_text(self.0));
        }
        out
    }

    /// Parses a compact rendering.
    pub fn from_text(s: &[u8]) -> (r: Option<SocketAddrCustom>)
        ensures
            match r {
                Some(c) => spec_custom_parse(s@) == Some(c.0),
                None => spec_custom_parse(s@) is None,
            },
    {
        let n = s.len();
        if n >= 9 && s[0] == TAG_V4 {
            let ipt = slice_subrange(s, 1, 9);
            let pt = slice_subrange(s, 9, n);
            proof {
                assert(ipt@ =~= s@.subrange(1, 9));
                assert(pt@ =~= s@.skip(9));
            }
            let bits = match parse_hex(ipt) {
                Some(v) => if v <= 0xFFFF_FFFF {
                    v as u32
                } else {
                    return None;
                },
                None => {
                    return None;
                },
            };
            let p = match parse_hex(pt) {
                Some(v) => if v <= 0xFFFF {
                    v as u16
                } else {
                    return None;
                },
                None => {
                    return None;
                },
            };
            Some(SocketAddrCustom(SockAddr { ip: IpAddress::V4 { bits }, port: p }))
        } else if n >= 33 && s[0] == TAG_V6 {
            let ipt = slice_subrange(s, 1, 33);
            let pt = slice_subrange(s, 33, n);
            proof {
                assert(ipt@ =~= s@.subrange(1, 33));
                assert(pt@ =~= s@.skip(33));
            }
            let bits = match parse_hex(ipt) {
                Some(v) => v,
                None => {
                    return None;
                },
            };
            let p = match parse_hex(pt) {
                Some(v) => if v <= 0xFFFF {
                    v as u16
                } else {
                    return None;
                },
                None => {
                    return None;
                },
            };
            Some(SocketAddrCustom(SockAddr { ip: IpAddress::V6 { bits }, port: p }))
        } else {
            None
        }
    }
}

/// Parsing the compact rendering of an address restores it exactly.
pub proof fn lemma_custom_round_trip(a: SockAddr)
    ensures
        spec_custom_parse(custom_text(a)) == Some(a),
{
    let s = custom_text(a);
    let pt = hex_rep_fixed(a.port as nat, 4);
    lemma_hex_rep_fixed_digits(a.port as nat, 4);
    assert(pow16(4) == 0x1_0000) by {
        reveal_with_fuel(pow16, 5);
    }
    lemma_hex_rep_fixed_val(a.port as nat, 4);
    match a.ip {
        IpAddress::V4 { bits } => {
            let ipt = hex_rep_fixed(bits as nat, 8);
            lemma_hex_rep_fixed_digits(bits as nat, 8);
            assert(pow16(8) == 0x1_0000_0000) by {
                reveal_with_fuel(pow16, 9);
            }
            lemma_hex_rep_fixed_val(bits as nat, 8);
            assert(s.len() == 13);
            assert(s[0] == TAG_V4);
            assert(TAG_V4 != TAG_V6);
            assert(s.subrange(1, 9) =~= ipt);
            assert(s.skip(9) =~= pt);
        },
        IpAddress::V6 { bits } => {
            let ipt = hex_rep_fixed(bits as nat, 32);
            lemma_hex_rep_fixed_digits(bits as nat, 32);
            assert(pow16(32) == 0x1_0000_0000_0000_0000_0000_0000_0000_0000) by {
                reveal_with_fuel(pow16, 33);
            }
            lemma_hex_rep_fixed_val(bits as nat, 32);
            assert(s.len() == 37);
            assert(s[0] == TAG_V6);
            assert(s.len() < 9 || s[0] != TAG_V4);
            assert(s.subrange(1, 33) =~= ipt);
            assert(s.skip(33) =~= pt);
        },
    }
}

/// A list of numbers joined by commas; an empty list renders as nothing.
#[derive(Debug, Clone, PartialEq, Eq)]
pub struct VecCustom(pub Vec<u16>);

/// The rendering of a number list.
pub open spec fn vec_text(s: Seq<u16>) -> Seq<u8> {
    join_sep(s.map_values(|v: u16| dec_rep(v as nat)), COMMA)
}

/// The decimal values of the comma tokens, or nothing if any is malformed.
pub open spec fn comma_vals(ts: Seq<Seq<u8>>) -> Option<Seq<u16>>
    decreases ts.len(),
{
    if ts.len() == 0 {
        Some(Seq::empty())
    } else {
        match (comma_vals(ts.drop_last()), spec_port(ts.last())) {
            (Some(vs), Some(v)) => Some(vs.push(v)),
            _ => None,
        }
    }
}

/// The number list denoted by a rendering, if any.
pub open spec fn spec_vec_parse(t: Seq<u8>) -> Option<Seq<u16>> {
    if t.len() == 0 {
        Some(Seq::empty())
    } else {
        comma_vals(split_on(t, COMMA))
    }
}

impl VecCustom {
    /// Renders the list, comma separated.
    pub fn to_text(&self) -> (r: Vec<u8>)
        ensures
            r@ == vec_text(self.0@),
    {
        let n = self.0.len();
        if n == 0 {
            let r: Vec<u8> = Vec::new();
            proof {
                assert(self.0@.map_values(|v: u16| dec_rep(v as nat)) =~= Seq::<Seq<u8>>::empty());
                assert(r@ =~= vec_text(self.0@));
            }
            return r;
        }
        let mut toks: Vec<Vec<u8>> = Vec::new();
        let mut i: usize = 0;
        while i < n
            invariant
                0 <= i <= n,
                n == self.0@.len(),
                toks@.map_values(|t: Vec<u8>| t@) == self.0@.take(i as int).map_values(
                    |v: u16| dec_rep(v as nat),
                ),
            decreases n - i,
        {
            let ghost t0 = toks@;
            let d = u64_to_dec(self.0[i] as u64);
            toks.push(d);
            proof {
                assert(toks@ == t0.push(d));
                assert(t0.map_values(|t: Vec<u8>| t@).len() == i);
                assert(t0.len() == i);
                assert forall|j: int|
                    0 <= j < toks@.len() implies #[trigger] toks@[j]@ == self.0@.take(
                    i + 1,
                ).map_values(|v: u16| dec_rep(v as nat))[j] by {
                    if j < t0.len() {
                        assert(toks@[j] == t0[j]);
                        assert(t0.map_values(|t: Vec<u8>| t@)[j] == t0[j]@);
                        assert(self.0@.take(i as int).map_values(|v: u16| dec_rep(v as nat))[j]
                            == dec_rep(self.0@.take(i as int)[j] as nat));
                        assert(self.0@.take(i + 1)[j] == self.0@.take(i as int)[j]);
                    } else {
                        assert(toks@[j] == d);
                        assert(self.0@.take(i + 1)[j] == self.0@[i as int]);
                    }
                }
                assert(toks@.map_values(|t: Vec<u8>| t@) =~= self.0@.take(i + 1).map_values(
                    |v: u16| dec_rep(v as nat),
                ));
            }
            i = i + 1;
        }
        proof {
            assert(self.0@.take(n as int) =~= self.0@);
        }
        let r = join_bytes(&toks, COMMA);
        r
    }

    /// Parses a comma-separated rendering.
    pub fn from_text(t: &[u8]) -> (r: Option<VecCustom>)
        ensures
            match r {
                Some(v) => spec_vec_parse(t@) == Some(v.0@),
                None => spec_vec_parse(t@) is None,
            },
    {
        if t.len() == 0 {
            let v: Vec<u16> = Vec::new();
            proof {
                assert(v@ =~= Seq::<u16>::empty());
            }
            return Some(VecCustom(v));
        }
        let toks = split_bytes(t, COMMA);
        let ghost m = toks@.map_values(|x: Vec<u8>| x@);
        let n = toks.len();
        let mut out: Vec<u16> = Vec::new();
        let mut i: usize = 0;
        while i < n
            invariant
                0 <= i <= n,
                n == toks@.len(),
                m == toks@.map_values(|x: Vec<u8>| x@),
                m == split_on(t@, COMMA),
                t@.len() != 0,
                out@.len() == i,
                comma_vals(m.take(i as int)) == Some(out@),
            decreases n - i,
        {
            let ghost o0 = out@;
            match crate::addr::parse_port(toks[i].as_slice()) {
                Some(v) => {
                    out.push(v);
                    proof {
                        let cur = m.take(i + 1);
                        assert(cur.drop_last() =~= m.take(i as int));
                        assert(cur.last() == m[i as int]);
                        assert(m[i as int] == toks@[i as int]@);
                        assert(comma_vals(cur) == Some(o0.push(v)));
                    }
                },
                None => {
                    proof {
                        assert(m[i as int] == toks@[i as int]@);
                        lemma_comma_vals_none(m, i as int);
                    }
                    return None;
                },
            }
            i = i + 1;
        }
        proof {
            assert(m.take(n as int) =~= m);
        }
        Some(VecCustom(out))
    }
}

/// A malformed token anywhere invalidates the whole list.
proof fn lemma_comma_vals_none(ts: Seq<Seq<u8>>, k: int)
    requires
        0 <= k < ts.len(),
        spec_port(ts[k]) is None,
    ensures
        comma_vals(ts) is None,
    decreases ts.len(),
{
    if k < ts.len() - 1 {
        assert(ts.drop_last()[k] == ts[k]);
        lemma_comma_vals_none(ts.drop_last(), k);
    }
}

/// The tokens of a well-formed rendering decode back to the values.
proof fn lemma_comma_vals_all(vs: Seq<u16>)
    ensures
        comma_vals(vs.map_values(|v: u16| dec_rep(v as nat))) == Some(vs),
    decreases vs.len(),
{
    let ts = vs.map_values(|v: u16| dec_rep(v as nat));
    if vs.len() > 0 {
        lemma_comma_vals_all(vs.drop_last());
        assert(ts.drop_last() =~= vs.drop_last().map_values(|v: u16| dec_rep(v as nat)));
        assert(ts.last() == dec_rep(vs.last() as nat));
        lemma_dec_rep_digits(vs.last() as nat);
        lemma_dec_rep_val(vs.last() as nat);
        assert(spec_port(ts.last()) == Some(vs.last()));
        assert(vs.drop_last().push(vs.last()) =~= vs);
    } else {
        assert(ts =~= Seq::<Seq<u8>>::empty());
    }
}

/// Parsing the rendering of a number list restores it exactly.
pub proof fn lemma_vec_round_trip(vs: Seq<u16>)
    ensures
        spec_vec_parse(vec_text(vs)) == Some(vs),
{
    let ts = vs.map_values(|v: u16| dec_rep(v as nat));
    if vs.len() == 0 {
        assert(ts =~= Seq::<Seq<u8>>::empty());
        assert(vec_text(vs).len() == 0);
        assert(spec_vec_parse(vec_text(vs)) == Some(Seq::<u16>::empty()));
        assert(Seq::<u16>::empty() =~= vs);
    } else {
        assert(tokens_clean(ts, COMMA)) by {
            assert forall|k: int| 0 <= k < ts.len() implies token_clean(#[trigger] ts[k], COMMA) by {
                assert(ts[k] == dec_rep(vs[k] as nat));
                lemma_dec_rep_digits(vs[k] as nat);
                assert(!is_dec_digit(COMMA));
                crate::addr::lemma_dec_digits_clean(dec_rep(vs[k] as nat), COMMA);
            }
        }
        lemma_split_join(ts, COMMA);
        assert(ts[0] == dec_rep(vs[0] as nat));
        lemma_dec_rep_digits(vs[0] as nat);
        assert(vec_text(vs).len() > 0) by {
            if ts.len() == 1 {
                assert(join_sep(ts, COMMA) == ts[0]);
            }
        }
        lemma_comma_vals_all(vs);
    }
}

} // verus!
