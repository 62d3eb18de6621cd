//! Decimal and hexadecimal digit strings: the numeric leaves of the wire
//! format. Values are related to byte sequences by the spec functions here,
//! and the executable renderers and parsers are proved to match them.

use vstd::prelude::*;

verus! {

pub open spec fn is_dec_digit(b: u8) -> bool {
    48 <= b <= 57
}

pub open spec fn dec_digit_val(b: u8) -> nat {
    (b - 48) as nat
}

pub open spec fn all_dec_digits(s: Seq<u8>) -> bool {
    forall|i: int| 0 <= i < s.len() ==> is_dec_digit(#[trigger] s[i])
}

/// Value of a decimal digit string, most significant digit first.
pub open spec fn dec_seq_val(s: Seq<u8>) -> nat
    decreases s.len(),
{
    if s.len() == 0 {
        0
    } else {
        dec_seq_val(s.drop_last()) * 10 + dec_digit_val(s.last())
    }
}

/// Canonical decimal rendering of a number: no leading zeros, never empty.
pub open spec fn dec_rep(n: nat) -> Seq<u8>
    decreases n,
{
    if n < 10 {
        seq![(n + 48) as u8]
    } else {
        dec_rep(n / 10).push((n % 10 + 48) as u8)
    }
}

pub proof fn lemma_dec_rep_digits(n: nat)
    ensures
        dec_rep(n).len() >= 1,
        all_dec_digits(dec_rep(n)),
    decreases n,
{
    if n >= 10 {
        lemma_dec_rep_digits(n / 10);
        assert forall|i: int| 0 <= i < dec_rep(n).len() implies is_dec_digit(
            #[trigger] dec_rep(n)[i],
        ) by {
            if i < dec_rep(n / 10).len() {
                assert(dec_rep(n)[i] == dec_rep(n / 10)[i]);
            }
        }
    }
}

pub proof fn lemma_dec_rep_val(n: nat)
    ensures
        dec_seq_val(dec_rep(n)) == n,
    decreases n,
{
    if n < 10 {
        let s = dec_rep(n);
        assert(s.drop_last() =~= Seq::<u8>::empty());
        assert(s.last() == (n + 48) as u8);
        assert(dec_digit_val((n + 48) as u8) == n);
        assert(dec_seq_val(s) == dec_seq_val(s.drop_last()) * 10 + dec_digit_val(s.last()));
    } else {
        lemma_dec_rep_val(n / 10);
        let s = dec_rep(n);
        assert(s.drop_last() =~= dec_rep(n / 10));
        assert(s.last() == (n % 10 + 48) as u8);
        assert(dec_digit_val((n % 10 + 48) as u8) == n % 10);
        assert(dec_seq_val(s) == dec_seq_val(s.drop_last()) * 10 + dec_digit_val(s.last()));
        assert(n / 10 * 10 + n % 10 == n);
    }
}

/// A decimal prefix never exceeds the value of the whole string.
pub proof fn lemma_dec_val_prefix(s: Seq<u8>, i: int)
    requires
        0 <= i <= s.len(),
    ensures
        dec_seq_val(s.take(i)) <= dec_seq_val(s),
    decreases s.len() - i,
{
    if i == s.len() {
        assert(s.take(i) =~= s);
    } else {
        lemma_dec_val_prefix(s, i + 1);
        assert(s.take(i + 1).drop_last() =~= s.take(i));
        assert(dec_seq_val(s.take(i + 1)) == dec_seq_val(s.take(i)) * 10 + dec_digit_val(
            s.take(i + 1).last(),
        ));
    }
}

pub open spec fn is_hex_digit(b: u8) -> bool {
    48 <= b <= 57 || 97 <= b <= 102 || 65 <= b <= 70
}

pub open spec fn hex_digit_val(b: u8) -> nat {
    if 48 <= b <= 57 {
        (b - 48) as nat
    } else if 97 <= b <= 102 {
        (b - 87) as nat
    } else {
        (b - 55) as nat
    }
}

/// Canonical lowercase character for a hex digit value below 16.
pub open spec fn hex_digit_rep(v: nat) -> u8 {
    if v < 10 {
        (v + 48) as u8
    } else {
        (v + 87) as u8
    }
}

pub open spec fn all_hex_digits(s: Seq<u8>) -> bool {
    forall|i: int| 0 <= i < s.len() ==> is_hex_digit(#[trigger] s[i])
}

/// Value of a hexadecimal digit string, most significant digit first.
pub open spec fn hex_seq_val(s: Seq<u8>) -> nat
    decreases s.len(),
{
    if s.len() == 0 {
        0
    } else {
        hex_seq_val(s.drop_last()) * 16 + hex_digit_val(s.last())
    }
}

/// Canonical lowercase hex rendering: no leading zeros, never empty.
pub open spec fn hex_rep(n: nat) -> Seq<u8>
    decreases n,
{
    if n < 16 {
        seq![hex_digit_rep(n)]
    } else {
        hex_rep(n / 16).push(hex_digit_rep(n % 16))
    }
}

pub proof fn lemma_hex_rep_digits(n: nat)
    ensures
        hex_rep(n).len() >= 1,
        all_hex_digits(hex_rep(n)),
    decreases n,
{
    if n >= 16 {
        lemma_hex_rep_digits(n / 16);
        assert forall|i: int| 0 <= i < hex_rep(n).len() implies is_hex_digit(
            #[trigger] hex_rep(n)[i],
        ) by {
            if i < hex_rep(n / 16).len() {
                assert(hex_rep(n)[i] == hex_rep(n / 16)[i]);
            }
        }
    }
}

pub proof fn lemma_hex_rep_val(n: nat)
    ensures
        hex_seq_val(hex_rep(n)) == n,
    decreases n,
{
    if n < 16 {
        let s = hex_rep(n);
        assert(s.drop_last() =~= Seq::<u8>::empty());
        assert(s.last() == hex_digit_rep(n));
        assert(hex_digit_val(hex_digit_rep(n)) == n);
        assert(hex_seq_val(s) == hex_seq_val(s.drop_last()) * 16 + hex_digit_val(s.last()));
    } else {
        lemma_hex_rep_val(n / 16);
        let s = hex_rep(n);
        assert(s.drop_last() =~= hex_rep(n / 16));
        assert(s.last() == hex_digit_rep(n % 16));
        assert(hex_digit_val(hex_digit_rep(n % 16)) == n % 16);
        assert(hex_seq_val(s) == hex_seq_val(s.drop_last()) * 16 + hex_digit_val(s.last()));
        assert(n / 16 * 16 + n % 16 == n);
    }
}

pub proof fn lemma_hex_val_prefix(s: Seq<u8>, i: int)
    requires
        0 <= i <= s.len(),
    ensures
        hex_seq_val(s.take(i)) <= hex_seq_val(s),
    decreases s.len() - i,
{
    if i == s.len() {
        assert(s.take(i) =~= s);
    } else {
        lemma_hex_val_prefix(s, i + 1);
        assert(s.take(i + 1).drop_last() =~= s.take(i));
        assert(hex_seq_val(s.take(i + 1)) == hex_seq_val(s.take(i)) * 16 + hex_digit_val(
            s.take(i + 1).last(),
        ));
    }
}

/// Fixed-width lowercase hex rendering: exactly `k` digits, zero padded.
pub open spec fn hex_rep_fixed(n: nat, k: nat) -> Seq<u8>
    decreases k,
{
    if k == 0 {
        Seq::empty()
    } else {
        hex_rep_fixed(n / 16, (k - 1) as nat).push(hex_digit_rep(n % 16))
    }
}

pub open spec fn pow16(k: nat) -> nat
    decreases k,
{
    if k == 0 {
        1
    } else {
        16 * pow16((k - 1) as nat)
    }
}

pub proof fn lemma_hex_rep_fixed_digits(n: nat, k: nat)
    ensures
        hex_rep_fixed(n, k).len() == k,
        all_hex_digits(hex_rep_fixed(n, k)),
    decreases k,
{
    if k > 0 {
        lemma_hex_rep_fixed_digits(n / 16, (k - 1) as nat);
        assert forall|i: int| 0 <= i < hex_rep_fixed(n, k).len() implies is_hex_digit(
            #[trigger] hex_rep_fixed(n, k)[i],
        ) by {
            if i < hex_rep_fixed(n / 16, (k - 1) as nat).len() {
                assert(hex_rep_fixed(n, k)[i] == hex_rep_fixed(n / 16, (k - 1) as nat)[i]);
            }
        }
    }
}

pub proof fn lemma_hex_rep_fixed_val(n: nat, k: nat)
    requires
        n < pow16(k),
    ensures
        hex_seq_val(hex_rep_fixed(n, k)) == n,
    decreases k,
{
    if k == 0 {
        assert(n == 0);
    } else {
        assert(n / 16 < pow16((k - 1) as nat)) by {
            let p = pow16((k - 1) as nat);
            assert(n < 16 * p);
            assert(n / 16 < p) by (nonlinear_arith)
                requires
                    n < 16 * p,
            ;
        }
        lemma_hex_rep_fixed_val(n / 16, (k - 1) as nat);
        assert(hex_rep_fixed(n, k).drop_last() =~= hex_rep_fixed(n / 16, (k - 1) as nat));
        assert(n == (n / 16) * 16 + n % 16);
    }
}

pub open spec fn pow_n(base: nat, k: nat) -> nat
    decreases k,
{
    if k == 0 {
        1
    } else {
        base * pow_n(base, (k - 1) as nat)
    }
}

pub proof fn lemma_pow_n_le(base: nat, j: nat, k: nat)
    requires
        base >= 1,
        j <= k,
    ensures
        pow_n(base, j) <= pow_n(base, k),
    decreases k,
{
    if j < k {
        lemma_pow_n_le(base, j, (k - 1) as nat);
        let p = pow_n(base, (k - 1) as nat);
        assert(base * p >= 1 * p) by (nonlinear_arith)
            requires
                base >= 1,
                p >= 0,
        ;
    }
}

/// Value of a positional digit sequence, most significant first.
pub open spec fn pos_val(ds: Seq<nat>, base: nat) -> nat
    decreases ds.len(),
{
    if ds.len() == 0 {
        0
    } else {
        pos_val(ds.drop_last(), base) * base + ds.last()
    }
}

/// The `k` base-`base` digits of `b`, most significant first.
pub open spec fn pos_of(b: nat, base: nat, k: nat) -> Seq<nat>
    decreases k,
{
    if k == 0 {
        Seq::empty()
    } else {
        pos_of(b / base, base, (k - 1) as nat).push(b % base)
    }
}

pub proof fn lemma_pos_of_elems(b: nat, base: nat, k: nat)
    requires
        base >= 2,
    ensures
        pos_of(b, base, k).len() == k,
        forall|i: int| 0 <= i < k ==> pos_of(b, base, k)[i] < base,
    decreases k,
{
    if k > 0 {
        lemma_pos_of_elems(b / base, base, (k - 1) as nat);
        let s = pos_of(b, base, k);
        assert forall|i: int| 0 <= i < k implies s[i] < base by {
            if i < k - 1 {
                assert(s[i] == pos_of(b / base, base, (k - 1) as nat)[i]);
            } else {
                assert(s[i] == b % base);
            }
        }
    }
}

pub proof fn lemma_pos_of_val(b: nat, base: nat, k: nat)
    requires
        base >= 2,
        b < pow_n(base, k),
    ensures
        pos_val(pos_of(b, base, k), base) == b,
    decreases k,
{
    if k == 0 {
        assert(b == 0);
    } else {
        let p = pow_n(base, (k - 1) as nat);
        lemma_pow_n_le(base, 0, (k - 1) as nat);
        assert(b / base < p) by (nonlinear_arith)
            requires
                base >= 2,
                p >= 1,
                b < base * p,
        ;
        lemma_pos_of_val(b / base, base, (k - 1) as nat);
        let s = pos_of(b, base, k);
        assert(s.drop_last() =~= pos_of(b / base, base, (k - 1) as nat));
        assert(s.last() == b % base);
        assert(pos_val(s, base) == (b / base) * base + b % base);
        assert(b / base * base + b % base == b) by (nonlinear_arith)
            requires
                base >= 2,
        ;
    }
}

/// Renders a number in canonical decimal.
pub fn u64_to_dec(n: u64) -> (r: Vec<u8>)
    ensures
        r@ == dec_rep(n as nat),
    decreases n,
{
    if n < 10 {
        let mut v: Vec<u8> = Vec::new();
        v.push((n as u8) + 48);
        proof {
            assert(v@ =~= dec_rep(n as nat));
        }
        v
    } else {
        let mut v = u64_to_dec(n / 10);
        v.push(((n % 10) as u8) + 48);
        proof {
            assert(v@ =~= dec_rep(n as nat));
        }
        v
    }
}

/// Renders a number in canonical lowercase hex.
pub fn u64_to_hex(n: u64) -> (r: Vec<u8>)
    ensures
        r@ == hex_rep(n as nat),
    decreases n,
{
    let d = (n % 16) as u8;
    let c = if d < 10 {
        d + 48
    } else {
        d + 87
    };
    if n < 16 {
        let mut v: Vec<u8> = Vec::new();
        v.push(c);
        proof {
            assert(v@ =~= hex_rep(n as nat));
        }
        v
    } else {
        let mut v = u64_to_hex(n / 16);
        v.push(c);
        proof {
            assert(v@ =~= hex_rep(n as nat));
        }
        v
    }
}

/// Whether a decimal digit string denotes a value, and which: nonempty, all
/// digits, value at most `u64::MAX`.
pub open spec fn spec_parse_dec(s: Seq<u8>) -> Option<u64> {
    if s.len() >= 1 && all_dec_digits(s) && dec_seq_val(s) <= u64::MAX {
        Some(dec_seq_val(s) as u64)
    } else {
        None
    }
}

/// Parses a decimal digit string.
pub fn parse_dec(s: &[u8]) -> (r: Option<u64>)
    ensures
        r == spec_parse_dec(s@),
{
    let n = s.len();
    if n == 0 {
        return None;
    }
    let mut acc: u128 = 0;
    let mut i: usize = 0;
    while i < n
        invariant
            0 <= i <= n,
            n == s@.len(),
            all_dec_digits(s@.take(i as int)),
            acc == dec_seq_val(s@.take(i as int)),
            acc <= u64::MAX,
        decreases n - i,
    {
        let b = s[i];
        if !(48 <= b && b <= 57) {
            assert(!is_dec_digit(s@[i as int]));
            return None;
        }
        let d = (b - 48) as u128;
        let next: u128 = acc * 10 + d;
        proof {
            assert(s@.take(i + 1).drop_last() =~= s@.take(i as int));
            assert(s@.take(i + 1).last() == s@[i as int]);
            assert(dec_seq_val(s@.take(i + 1)) == acc * 10 + d);
        }
        if next > u64::MAX as u128 {
            proof {
                lemma_dec_val_prefix(s@, i + 1);
            }
            return None;
        }
        acc = next;
        i = i + 1;
    }
    proof {
        assert(s@.take(n as int) =~= s@);
    }
    Some(acc as u64)
}

/// Whether a hex digit string denotes a value, and which: nonempty, all hex
/// digits of either case, value at most `u128::MAX`.
pub open spec fn spec_parse_hex(s: Seq<u8>) -> Option<u128> {
    if s.len() >= 1 && all_hex_digits(s) && hex_seq_val(s) <= u128::MAX {
        Some(hex_seq_val(s) as u128)
    } else {
        None
    }
}

/// Parses a hex digit string, either case accepted.
pub fn parse_hex(s: &[u8]) -> (r: Option<u128>)
    ensures
        r == spec_parse_hex(s@),
{
    let n = s.len();
    if n == 0 {
        return None;
    }
    let mut acc: u128 = 0;
    let mut i: usize = 0;
    while i < n
        invariant
            0 <= i <= n,
            n == s@.len(),
            all_hex_digits(s@.take(i as int)),
            acc == hex_seq_val(s@.take(i as int)),
        decreases n - i,
    {
        let b = s[i];
        let d: u128 = if 48 <= b && b <= 57 {
            (b - 48) as u128
        } else if 97 <= b && b <= 102 {
            (b - 87) as u128
        } else if 65 <= b && b <= 70 {
            (b - 55) as u128
        } else {
            assert(!is_hex_digit(s@[i as int]));
            return None;
        };
        proof {
            assert(s@.take(i + 1).drop_last() =~= s@.take(i as int));
            assert(s@.take(i + 1).last() == s@[i as int]);
            assert(hex_seq_val(s@.take(i + 1)) == acc * 16 + d);
        }
        if acc > (u128::MAX - 15) / 16 {
            proof {
                lemma_hex_val_prefix(s@, i + 1);
            }
            return None;
        }
        acc = acc * 16 + d;
        i = i + 1;
    }
    proof {
        assert(s@.take(n as int) =~= s@);
    }
    Some(acc)
}

} // verus!
