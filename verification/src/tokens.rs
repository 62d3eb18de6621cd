//! Splitting byte strings on a separator and joining them back: the
//! tokenizer under the wire codec. `split_on` and `join_sep` are exact
//! inverses as long as no token contains the separator.

use vstd::prelude::*;

verus! {

/// Index of the first occurrence of `c` in `s`, or `s.len()` if absent.
pub open spec fn first_idx(s: Seq<u8>, c: u8) -> int
    decreases s.len(),
{
    if s.len() == 0 {
        0
    } else if s[0] == c {
        0
    } else {
        1 + first_idx(s.skip(1), c)
    }
}

pub proof fn lemma_first_idx(s: Seq<u8>, c: u8)
    ensures
        0 <= first_idx(s, c) <= s.len(),
        first_idx(s, c) < s.len() ==> s[first_idx(s, c)] == c,
        forall|j: int| 0 <= j < first_idx(s, c) ==> s[j] != c,
    decreases s.len(),
{
    if s.len() != 0 && s[0] != c {
        lemma_first_idx(s.skip(1), c);
        assert forall|j: int| 0 <= j < first_idx(s, c) implies s[j] != c by {
            if j > 0 {
                assert(s.skip(1)[j - 1] != c);
            }
        }
    }
}

/// The first occurrence is no later than any occurrence.
pub proof fn lemma_first_idx_le(s: Seq<u8>, c: u8, k: int)
    requires
        0 <= k < s.len(),
        s[k] == c,
    ensures
        first_idx(s, c) <= k,
{
    lemma_first_idx(s, c);
    if first_idx(s, c) > k {
        assert(s[k] != c);
    }
}

/// Pins the first occurrence down: nothing before `k` matches and `k` does.
pub proof fn lemma_first_idx_at(s: Seq<u8>, c: u8, k: int)
    requires
        0 <= k <= s.len(),
        k < s.len() ==> s[k] == c,
        k == s.len() || s[k] == c,
        forall|j: int| 0 <= j < k ==> s[j] != c,
    ensures
        first_idx(s, c) == k,
{
    lemma_first_idx(s, c);
    if k < s.len() {
        lemma_first_idx_le(s, c, k);
        if first_idx(s, c) < k {
            assert(s[first_idx(s, c)] != c);
        }
    } else {
        if first_idx(s, c) < s.len() {
            assert(s[first_idx(s, c)] == c);
        }
    }
}

/// Tokens of `s` between occurrences of `c`; always at least one token.
pub open spec fn split_on(s: Seq<u8>, c: u8) -> Seq<Seq<u8>>
    decreases s.len(),
{
    let i = first_idx(s, c);
    if 0 <= i < s.len() {
        seq![s.take(i)] + split_on(s.skip(i + 1), c)
    } else {
        seq![s]
    }
}

pub proof fn lemma_split_on_len(s: Seq<u8>, c: u8)
    ensures
        split_on(s, c).len() >= 1,
    decreases s.len(),
{
    lemma_first_idx(s, c);
    let i = first_idx(s, c);
    if i != s.len() {
        lemma_split_on_len(s.skip(i + 1), c);
    }
}

/// Concatenation of tokens with `c` between each pair.
pub open spec fn join_sep(ts: Seq<Seq<u8>>, c: u8) -> Seq<u8>
    decreases ts.len(),
{
    if ts.len() == 0 {
        Seq::empty()
    } else if ts.len() == 1 {
        ts[0]
    } else {
        ts[0] + seq![c] + join_sep(ts.skip(1), c)
    }
}

pub open spec fn token_clean(t: Seq<u8>, c: u8) -> bool {
    forall|j: int| 0 <= j < t.len() ==> t[j] != c
}

pub open spec fn tokens_clean(ts: Seq<Seq<u8>>, c: u8) -> bool {
    forall|k: int| 0 <= k < ts.len() ==> token_clean(#[trigger] ts[k], c)
}

/// Splitting a join restores the tokens, provided none contains the
/// separator.
pub proof fn lemma_split_join(ts: Seq<Seq<u8>>, c: u8)
    requires
        ts.len() >= 1,
        tokens_clean(ts, c),
    ensures
        split_on(join_sep(ts, c), c) == ts,
    decreases ts.len(),
{
    let s = join_sep(ts, c);
    lemma_first_idx(s, c);
    if ts.len() == 1 {
        assert(token_clean(ts[0], c));
        if first_idx(s, c) < s.len() {
            assert(s[first_idx(s, c)] == c);
        }
        assert(first_idx(s, c) == s.len());
        assert(split_on(s, c) =~= seq![ts[0]]);
        assert(split_on(s, c) =~= ts);
    } else {
        let t0 = ts[0];
        let rest = ts.skip(1);
        let jr = join_sep(rest, c);
        assert(s == t0 + seq![c] + jr);
        assert(s[t0.len() as int] == c);
        lemma_first_idx_le(s, c, t0.len() as int);
        assert(token_clean(t0, c));
        assert forall|j: int| 0 <= j < t0.len() implies s[j] != c by {
            assert(s[j] == t0[j]);
        }
        assert(first_idx(s, c) == t0.len());
        let i = first_idx(s, c);
        assert(i < s.len());
        assert(s.take(i) =~= t0);
        assert(s.skip(i + 1) =~= jr);
        assert(tokens_clean(rest, c)) by {
            assert forall|k: int| 0 <= k < rest.len() implies token_clean(
                #[trigger] rest[k],
                c,
            ) by {
                assert(rest[k] == ts[k + 1]);
            }
        }
        lemma_split_join(rest, c);
        assert(split_on(s, c) =~= seq![t0] + rest);
        assert(seq![t0] + rest =~= ts);
    }
}

pub proof fn lemma_join_two(t0: Seq<u8>, t1: Seq<u8>, c: u8)
    ensures
        join_sep(seq![t0, t1], c) == t0 + seq![c] + t1,
{
    let ts = seq![t0, t1];
    assert(ts.skip(1) =~= seq![t1]);
    assert(join_sep(ts, c) == ts[0] + seq![c] + join_sep(ts.skip(1), c));
    assert(join_sep(seq![t1], c) == t1);
}

pub proof fn lemma_join_three(t0: Seq<u8>, t1: Seq<u8>, t2: Seq<u8>, c: u8)
    ensures
        join_sep(seq![t0, t1, t2], c) == t0 + seq![c] + t1 + seq![c] + t2,
{
    let ts = seq![t0, t1, t2];
    assert(ts.skip(1) =~= seq![t1, t2]);
    lemma_join_two(t1, t2, c);
    assert(t0 + seq![c] + (t1 + seq![c] + t2) =~= t0 + seq![c] + t1 + seq![c] + t2);
}

/// A string clean of the separator is a single token.
pub proof fn lemma_split_clean(t: Seq<u8>, c: u8)
    requires
        token_clean(t, c),
    ensures
        split_on(t, c) == seq![t],
{
    lemma_first_idx(t, c);
    if first_idx(t, c) < t.len() {
        assert(t[first_idx(t, c)] == c);
    }
}

/// Splitting distributes over a separator placed between two strings.
pub proof fn lemma_split_concat(a: Seq<u8>, b: Seq<u8>, c: u8)
    ensures
        split_on(a + seq![c] + b, c) == split_on(a, c) + split_on(b, c),
    decreases a.len(),
{
    let s = a + seq![c] + b;
    lemma_first_idx(a, c);
    let i = first_idx(a, c);
    if i == a.len() {
        assert forall|j: int| 0 <= j < a.len() implies s[j] != c by {
            assert(s[j] == a[j]);
        }
        assert(s[a.len() as int] == c);
        lemma_first_idx_at(s, c, a.len() as int);
        assert(s.take(a.len() as int) =~= a);
        assert(s.skip(a.len() + 1 as int) =~= b);
        assert(split_on(s, c) == seq![a] + split_on(b, c));
        assert(split_on(a, c) == seq![a]);
    } else {
        assert forall|j: int| 0 <= j < i implies s[j] != c by {
            assert(s[j] == a[j]);
        }
        assert(s[i] == a[i]);
        lemma_first_idx_at(s, c, i);
        assert(s.take(i) =~= a.take(i));
        assert(s.skip(i + 1) =~= a.skip(i + 1) + seq![c] + b);
        lemma_split_concat(a.skip(i + 1), b, c);
        assert(split_on(s, c) == seq![a.take(i)] + (split_on(a.skip(i + 1), c) + split_on(b, c)));
        assert(seq![a.take(i)] + (split_on(a.skip(i + 1), c) + split_on(b, c)) =~= (seq![a.take(i)]
            + split_on(a.skip(i + 1), c)) + split_on(b, c));
    }
}

/// Appending one token extends a join by a separator and the token.
pub proof fn lemma_join_snoc(ts: Seq<Seq<u8>>, t: Seq<u8>, c: u8)
    ensures
        ts.len() == 0 ==> join_sep(ts.push(t), c) == t,
        ts.len() >= 1 ==> join_sep(ts.push(t), c) == join_sep(ts, c) + seq![c] + t,
    decreases ts.len(),
{
    if ts.len() == 0 {
        assert(join_sep(ts.push(t), c) == ts.push(t)[0]);
    } else if ts.len() == 1 {
        assert(ts.push(t).skip(1) =~= seq![t]);
        assert(join_sep(seq![t], c) == t);
        assert(join_sep(ts.push(t), c) == ts[0] + seq![c] + t);
        assert(join_sep(ts, c) == ts[0]);
    } else {
        assert(ts.push(t).skip(1) =~= ts.skip(1).push(t));
        lemma_join_snoc(ts.skip(1), t, c);
        assert(join_sep(ts.push(t), c) == ts[0] + seq![c] + (join_sep(ts.skip(1), c) + seq![c]
            + t));
        assert(ts[0] + seq![c] + (join_sep(ts.skip(1), c) + seq![c] + t) =~= (ts[0] + seq![c]
            + join_sep(ts.skip(1), c)) + seq![c] + t);
    }
}

/// A join of tokens clean of `d` (with a separator other than `d`) is clean
/// of `d`.
pub proof fn lemma_join_clean(ts: Seq<Seq<u8>>, c: u8, d: u8)
    requires
        c != d,
        tokens_clean(ts, d),
    ensures
        token_clean(join_sep(ts, c), d),
    decreases ts.len(),
{
    if ts.len() > 1 {
        assert(tokens_clean(ts.skip(1), d)) by {
            assert forall|k: int| 0 <= k < ts.skip(1).len() implies token_clean(
                #[trigger] ts.skip(1)[k],
                d,
            ) by {
                assert(ts.skip(1)[k] == ts[k + 1]);
            }
        }
        lemma_join_clean(ts.skip(1), c, d);
        assert(token_clean(ts[0], d));
        let s = ts[0] + seq![c] + join_sep(ts.skip(1), c);
        assert forall|j: int| 0 <= j < s.len() implies s[j] != d by {
            if j < ts[0].len() {
                assert(s[j] == ts[0][j]);
            } else if j > ts[0].len() {
                assert(s[j] == join_sep(ts.skip(1), c)[j - ts[0].len() - 1]);
            }
        }
    } else if ts.len() == 1 {
        assert(token_clean(ts[0], d));
    }
}

/// Joins byte tokens with a separator between each pair.
pub fn join_bytes(ts: &Vec<Vec<u8>>, c: u8) -> (r: Vec<u8>)
    requires
        ts@.len() >= 1,
    ensures
        r@ == join_sep(ts@.map_values(|t: Vec<u8>| t@), c),
{
    let ghost m = ts@.map_values(|t: Vec<u8>| t@);
    let mut out: Vec<u8> = Vec::new();
    let n = ts.len();
    let mut i: usize = 0;
    while i < n
        invariant
            0 <= i <= n,
            n == ts@.len(),
            m == ts@.map_values(|t: Vec<u8>| t@),
            i == 0 ==> out@.len() == 0,
            i >= 1 ==> out@ == join_sep(m.take(i as int), c),
        decreases n - i,
    {
        if i > 0 {
            out.push(c);
        }
        let ghost mid = out@;
        let token = &ts[i];
        let tn = token.len();
        let mut j: usize = 0;
        while j < tn
            invariant
                0 <= j <= tn,
                tn == token@.len(),
                out@ == mid + token@.take(j as int),
            decreases tn - j,
        {
            out.push(token[j]);
            proof {
                assert(mid + token@.take(j + 1) =~= (mid + token@.take(j as int)).push(
                    token@[j as int],
                ));
            }
            j = j + 1;
        }
        proof {
            assert(token@.take(tn as int) =~= token@);
            assert(m[i as int] == token@);
            lemma_join_snoc(m.take(i as int), m[i as int], c);
            assert(m.take(i + 1) =~= m.take(i as int).push(m[i as int]));
            if i == 0 {
                assert(m.take(0) =~= Seq::<Seq<u8>>::empty());
                assert(mid =~= Seq::<u8>::empty());
                assert(mid + token@ =~= token@);
            } else {
                assert(mid =~= join_sep(m.take(i as int), c) + seq![c]);
                assert(mid + token@ =~= join_sep(m.take(i as int), c) + seq![c] + token@);
            }
        }
        i = i + 1;
    }
    proof {
        assert(m.take(n as int) =~= m);
    }
    out
}

/// Scans for the first occurrence of a byte.
pub fn find_byte(s: &[u8], c: u8) -> (r: usize)
    ensures
        r == first_idx(s@, c),
{
    let n = s.len();
    let mut i: usize = 0;
    while i < n
        invariant
            0 <= i <= n,
            n == s@.len(),
            forall|j: int| 0 <= j < i ==> s@[j] != c,
        decreases n - i,
    {
        if s[i] == c {
            proof {
                lemma_first_idx(s@, c);
                lemma_first_idx_le(s@, c, i as int);
            }
            return i;
        }
        i = i + 1;
    }
    proof {
        lemma_first_idx(s@, c);
        if first_idx(s@, c) < s@.len() {
            assert(s@[first_idx(s@, c)] == c);
        }
    }
    n
}

/// Index of the first empty token, or `ts.len()` if none is empty.
pub open spec fn first_empty(ts: Seq<Seq<u8>>) -> int
    decreases ts.len(),
{
    if ts.len() == 0 {
        0
    } else if ts[0].len() == 0 {
        0
    } else {
        1 + first_empty(ts.skip(1))
    }
}

pub proof fn lemma_first_empty(ts: Seq<Seq<u8>>)
    ensures
        0 <= first_empty(ts) <= ts.len(),
        first_empty(ts) < ts.len() ==> ts[first_empty(ts)].len() == 0,
        forall|j: int| 0 <= j < first_empty(ts) ==> ts[j].len() != 0,
    decreases ts.len(),
{
    if ts.len() != 0 && ts[0].len() != 0 {
        lemma_first_empty(ts.skip(1));
        assert forall|j: int| 0 <= j < first_empty(ts) implies ts[j].len() != 0 by {
            if j > 0 {
                assert(ts.skip(1)[j - 1].len() != 0);
            }
        }
    }
}

pub proof fn lemma_first_empty_le(ts: Seq<Seq<u8>>, k: int)
    requires
        0 <= k < ts.len(),
        ts[k].len() == 0,
    ensures
        first_empty(ts) <= k,
{
    lemma_first_empty(ts);
    if first_empty(ts) > k {
        assert(ts[k].len() != 0);
    }
}

/// Scans for the first empty token.
pub fn find_first_empty(ts: &Vec<Vec<u8>>) -> (r: usize)
    ensures
        r == first_empty(ts@.map_values(|t: Vec<u8>| t@)),
{
    let ghost m = ts@.map_values(|t: Vec<u8>| t@);
    let n = ts.len();
    let mut i: usize = 0;
    while i < n
        invariant
            0 <= i <= n,
            n == m.len(),
            m == ts@.map_values(|t: Vec<u8>| t@),
            forall|j: int| 0 <= j < i ==> m[j].len() != 0,
        decreases n - i,
    {
        if ts[i].len() == 0 {
            proof {
                lemma_first_empty(m);
                lemma_first_empty_le(m, i as int);
            }
            return i;
        }
        i = i + 1;
    }
    proof {
        lemma_first_empty(m);
        if first_empty(m) < m.len() {
            assert(m[first_empty(m)].len() != 0);
        }
    }
    n
}

/// Copies `s[from..to]` into a fresh vector.
pub fn subvec(s: &[u8], from: usize, to: usize) -> (r: Vec<u8>)
    requires
        0 <= from <= to <= s@.len(),
    ensures
        r@ == s@.subrange(from as int, to as int),
{
    let mut r: Vec<u8> = Vec::new();
    let mut i: usize = from;
    while i < to
        invariant
            from <= i <= to <= s@.len(),
            r@ == s@.subrange(from as int, i as int),
        decreases to - i,
    {
        r.push(s[i]);
        proof {
            assert(s@.subrange(from as int, i + 1) =~= s@.subrange(from as int, i as int).push(
                s@[i as int],
            ));
        }
        i = i + 1;
    }
    r
}

/// Splits a byte string on a separator, exactly as `split_on` describes.
pub fn split_bytes(s: &[u8], c: u8) -> (r: Vec<Vec<u8>>)
    ensures
        r@.map_values(|t: Vec<u8>| t@) == split_on(s@, c),
        r@.len() >= 1,
{
    let n = s.len();
    let mut r: Vec<Vec<u8>> = Vec::new();
    let mut start: usize = 0;
    let mut i: usize = 0;
    proof {
        assert(s@.skip(0) =~= s@);
        assert(r@.map_values(|t: Vec<u8>| t@) + split_on(s@, c) =~= split_on(s@, c));
    }
    while i < n
        invariant
            0 <= start <= i <= n,
            n == s@.len(),
            split_on(s@, c) == r@.map_values(|t: Vec<u8>| t@) + split_on(s@.skip(start as int), c),
            forall|j: int| start <= j < i ==> s@[j] != c,
        decreases n - i,
    {
        if s[i] == c {
            let token = subvec(s, start, i);
            proof {
                let tail = s@.skip(start as int);
                lemma_first_idx(tail, c);
                assert(tail[i - start] == c);
                lemma_first_idx_le(tail, c, i - start);
                assert forall|j: int| 0 <= j < i - start implies tail[j] != c by {
                    assert(tail[j] == s@[start + j]);
                }
                assert(first_idx(tail, c) == i - start);
                assert(tail.take(i - start) =~= s@.subrange(start as int, i as int));
                assert(tail.skip(i - start + 1) =~= s@.skip(i + 1));
                assert(split_on(tail, c) == seq![token@] + split_on(s@.skip(i + 1), c));
                assert(r@.push(token).map_values(|t: Vec<u8>| t@) =~= r@.map_values(
                    |t: Vec<u8>| t@,
                ).push(token@));
                assert(r@.map_values(|t: Vec<u8>| t@) + (seq![token@] + split_on(
                    s@.skip(i + 1),
                    c,
                )) =~= r@.map_values(|t: Vec<u8>| t@).push(token@) + split_on(s@.skip(i + 1), c));
            }
            r.push(token);
            start = i + 1;
        }
        i = i + 1;
    }
    let token = subvec(s, start, n);
    proof {
        let tail = s@.skip(start as int);
        lemma_first_idx(tail, c);
        if first_idx(tail, c) < tail.len() {
            assert(tail[first_idx(tail, c)] == c);
            assert(s@[start + first_idx(tail, c)] == c);
        }
        assert(first_idx(tail, c) == tail.len());
        assert(tail =~= s@.subrange(start as int, n as int));
        assert(split_on(tail, c) == seq![token@]);
        assert(r@.push(token).map_values(|t: Vec<u8>| t@) =~= r@.map_values(
            |t: Vec<u8>| t@,
        ).push(token@));
        assert(r@.map_values(|t: Vec<u8>| t@) + seq![token@] =~= r@.map_values(
            |t: Vec<u8>| t@,
        ).push(token@));
    }
    r.push(token);
    r
}

} // verus!
