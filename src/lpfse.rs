//! The homophonic frequency-smoothing schemes: a message is encoded as the
//! message followed by a homophone tag, drawn either from an interval of a
//! global tag space (IHBE) or from a per-message band (BHE).

use crate::crypto::{
    new_zero_nonce, open_token, seal_token, token_of, uniform_between, zero_nonce, KEY_LEN, PLAIN_MAX,
};
use crate::fixed::{ceil_div, round_div, MAX_MESSAGES};
use crate::pfse::{FseError, SEP};
use crate::table::{assoc_has, assoc_keys_distinct, find_key};
use crate::util::{
    build_histogram, build_histogram_vec, is_histogram_of, keys_distinct, lemma_entry_le_total,
    lemma_reordered_histogram, push_all, sorted_desc, total, views, HistType,
};
use vstd::bytes::{lemma_auto_spec_u64_to_from_le_bytes, spec_u64_to_le_bytes, u64_to_le_bytes};
use vstd::prelude::*;

verus! {

/// Number of bytes that a homophone tag adds after the message.
pub const TAG_SUFFIX_LEN: usize = 9;

/// Largest exponent of the tag space or of the band length.
pub const MAX_EXPONENT: u32 = 40;

/// `2^e`.
pub open spec fn two_pow(e: nat) -> nat
    decreases e,
{
    if e == 0 {
        1
    } else {
        2 * two_pow((e - 1) as nat)
    }
}

fn two_pow_exec(e: u32) -> (r: u128)
    requires
        e <= MAX_EXPONENT + 1,
    ensures
        r == two_pow(e as nat),
        r <= 2199023255552,
{
    proof {
        reveal_with_fuel(two_pow, 42);
        assert(two_pow(41) == 2199023255552);
    }
    let mut r: u128 = 1;
    let mut i: u32 = 0;
    while i < e
        invariant
            i <= e <= 41,
            r == two_pow(i as nat),
            two_pow(41) == 2199023255552,
        decreases e - i,
    {
        proof {
            lemma_two_pow_mono(i as nat + 1, 41);
        }
        r = r * 2;
        i = i + 1;
    }
    proof {
        lemma_two_pow_mono(e as nat, 41);
    }
    r
}

proof fn lemma_two_pow_mono(a: nat, b: nat)
    requires
        a <= b,
    ensures
        1 <= two_pow(a) <= two_pow(b),
    decreases b,
{
    if b > 0 && a < b {
        lemma_two_pow_mono(a, (b - 1) as nat);
    } else if b > 0 {
        lemma_two_pow_mono(0, (b - 1) as nat);
    }
}

/// The plaintext of message `m` under the homophone tag `tag`: `m | le(tag)`.
pub open spec fn lp_plain(m: Seq<u8>, tag: u64) -> Seq<u8> {
    m + seq![SEP] + spec_u64_to_le_bytes(tag)
}

/// Builds `m | le(tag)`.
fn lp_token_plain(m: &Vec<u8>, tag: u64) -> (r: Vec<u8>)
    ensures
        r@ == lp_plain(m@, tag),
        r@.len() == m@.len() + TAG_SUFFIX_LEN,
{
    let mut v: Vec<u8> = Vec::new();
    push_all(&mut v, m);
    v.push(SEP);
    let a = u64_to_le_bytes(tag);
    push_all(&mut v, &a);
    assert(v@ =~= lp_plain(m@, tag));
    v
}

/// The plaintexts of `m` under the tags `start, start + 1, ..., start + len - 1`.
pub open spec fn lp_range(m: Seq<u8>, start: u64, len: nat) -> Seq<Seq<u8>> {
    Seq::new(len, |i: int| lp_plain(m, (start + i) as u64))
}

/// Encodes `m` under every tag of `[start, end)`.
fn encode_range(m: &Vec<u8>, start: u64, end: u64) -> (r: Vec<Vec<u8>>)
    requires
        start <= end,
    ensures
        views(r@) == lp_range(m@, start, (end - start) as nat),
{
    let mut out: Vec<Vec<u8>> = Vec::new();
    let mut t: u64 = start;
    while t < end
        invariant
            start <= t <= end,
            views(out@) == lp_range(m@, start, (t - start) as nat),
        decreases end - t,
    {
        let ghost before = views(out@);
        let tok = lp_token_plain(m, t);
        out.push(tok);
        assert(views(out@) =~= before.push(tok@));
        t = t + 1;
        assert(views(out@) =~= lp_range(m@, start, (t - start) as nat));
    }
    out
}

/// Strips the homophone tag: everything but the last nine bytes, or `None`
/// when there are fewer.
pub fn strip_tag(token: &Vec<u8>) -> (r: Option<Vec<u8>>)
    ensures
        token@.len() < TAG_SUFFIX_LEN ==> r is None,
        token@.len() >= TAG_SUFFIX_LEN ==> (r matches Some(p) && p@ == token@.subrange(
            0,
            token@.len() - TAG_SUFFIX_LEN,
        )),
{
    if token.len() < TAG_SUFFIX_LEN {
        return None;
    }
    let keep = token.len() - TAG_SUFFIX_LEN;
    let mut out: Vec<u8> = Vec::new();
    let mut i: usize = 0;
    while i < keep
        invariant
            i <= keep <= token@.len(),
            out@ == token@.subrange(0, i as int),
        decreases keep - i,
    {
        out.push(token[i]);
        i = i + 1;
        assert(out@ =~= token@.subrange(0, i as int));
    }
    Some(out)
}

/// Round trip of the homophonic schemes: stripping the tag of `m | le(tag)`
/// gives back `m`, which is what `decrypt` returns for the ciphertext that
/// `encrypt` made of it.
pub proof fn lemma_strip_lp_plain(m: Seq<u8>, tag: u64)
    ensures
        lp_plain(m, tag).len() == m.len() + TAG_SUFFIX_LEN,
        lp_plain(m, tag).subrange(0, m.len() as int) == m,
{
    lemma_auto_spec_u64_to_from_le_bytes();
    assert(lp_plain(m, tag).subrange(0, m.len() as int) =~= m);
}

// ---------------------------------------------------------------- IHBE

/// A row of the IHBE local table: adjusted count and tag interval `[start, end)`.
pub type IhbeKeyType = (u64, u64, u64);

/// State of the distribution adjustment after a prefix of the histogram:
/// adjusted counts so far, whether a big-enough message was met, and the
/// running scale factor (`0`: one; `1`: raised by the second message, whose
/// count is the last component; `2`: undefined).
pub type AdjustState = (Seq<int>, bool, int, int);

/// Sum of `s`.
pub open spec fn seq_sum(s: Seq<int>) -> int
    decreases s.len(),
{
    if s.len() == 0 {
        0
    } else {
        seq_sum(s.drop_last()) + s.last()
    }
}

/// A count reaches the threshold `2^-r` times the scale factor.
pub open spec fn scale_meets(c: int, kind: int, c1: int, n: int, r: nat) -> bool {
    if kind == 0 {
        c * two_pow(r) >= n
    } else if kind == 1 {
        c * (two_pow(r + 1) - 1) >= 2 * (n - c1)
    } else {
        false
    }
}

/// A count divided by the scale factor, rounded up.
pub open spec fn scale_down(c: int, kind: int, c1: int, n: int, r: nat) -> int {
    if kind == 1 {
        ceil_div(c * n * (two_pow(r + 1) - 1), (n - c1) * two_pow(r + 1))
    } else {
        c
    }
}

/// One step of the adjustment on the count `c` of the `i`-th message.
pub open spec fn adjust_step(st: AdjustState, c: int, i: int, n: int, r: nat) -> AdjustState {
    let adj = st.0;
    if i == 1 {
        if c * two_pow(r + 1) < n {
            (adj.push(ceil_div(n, two_pow(r + 1) as int)), st.1, 1, c)
        } else {
            (adj.push(c), st.1, st.2, st.3)
        }
    } else if st.1 {
        (adj.push(scale_down(c, st.2, st.3, n, r)), true, st.2, st.3)
    } else if scale_meets(c, st.2, st.3, n, r) {
        (adj.push(scale_down(c, st.2, st.3, n, r)), true, st.2, st.3)
    } else {
        (adj.push(ceil_div(c, two_pow(r) as int)), false, if seq_sum(adj) == n {
            2int
        } else {
            0int
        }, st.3)
    }
}

/// The adjustment run over the counts `cs`, in order.
pub open spec fn adjust_run(cs: Seq<int>, n: int, r: nat) -> AdjustState
    decreases cs.len(),
{
    if cs.len() == 0 {
        (Seq::empty(), false, 0, 0)
    } else {
        adjust_step(adjust_run(cs.drop_last(), n, r), cs.last(), cs.len() - 1, n, r)
    }
}

/// The counts of a histogram.
pub open spec fn counts(h: Seq<HistType>) -> Seq<int> {
    h.map_values(|e: HistType| e.1 as int)
}

/// The adjusted counts of the ordered histogram `hv`.
pub open spec fn adjusted_counts(hv: Seq<HistType>, n: int, r: nat) -> Seq<int> {
    adjust_run(counts(hv), n, r).0
}

/// Interval bound `round(2^r * sum(adj[..k]) / n)`.
pub open spec fn interval_bound(adj: Seq<int>, k: int, n: int, r: nat) -> int {
    round_div(two_pow(r) * seq_sum(adj.subrange(0, k)), n)
}

/// `t` is the IHBE table built from the ordered histogram `hv` of a sample of
/// `n` messages with tag space `[0, 2^r)`.
pub open spec fn ihbe_table(t: Seq<(Vec<u8>, IhbeKeyType)>, hv: Seq<HistType>, n: int, r: nat) -> bool {
    let adj = adjusted_counts(hv, n, r);
    &&& t.len() == hv.len()
    &&& forall|k: int|
        0 <= k < t.len() ==> #[trigger] t[k].0@ == hv[k].0@ && t[k].1.0 == adj[k] && t[k].1.1 == interval_bound(
            adj,
            k,
            n,
            r,
        ) && t[k].1.2 == interval_bound(adj, k + 1, n, r)
}

/// Every message whose adjusted count reaches `n / 2^r`, at least one tag's
/// worth, has a non-empty interval.
pub open spec fn ihbe_wide_nonempty(t: Seq<(Vec<u8>, IhbeKeyType)>, hv: Seq<HistType>, n: int, r: nat) -> bool {
    forall|k: int|
        0 <= k < t.len() && adjusted_counts(hv, n, r)[k] * two_pow(r) >= n ==> #[trigger] t[k].1.1 < t[k].1.2
}

/// In a table built by `initialize`, a message of adjusted count at least
/// `n / 2^r` gets a non-empty interval.
pub proof fn lemma_ihbe_wide_nonempty(t: Seq<(Vec<u8>, IhbeKeyType)>, hv: Seq<HistType>, n: int, r: nat)
    requires
        ihbe_table(t, hv, n, r),
        n >= 1,
    ensures
        ihbe_wide_nonempty(t, hv, n, r),
{
    let adj = adjusted_counts(hv, n, r);
    lemma_adjust_len(counts(hv), n, r);
    assert forall|k: int| 0 <= k < t.len() && adj[k] * two_pow(r) >= n implies #[trigger] t[k].1.1 < t[k].1.2 by {
        assert(t[k].0@ == hv[k].0@);
        assert(adj.subrange(0, k + 1).drop_last() =~= adj.subrange(0, k));
        assert(adj.subrange(0, k + 1).last() == adj[k]);
        let c = seq_sum(adj.subrange(0, k));
        let a = adj[k];
        let p = two_pow(r) as int;
        assert(p * (c + a) == p * c + a * p) by (nonlinear_arith);
        assert((2 * (p * c + a * p) + n) / (2 * n) >= (2 * (p * c) + n) / (2 * n) + 1) by (nonlinear_arith)
            requires a * p >= n, n >= 1;
    }
}

/// The encoder of the interval-based homophonic scheme.
pub struct EncoderIHBE {
    /// Message, adjusted count and tag interval.
    pub local_table: Vec<(Vec<u8>, IhbeKeyType)>,
}

proof fn lemma_adjust_run_facts(cs: Seq<int>, n: int, r: nat)
    requires
        forall|k: int| 0 <= k < cs.len() ==> 0 <= #[trigger] cs[k] <= n,
        n >= 1,
    ensures
        adjust_run(cs, n, r).0.len() == cs.len(),
        adjust_run(cs, n, r).2 == 1 ==> adjust_run(cs, n, r).3 * two_pow(r + 1) < n && adjust_run(cs, n, r).3 >= 0,
        forall|k: int| 0 <= k < cs.len() ==> 0 <= #[trigger] adjust_run(cs, n, r).0[k] <= 2 * cs[k] + if k == 1 {
            n
        } else {
            0
        },
    decreases cs.len(),
{
    if cs.len() > 0 {
        let q = cs.drop_last();
        lemma_adjust_run_facts(q, n, r);
        let st = adjust_run(q, n, r);
        let c = cs.last();
        let i = cs.len() - 1;
        let p1 = two_pow(r + 1) as int;
        let p0 = two_pow(r) as int;
        lemma_two_pow_mono(0, r);
        assert(two_pow(r + 1) == 2 * two_pow(r));
        let nxt = adjust_run(cs, n, r);
        assert(nxt == adjust_step(st, c, i, n, r));
        assert forall|k: int| 0 <= k < cs.len() implies 0 <= #[trigger] adjust_run(cs, n, r).0[k] <= 2 * cs[k] + if k == 1 {
            n
        } else {
            0
        } by {
            if k < q.len() {
                assert(nxt.0[k] == st.0[k]);
                assert(cs[k] == q[k]);
            } else {
                let v = nxt.0[k];
                if i == 1 {
                    if c * p1 < n {
                        assert(v == (n + p1 - 1) / p1);
                        assert((n + p1 - 1) / p1 <= n) by (nonlinear_arith)
                            requires p1 >= 1, n >= 1;
                    }
                } else if st.2 == 1 && (st.1 || scale_meets(c, st.2, st.3, n, r)) {
                    let c1 = st.3;
                    let a = c * n * (p1 - 1);
                    let b = (n - c1) * p1;
                    assert(c1 * p1 < n);
                    assert(b >= 1) by (nonlinear_arith)
                        requires c1 * p1 < n, p1 >= 1, b == (n - c1) * p1, c1 >= 0;
                    assert(n * (p1 - 1) <= 2 * (n - c1) * p1) by (nonlinear_arith)
                        requires c1 * p1 < n, p1 >= 2, c1 >= 0;
                    assert(a <= 2 * c * b) by (nonlinear_arith)
                        requires n * (p1 - 1) <= 2 * (n - c1) * p1, c >= 0, a == c * n * (p1 - 1), b == (n - c1) * p1;
                    assert(a >= 0) by (nonlinear_arith)
                        requires c >= 0, n >= 0, p1 >= 1, a == c * n * (p1 - 1);
                    assert((a + b - 1) / b <= 2 * c) by (nonlinear_arith)
                        requires a <= 2 * c * b, b >= 1, a >= 0;
                } else if !st.1 && !scale_meets(c, st.2, st.3, n, r) {
                    assert((c + p0 - 1) / p0 <= c) by (nonlinear_arith)
                        requires p0 >= 1, c >= 0;
                    assert((c + p0 - 1) / p0 >= 0) by (nonlinear_arith)
                        requires p0 >= 1, c >= 0;
                }
            }
        }
    }
}

/// The integers held by a vector of `u128`.
pub open spec fn wide_view(v: Seq<u128>) -> Seq<int> {
    v.map_values(|x: u128| x as int)
}

/// Runs the distribution adjustment over the ordered histogram `hv`.
#[verifier::rlimit(40)]
fn adjust_distribution(hv: &Vec<HistType>, n: usize, r: u32) -> (adj: Vec<u128>)
    requires
        1 <= n <= MAX_MESSAGES,
        total(hv@) == n,
        r <= MAX_EXPONENT,
    ensures
        wide_view(adj@) == adjusted_counts(hv@, n as int, r as nat),
        adj@.len() == hv@.len(),
        seq_sum(wide_view(adj@)) <= 3 * n,
{
    let ghost cs = counts(hv@);
    let nn = n as u128;
    let p0 = two_pow_exec(r);
    let p1 = two_pow_exec(r + 1);
    proof {
        lemma_two_pow_mono(0, r as nat);
        assert forall|k: int| 0 <= k < cs.len() implies 0 <= #[trigger] cs[k] <= n by {
            lemma_entry_le_total(hv@, k);
        }
        lemma_adjust_run_facts(cs, n as int, r as nat);
    }
    let mut adj: Vec<u128> = Vec::new();
    let mut big = false;
    let mut kind: u8 = 0;
    let mut c1: u128 = 0;
    let mut sum: u128 = 0;
    let mut csum: u128 = 0;
    let mut i: usize = 0;
    while i < hv.len()
        invariant
            i <= hv@.len(),
            cs == counts(hv@),
            1 <= n <= MAX_MESSAGES,
            nn == n,
            total(hv@) == n,
            r <= MAX_EXPONENT,
            p0 == two_pow(r as nat),
            p1 == two_pow(r as nat + 1),
            p0 <= 2199023255552,
            p1 <= 2199023255552,
            p0 >= 1,
            p1 == 2 * p0,
            forall|k: int| 0 <= k < cs.len() ==> 0 <= #[trigger] cs[k] <= n,
            (wide_view(adj@), big, kind as int, c1 as int) == adjust_run(cs.subrange(0, i as int), n as int, r as nat),
            sum == seq_sum(wide_view(adj@)),
            csum == total(hv@.subrange(0, i as int)),
            csum <= n,
            sum <= 2 * csum + if i > 1 {
                n as int
            } else {
                0
            },
        decreases hv@.len() - i,
    {
        let ghost sub = cs.subrange(0, i as int);
        let ghost sub2 = cs.subrange(0, i + 1);
        let ghost st = adjust_run(sub, n as int, r as nat);
        let c = hv[i].1 as u128;
        proof {
            assert(sub2.drop_last() =~= sub);
            assert(sub2.last() == c);
            assert forall|k: int| 0 <= k < sub2.len() implies 0 <= #[trigger] sub2[k] <= n by {
                assert(sub2[k] == cs[k]);
            }
            lemma_adjust_run_facts(sub2, n as int, r as nat);
            lemma_adjust_run_facts(sub, n as int, r as nat);
            let hs = hv@.subrange(0, i as int);
            let hs2 = hv@.subrange(0, i + 1);
            assert(hs2 =~= hs.push(hv@[i as int]));
            crate::util::lemma_sum_where_push(hs, hv@[i as int], crate::util::any_message());
            assert(hv@ =~= hs2 + hv@.subrange(i + 1, hv@.len() as int));
            crate::util::lemma_sum_where_concat(hs2, hv@.subrange(i + 1, hv@.len() as int), crate::util::any_message());
            assert(c * p1 <= 1099511627776 * 2199023255552) by (nonlinear_arith)
                requires c <= 1099511627776, p1 <= 2199023255552;
            assert(c * p0 <= 1099511627776 * 2199023255552) by (nonlinear_arith)
                requires c <= 1099511627776, p0 <= 2199023255552;
            assert(c * nn <= 1099511627776 * 1099511627776) by (nonlinear_arith)
                requires c <= 1099511627776, nn <= 1099511627776;
            assert(c * nn * (p1 - 1) <= 1099511627776 * 1099511627776 * 2199023255552) by (nonlinear_arith)
                requires c * nn <= 1099511627776 * 1099511627776, p1 <= 2199023255552, p1 >= 1;
            assert(c * (p1 - 1) <= c * p1) by (nonlinear_arith)
                requires c >= 0, p1 >= 1;
            if kind == 1 {
                assert(c1 * p1 < nn);
                assert(c1 <= nn) by (nonlinear_arith)
                    requires c1 * p1 < nn, p1 >= 1, c1 >= 0;
            }
        }
        let v: u128;
        if i == 1 {
            if c * p1 < nn {
                v = (nn + p1 - 1) / p1;
                kind = 1;
                c1 = c;
            } else {
                v = c;
            }
        } else {
            let meets = if kind == 0 {
                c * p0 >= nn
            } else if kind == 1 {
                c * (p1 - 1) >= 2 * (nn - c1)
            } else {
                false
            };
            if big || meets {
                if kind == 1 {
                    proof {
                        assert((nn - c1) * p1 <= 1099511627776 * 2199023255552) by (nonlinear_arith)
                            requires nn - c1 <= 1099511627776, p1 <= 2199023255552, c1 <= nn;
                        assert((nn - c1) * p1 >= 1) by (nonlinear_arith)
                            requires c1 * p1 < nn, p1 >= 1;
                    }
                    let num = c * nn * (p1 - 1);
                    let den = (nn - c1) * p1;
                    v = (num + den - 1) / den;
                } else {
                    v = c;
                }
                big = true;
            } else {
                v = (c + p0 - 1) / p0;
                kind = if sum == nn {
                    2
                } else {
                    0
                };
            }
        }
        proof {
            assert(adjust_run(sub2, n as int, r as nat) == adjust_step(st, c as int, i as int, n as int, r as nat));
            assert(st.0.len() == i);
            assert(adjust_run(sub2, n as int, r as nat).0[i as int] == v);
            assert(v <= 2 * c + if i == 1 { n as int } else { 0 });
        }
        let ghost adj0 = wide_view(adj@);
        adj.push(v);
        proof {
            assert(wide_view(adj@) =~= adj0.push(v as int));
            assert(wide_view(adj@).drop_last() =~= adj0);
            assert(wide_view(adj@) =~= adjust_run(sub2, n as int, r as nat).0);
        }
        sum = sum + v;
        csum = csum + c;
        i = i + 1;
    }
    assert(cs.subrange(0, hv@.len() as int) =~= cs);
    assert(hv@.subrange(0, hv@.len() as int) =~= hv@);
    assert(wide_view(adj@).len() == adj@.len());
    adj
}

impl EncoderIHBE {
    /// An encoder with an empty table.
    pub fn new() -> (r: EncoderIHBE)
        ensures
            r.local_table@.len() == 0,
    {
        EncoderIHBE { local_table: Vec::new() }
    }

    /// Builds the table from a training sample, with tag space `[0, 2^r)`:
    /// orders the histogram, adjusts the counts so that small messages still
    /// get homophones, and gives the `k`-th message the interval
    /// `[round(2^r * F(k) / n), round(2^r * F(k + 1) / n))`, where `F(k)` is
    /// the sum of the first `k` adjusted counts. An empty sample changes
    /// nothing; an exponent above `MAX_EXPONENT` is refused.
    #[verifier::rlimit(40)]
    pub fn initialize(&mut self, messages: &[Vec<u8>], r: u32) -> (res: Result<(), FseError>)
        requires
            messages@.len() <= MAX_MESSAGES,
        ensures
            messages@.len() == 0 ==> res is Ok && final(self).local_table@ == old(self).local_table@,
            messages@.len() > 0 && r > MAX_EXPONENT ==> res == Err::<(), FseError>(FseError::Parameter)
                && final(self).local_table@ == old(self).local_table@,
            messages@.len() > 0 && r <= MAX_EXPONENT ==> res is Ok && assoc_keys_distinct(final(self).local_table@)
                && exists|hv: Seq<HistType>|
                is_histogram_of(hv, views(messages@)) && sorted_desc(hv) && #[trigger] ihbe_table(
                    final(self).local_table@,
                    hv,
                    messages@.len() as int,
                    r as nat,
                ) && ihbe_wide_nonempty(final(self).local_table@, hv, messages@.len() as int, r as nat),
    {
        if messages.len() == 0 {
            return Ok(());
        }
        if r > MAX_EXPONENT {
            return Err(FseError::Parameter);
        }
        let n = messages.len();
        let histogram = build_histogram(messages);
        let hv = build_histogram_vec(&histogram);
        proof {
            lemma_reordered_histogram(histogram@, hv@, views(messages@));
            assert(total(hv@) == n) by {
                assert(crate::util::sum_where(hv@, crate::util::any_message()) == crate::util::sum_where(histogram@, crate::util::any_message()));
            }
        }
        let adj = adjust_distribution(&hv, n, r);
        let ghost adjs = wide_view(adj@);
        let p0 = two_pow_exec(r);
        let nn = n as u128;
        let mut table: Vec<(Vec<u8>, IhbeKeyType)> = Vec::new();
        let mut cum: u128 = 0;
        let mut k: usize = 0;
        proof {
            lemma_seq_sum_prefix_bound(adjs);
            assert(adjs.subrange(0, 0) =~= Seq::<int>::empty());
        }
        while k < hv.len()
            invariant
                k <= hv@.len() == adjs.len(),
                adjs == wide_view(adj@),
                adjs == adjusted_counts(hv@, n as int, r as nat),
                p0 == two_pow(r as nat),
                p0 <= 2199023255552,
                nn == n,
                1 <= n <= MAX_MESSAGES,
                cum == seq_sum(adjs.subrange(0, k as int)),
                forall|j: int| 0 <= j <= adjs.len() ==> 0 <= #[trigger] seq_sum(adjs.subrange(0, j)) <= 3 * n,
                keys_distinct(hv@),
                table@.len() == k,
                forall|j: int|
                    0 <= j < k ==> #[trigger] table@[j].0@ == hv@[j].0@ && table@[j].1.0 == adjs[j]
                        && table@[j].1.1 == interval_bound(adjs, j, n as int, r as nat) && table@[j].1.2
                        == interval_bound(adjs, j + 1, n as int, r as nat),
            decreases hv@.len() - k,
        {
            let a = adj[k];
            proof {
                assert(adjs.subrange(0, k + 1).drop_last() =~= adjs.subrange(0, k as int));
                let c0 = seq_sum(adjs.subrange(0, k as int));
                let c1 = seq_sum(adjs.subrange(0, k + 1));
                assert(0 <= c0 <= 3 * n);
                assert(0 <= c1 <= 3 * n);
                assert(p0 * c0 <= 2199023255552 * 3298534883328) by (nonlinear_arith)
                    requires p0 <= 2199023255552, 0 <= c0 <= 3298534883328;
                assert(p0 * c1 <= 2199023255552 * 3298534883328) by (nonlinear_arith)
                    requires p0 <= 2199023255552, 0 <= c1 <= 3298534883328;
                assert((2 * p0 * c0 + nn) / (2 * nn) <= 3 * p0 + 1) by (nonlinear_arith)
                    requires 0 <= c0 <= 3 * nn, nn >= 1, p0 >= 0;
                assert((2 * p0 * c1 + nn) / (2 * nn) <= 3 * p0 + 1) by (nonlinear_arith)
                    requires 0 <= c1 <= 3 * nn, nn >= 1, p0 >= 0;
                assert(a <= 3 * n) by {
                    assert(c1 == c0 + a);
                }
            }
            proof {
                assert(2 * p0 * cum <= 2 * 2199023255552 * 3298534883328) by (nonlinear_arith)
                    requires p0 <= 2199023255552, 0 <= cum <= 3298534883328;
                assert(2 * p0 * (cum + a) <= 2 * 2199023255552 * 3298534883328) by (nonlinear_arith)
                    requires p0 <= 2199023255552, 0 <= cum + a <= 3298534883328;
            }
            let lhs = (2 * p0 * cum + nn) / (2 * nn);
            let cum2 = cum + a;
            let rhs = (2 * p0 * cum2 + nn) / (2 * nn);
            proof {
                assert(2 * (p0 * cum) == 2 * p0 * cum) by (nonlinear_arith);
                assert(2 * (p0 * cum2) == 2 * p0 * cum2) by (nonlinear_arith);
                assert(lhs == interval_bound(adjs, k as int, n as int, r as nat));
                assert(cum2 == seq_sum(adjs.subrange(0, k + 1)));
                assert(rhs == interval_bound(adjs, k + 1, n as int, r as nat));
                assert(lhs <= 3 * p0 + 1);
                assert(rhs <= 3 * p0 + 1);
            }
            let key = hv[k].0.clone();
            let ghost t0 = table@;
            table.push((key, (a as u64, lhs as u64, rhs as u64)));
            proof {
                assert(key@ == hv@[k as int].0@);
                assert forall|j: int|
                    0 <= j < k + 1 implies #[trigger] table@[j].0@ == hv@[j].0@ && table@[j].1.0 == adjs[j]
                        && table@[j].1.1 == interval_bound(adjs, j, n as int, r as nat) && table@[j].1.2
                        == interval_bound(adjs, j + 1, n as int, r as nat) by {
                    if j < k {
                        assert(table@[j] == t0[j]);
                    } else {
                        assert(adjs.subrange(0, k + 1).drop_last() =~= adjs.subrange(0, k as int));
                    }
                }
            }
            cum = cum2;
            k = k + 1;
        }
        proof {
            assert forall|i: int, j: int| 0 <= i < j < table@.len() implies table@[i].0@ != table@[j].0@ by {
                assert(table@[i].0@ == hv@[i].0@);
                assert(table@[j].0@ == hv@[j].0@);
            }
            assert(ihbe_table(table@, hv@, n as int, r as nat));
            lemma_ihbe_wide_nonempty(table@, hv@, n as int, r as nat);
            assert(is_histogram_of(hv@, views(messages@)));
            assert(sorted_desc(hv@));
        }
        self.local_table = table;
        Ok(())
    }

    /// Encodes `message` under a tag drawn uniformly from its interval; `None`
    /// for an unknown message or an empty interval.
    pub fn encode(&self, message: &Vec<u8>) -> (r: Option<Vec<u8>>)
        requires
            assoc_keys_distinct(self.local_table@),
        ensures
            r is Some <==> exists|i: int|
                0 <= i < self.local_table@.len() && #[trigger] self.local_table@[i].0@ == message@
                    && self.local_table@[i].1.1 < self.local_table@[i].1.2,
            r matches Some(v) ==> exists|i: int, tag: u64|
                0 <= i < self.local_table@.len() && self.local_table@[i].0@ == message@
                    && self.local_table@[i].1.1 <= tag < self.local_table@[i].1.2 && v@ == #[trigger] lp_plain(message@, tag) && #[trigger] self.local_table@[i] == self.local_table@[i],
    {
        match find_key(&self.local_table, message) {
            Some(i) => {
                let (_, start, end) = self.local_table[i].1;
                if start >= end {
                    return None;
                }
                let tag = uniform_between(start, end);
                Some(lp_token_plain(message, tag))
            },
            None => None,
        }
    }

    /// Encodes `message` under every tag of its interval, in order.
    pub fn encode_all(&self, message: &Vec<u8>) -> (r: Option<Vec<Vec<u8>>>)
        requires
            assoc_keys_distinct(self.local_table@),
        ensures
            r is Some <==> assoc_has(self.local_table@, message@),
            r matches Some(v) ==> forall|i: int|
                0 <= i < self.local_table@.len() && #[trigger] self.local_table@[i].0@ == message@ ==> views(v@)
                    == lp_range(
                    message@,
                    self.local_table@[i].1.1,
                    if self.local_table@[i].1.1 <= self.local_table@[i].1.2 {
                        (self.local_table@[i].1.2 - self.local_table@[i].1.1) as nat
                    } else {
                        0
                    },
                ),
    {
        match find_key(&self.local_table, message) {
            Some(i) => {
                let (_, start, end) = self.local_table[i].1;
                let v = if start <= end {
                    encode_range(message, start, end)
                } else {
                    let e: Vec<Vec<u8>> = Vec::new();
                    assert(views(e@) =~= lp_range(message@, start, 0));
                    e
                };
                Some(v)
            },
            None => None,
        }
    }

    /// Strips the homophone tag.
    pub fn decode(&self, token: &Vec<u8>) -> (r: Option<Vec<u8>>)
        ensures
            token@.len() < TAG_SUFFIX_LEN ==> r is None,
            token@.len() >= TAG_SUFFIX_LEN ==> (r matches Some(p) && p@ == token@.subrange(
                0,
                token@.len() - TAG_SUFFIX_LEN,
            )),
    {
        strip_tag(token)
    }

    /// Each message with its adjusted count.
    pub fn local_table(&self) -> (r: Vec<(Vec<u8>, u64)>)
        ensures
            r@.len() == self.local_table@.len(),
            forall|i: int|
                0 <= i < r@.len() ==> #[trigger] r@[i].0@ == self.local_table@[i].0@ && r@[i].1
                    == self.local_table@[i].1.0,
    {
        let mut out: Vec<(Vec<u8>, u64)> = Vec::new();
        let mut i: usize = 0;
        while i < self.local_table.len()
            invariant
                i <= self.local_table@.len(),
                out@.len() == i,
                forall|j: int|
                    0 <= j < i ==> #[trigger] out@[j].0@ == self.local_table@[j].0@ && out@[j].1
                        == self.local_table@[j].1.0,
            decreases self.local_table@.len() - i,
        {
            let key = self.local_table[i].0.clone();
            assert(key@ == self.local_table@[i as int].0@);
            let ghost o0 = out@;
            out.push((key, self.local_table[i].1.0));
            assert forall|j: int|
                0 <= j < i + 1 implies #[trigger] out@[j].0@ == self.local_table@[j].0@ && out@[j].1
                    == self.local_table@[j].1.0 by {
                if j < i {
                    assert(out@[j] == o0[j]);
                }
            }
            i = i + 1;
        }
        out
    }
}

proof fn lemma_seq_sum_prefix_bound(adj: Seq<int>)
    requires
        forall|k: int| 0 <= k < adj.len() ==> adj[k] >= 0,
    ensures
        forall|j: int| 0 <= j <= adj.len() ==> 0 <= #[trigger] seq_sum(adj.subrange(0, j)) <= seq_sum(adj),
    decreases adj.len(),
{
    if adj.len() > 0 {
        let q = adj.drop_last();
        assert forall|k: int| 0 <= k < q.len() implies q[k] >= 0 by {
            assert(q[k] == adj[k]);
        }
        lemma_seq_sum_prefix_bound(q);
        assert(adj.last() >= 0);
        assert(seq_sum(adj) == seq_sum(q) + adj.last());
        assert(q.subrange(0, q.len() as int) =~= q);
        assert(0 <= seq_sum(q.subrange(0, q.len() as int)));
        assert forall|j: int| 0 <= j <= adj.len() implies 0 <= #[trigger] seq_sum(adj.subrange(0, j)) <= seq_sum(adj) by {
            if j == adj.len() {
                assert(adj.subrange(0, j) =~= adj);
            } else {
                assert(adj.subrange(0, j) =~= q.subrange(0, j));
                assert(0 <= seq_sum(q.subrange(0, j)) <= seq_sum(q));
            }
        }
    } else {
        assert forall|j: int| 0 <= j <= adj.len() implies 0 <= #[trigger] seq_sum(adj.subrange(0, j)) <= seq_sum(adj) by {
            assert(adj.subrange(0, j) =~= adj);
        }
    }
}

// ---------------------------------------------------------------- BHE

/// Band of a message of count `c`: `ceil(c * 2^length / f_max)`, that is
/// `ceil(c / (width * n))` with `width = f_max / (n * 2^length)`.
pub open spec fn band(c: int, length: nat, f_max: int) -> int {
    ceil_div(c * two_pow(length), f_max)
}

/// A row of the BHE local table: count and the tags handed out so far.
pub type BheKeyType = (u64, Vec<u64>);

/// The encoder of the banded homophonic scheme.
pub struct EncoderBHE {
    /// The band length exponent.
    pub length: u32,
    /// The largest count of the training sample.
    pub most_frequent: u64,
    /// Message, count and tags used so far.
    pub local_table: Vec<(Vec<u8>, BheKeyType)>,
    /// Size of the training sample.
    pub message_num: usize,
}

/// The BHE encoder holds a table that `initialize` built.
pub open spec fn bhe_wf(e: EncoderBHE) -> bool {
    &&& e.length <= MAX_EXPONENT
    &&& e.most_frequent >= 1
    &&& assoc_keys_distinct(e.local_table@)
    &&& forall|i: int| 0 <= i < e.local_table@.len() ==> #[trigger] e.local_table@[i].1.0 <= e.most_frequent
    &&& forall|i: int| 0 <= i < e.local_table@.len() ==> #[trigger] e.local_table@[i].1.0 >= 1
}

/// The rows of `t` hold the messages and counts of the histogram `h`, in order.
pub open spec fn bhe_rows(t: Seq<(Vec<u8>, BheKeyType)>, h: Seq<HistType>) -> bool {
    &&& t.len() == h.len()
    &&& forall|j: int| 0 <= j < t.len() ==> #[trigger] t[j].0@ == h[j].0@ && t[j].1.0 == h[j].1
}

/// `f` is the largest count of `h`.
pub open spec fn most_frequent_of(h: Seq<HistType>, f: int) -> bool {
    &&& forall|j: int| 0 <= j < h.len() ==> #[trigger] h[j].1 <= f
    &&& exists|j: int| 0 <= j < h.len() && #[trigger] h[j].1 == f
}

/// The count of `m` in the BHE table.
pub open spec fn bhe_count(t: Seq<(Vec<u8>, BheKeyType)>, m: Seq<u8>) -> int {
    t[choose|i: int| 0 <= i < t.len() && #[trigger] t[i].0@ == m].1.0 as int
}

proof fn lemma_bhe_count(t: Seq<(Vec<u8>, BheKeyType)>, i: int)
    requires
        assoc_keys_distinct(t),
        0 <= i < t.len(),
    ensures
        bhe_count(t, t[i].0@) == t[i].1.0,
{
    assert(assoc_has(t, t[i].0@));
}

fn band_exec(c: u64, length: u32, f_max: u64) -> (b: u64)
    requires
        length <= MAX_EXPONENT,
        1 <= f_max,
        c <= f_max,
    ensures
        b == band(c as int, length as nat, f_max as int),
        c >= 1 ==> b >= 1,
{
    let p = two_pow_exec(length);
    proof {
        let c = c as int;
        let f_max = f_max as int;
        let p = p as int;
        assert(c * p <= 18446744073709551615 * 2199023255552) by (nonlinear_arith)
            requires 0 <= c <= 18446744073709551615, 0 <= p <= 2199023255552;
        assert(c * p <= f_max * p) by (nonlinear_arith)
            requires c <= f_max, p >= 0;
        assert((c * p + f_max - 1) / f_max <= p) by (nonlinear_arith)
            requires c * p <= f_max * p, f_max >= 1, p >= 0;
        lemma_two_pow_mono(0, length as nat);
        if c >= 1 {
            assert(c * p >= 1) by (nonlinear_arith)
                requires c >= 1, p >= 1;
            assert((c * p + f_max - 1) / f_max >= 1) by (nonlinear_arith)
                requires c * p >= 1, f_max >= 1;
        }
    }
    ((c as u128 * p + f_max as u128 - 1) / f_max as u128) as u64
}

impl EncoderBHE {
    /// An encoder with an empty table.
    pub fn new() -> (r: EncoderBHE)
        ensures
            r.local_table@.len() == 0,
            r.length == 0,
            r.most_frequent == 0,
            r.message_num == 0,
    {
        EncoderBHE { length: 0, most_frequent: 0, local_table: Vec::new(), message_num: 0 }
    }

    /// Builds the table from a training sample. `log2_bound` is
    /// `ceil(log2(n / ((2A)^2 pi)))`; the band length is one less. An empty
    /// sample changes nothing; a bound of zero, or a length above
    /// `MAX_EXPONENT`, is refused.
    pub fn initialize(&mut self, messages: &[Vec<u8>], log2_bound: u32) -> (res: Result<(), FseError>)
        requires
            messages@.len() <= MAX_MESSAGES,
        ensures
            messages@.len() == 0 ==> res is Ok,
            (messages@.len() == 0 || res is Err) ==> final(self).local_table@ == old(self).local_table@
                && final(self).length == old(self).length && final(self).most_frequent == old(self).most_frequent,
            messages@.len() > 0 && (log2_bound == 0 || log2_bound - 1 > MAX_EXPONENT) ==> res == Err::<
                (),
                FseError,
            >(FseError::Parameter),
            messages@.len() > 0 && 1 <= log2_bound && log2_bound - 1 <= MAX_EXPONENT ==> res is Ok && bhe_wf(*final(self))
                && final(self).length == log2_bound - 1 && final(self).message_num == messages@.len()
                && (forall|i: int| 0 <= i < final(self).local_table@.len() ==> #[trigger] final(self).local_table@[i].1.1@.len() == 0)
                && exists|h: Seq<HistType>|
                is_histogram_of(h, views(messages@)) && #[trigger] bhe_rows(final(self).local_table@, h)
                    && most_frequent_of(h, final(self).most_frequent as int),
    {
        if messages.len() == 0 {
            return Ok(());
        }
        self.message_num = messages.len();
        if log2_bound == 0 || log2_bound - 1 > MAX_EXPONENT {
            return Err(FseError::Parameter);
        }
        let h = build_histogram(messages);
        let mut f_max: u64 = 0;
        let mut table: Vec<(Vec<u8>, BheKeyType)> = Vec::new();
        let mut i: usize = 0;
        while i < h.len()
            invariant
                i <= h@.len(),
                is_histogram_of(h@, views(messages@)),
                messages@.len() <= MAX_MESSAGES,
                total(h@) == messages@.len(),
                table@.len() == i,
                forall|j: int| 0 <= j < i ==> #[trigger] table@[j].0@ == h@[j].0@ && table@[j].1.0 == h@[j].1
                    && table@[j].1.1@.len() == 0,
                forall|j: int| 0 <= j < i ==> #[trigger] h@[j].1 <= f_max,
                i > 0 ==> exists|j: int| 0 <= j < i && #[trigger] h@[j].1 == f_max,
                i == 0 ==> f_max == 0,
            decreases h@.len() - i,
        {
            proof {
                lemma_entry_le_total(h@, i as int);
            }
            let c = h[i].1 as u64;
            if c > f_max {
                f_max = c;
            }
            let key = h[i].0.clone();
            assert(key@ == h@[i as int].0@);
            let ghost t0 = table@;
            let tags: Vec<u64> = Vec::new();
            assert(tags@.len() == 0);
            table.push((key, (c, tags)));
            assert(table@[i as int].1.1@.len() == 0);
            assert(table@[i as int].0@ == h@[i as int].0@);
            proof {
                assert forall|j: int| 0 <= j < i + 1 implies #[trigger] table@[j].0@ == h@[j].0@ && table@[j].1.0 == h@[j].1
                    && table@[j].1.1@.len() == 0 by {
                    if j < i {
                        assert(table@[j] == t0[j]);
                    }
                }
            }
            i = i + 1;
        }
        proof {
            assert(h@.len() >= 1) by {
                assert(crate::util::has_key(h@, views(messages@)[0]));
            }
            let j = choose|j: int| 0 <= j < h@.len() && #[trigger] h@[j].1 == f_max;
            assert(h@[j].1 >= 1);
            assert forall|a: int, b: int| 0 <= a < b < table@.len() implies table@[a].0@ != table@[b].0@ by {
                assert(table@[a].0@ == h@[a].0@);
                assert(table@[b].0@ == h@[b].0@);
            }
            assert(bhe_rows(table@, h@));
        }
        self.length = log2_bound - 1;
        self.most_frequent = f_max;
        self.local_table = table;
        proof {
            assert(most_frequent_of(h@, f_max as int));
            assert forall|i: int| 0 <= i < self.local_table@.len() implies #[trigger] self.local_table@[i].1.0 >= 1 by {
                assert(self.local_table@[i].0@ == h@[i].0@);
                assert(self.local_table@[i].1.0 == h@[i].1);
            }
            assert forall|i: int| 0 <= i < self.local_table@.len() implies #[trigger] self.local_table@[i].1.0 <= self.most_frequent by {
                assert(self.local_table@[i].0@ == h@[i].0@);
                assert(self.local_table@[i].1.0 == h@[i].1);
            }
            assert(bhe_wf(*self));
            assert(bhe_rows(self.local_table@, h@));
            assert forall|i: int| 0 <= i < self.local_table@.len() implies #[trigger] self.local_table@[i].1.1@.len() == 0 by {
                assert(self.local_table@[i].0@ == h@[i].0@);
            }
        }
        Ok(())
    }

    /// Encodes `message` under a tag drawn uniformly from `[0, band)`, and
    /// records the tag; `None` for an unknown message.
    pub fn encode(&mut self, message: &Vec<u8>) -> (r: Option<Vec<u8>>)
        requires
            bhe_wf(*old(self)),
        ensures
            bhe_wf(*final(self)),
            final(self).length == old(self).length,
            final(self).most_frequent == old(self).most_frequent,
            final(self).message_num == old(self).message_num,
            final(self).local_table@.len() == old(self).local_table@.len(),
            forall|i: int| 0 <= i < old(self).local_table@.len() ==> #[trigger] final(self).local_table@[i].0@
                == old(self).local_table@[i].0@ && final(self).local_table@[i].1.0 == old(self).local_table@[i].1.0,
            r is Some <==> assoc_has(old(self).local_table@, message@),
            r matches Some(v) ==> exists|tag: u64|
                tag < band(bhe_count(old(self).local_table@, message@), old(self).length as nat, old(self).most_frequent as int)
                    && v@ == #[trigger] lp_plain(message@, tag),
    {
        match find_key(&self.local_table, message) {
            Some(i) => {
                let c = self.local_table[i].1.0;
                proof {
                    lemma_bhe_count(self.local_table@, i as int);
                    assert(c >= 0);
                }
                let b = band_exec(c, self.length, self.most_frequent);
                let tag = uniform_between(0, b);
                let ghost t0 = self.local_table@;
                self.local_table[i].1.1.push(tag);
                proof {
                    assert forall|a: int, bb: int| 0 <= a < bb < self.local_table@.len() implies self.local_table@[a].0@
                        != self.local_table@[bb].0@ by {
                        assert(self.local_table@[a].0@ == t0[a].0@);
                        assert(self.local_table@[bb].0@ == t0[bb].0@);
                    }
                    assert forall|j: int| 0 <= j < t0.len() implies #[trigger] self.local_table@[j].0@ == t0[j].0@
                        && self.local_table@[j].1.0 == t0[j].1.0 by {
                        if j != i {
                            assert(self.local_table@[j] == t0[j]);
                        }
                    }
                }
                Some(lp_token_plain(message, tag))
            },
            None => None,
        }
    }
}

impl EncoderBHE {
    /// Encodes `message` under every tag of `[0, band)`, in order.
    pub fn encode_all(&self, message: &Vec<u8>) -> (r: Option<Vec<Vec<u8>>>)
        requires
            bhe_wf(*self),
        ensures
            r is Some <==> assoc_has(self.local_table@, message@),
            r matches Some(v) ==> views(v@) == lp_range(
                message@,
                0,
                band(bhe_count(self.local_table@, message@), self.length as nat, self.most_frequent as int) as nat,
            ),
    {
        match find_key(&self.local_table, message) {
            Some(i) => {
                proof {
                    lemma_bhe_count(self.local_table@, i as int);
                }
                let b = band_exec(self.local_table[i].1.0, self.length, self.most_frequent);
                Some(encode_range(message, 0, b))
            },
            None => None,
        }
    }

    /// Strips the homophone tag.
    pub fn decode(&self, token: &Vec<u8>) -> (r: Option<Vec<u8>>)
        ensures
            token@.len() < TAG_SUFFIX_LEN ==> r is None,
            token@.len() >= TAG_SUFFIX_LEN ==> (r matches Some(p) && p@ == token@.subrange(
                0,
                token@.len() - TAG_SUFFIX_LEN,
            )),
    {
        strip_tag(token)
    }

    /// Each message with its count.
    pub fn local_table(&self) -> (r: Vec<(Vec<u8>, u64)>)
        ensures
            r@.len() == self.local_table@.len(),
            forall|i: int|
                0 <= i < r@.len() ==> #[trigger] r@[i].0@ == self.local_table@[i].0@ && r@[i].1
                    == self.local_table@[i].1.0,
    {
        let mut out: Vec<(Vec<u8>, u64)> = Vec::new();
        let mut i: usize = 0;
        while i < self.local_table.len()
            invariant
                i <= self.local_table@.len(),
                out@.len() == i,
                forall|j: int|
                    0 <= j < i ==> #[trigger] out@[j].0@ == self.local_table@[j].0@ && out@[j].1
                        == self.local_table@[j].1.0,
            decreases self.local_table@.len() - i,
        {
            let key = self.local_table[i].0.clone();
            assert(key@ == self.local_table@[i as int].0@);
            let ghost o0 = out@;
            out.push((key, self.local_table[i].1.0));
            assert forall|j: int|
                0 <= j < i + 1 implies #[trigger] out@[j].0@ == self.local_table@[j].0@ && out@[j].1
                    == self.local_table@[j].1.0 by {
                if j < i {
                    assert(out@[j] == o0[j]);
                }
            }
            i = i + 1;
        }
        out
    }
}

// ---------------------------------------------------------------- scheme

/// The two homophone encoders.
pub enum Encoder {
    Ihbe(EncoderIHBE),
    Bhe(EncoderBHE),
}

/// The encoder holds a table that its `initialize` built (or none yet).
pub open spec fn encoder_wf(e: Encoder) -> bool {
    match e {
        Encoder::Ihbe(x) => assoc_keys_distinct(x.local_table@),
        Encoder::Bhe(x) => bhe_wf(x) || x.local_table@.len() == 0,
    }
}

/// The encoder knows the message `m`.
pub open spec fn encoder_knows(e: Encoder, m: Seq<u8>) -> bool {
    match e {
        Encoder::Ihbe(x) => exists|i: int|
            0 <= i < x.local_table@.len() && #[trigger] x.local_table@[i].0@ == m && x.local_table@[i].1.1
                < x.local_table@[i].1.2,
        Encoder::Bhe(x) => assoc_has(x.local_table@, m),
    }
}

/// `tag` is a homophone that the encoder may give to `m`.
pub open spec fn encoder_allows(e: Encoder, m: Seq<u8>, tag: u64) -> bool {
    match e {
        Encoder::Ihbe(x) => exists|i: int|
            0 <= i < x.local_table@.len() && #[trigger] x.local_table@[i].0@ == m && x.local_table@[i].1.1 <= tag
                < x.local_table@[i].1.2,
        Encoder::Bhe(x) => tag < band(bhe_count(x.local_table@, m), x.length as nat, x.most_frequent as int),
    }
}

/// All the plaintexts that the encoder may give to `m`, in tag order.
pub open spec fn encoder_range(e: Encoder, m: Seq<u8>) -> Seq<Seq<u8>> {
    match e {
        Encoder::Ihbe(x) => {
            let i = choose|i: int| 0 <= i < x.local_table@.len() && #[trigger] x.local_table@[i].0@ == m;
            let row = x.local_table@[i].1;
            lp_range(m, row.1, if row.1 <= row.2 {
                (row.2 - row.1) as nat
            } else {
                0
            })
        },
        Encoder::Bhe(x) => lp_range(
            m,
            0,
            band(bhe_count(x.local_table@, m), x.length as nat, x.most_frequent as int) as nat,
        ),
    }
}

/// The encoder has a table entry for `m`.
pub open spec fn encoder_has(e: Encoder, m: Seq<u8>) -> bool {
    match e {
        Encoder::Ihbe(x) => assoc_has(x.local_table@, m),
        Encoder::Bhe(x) => assoc_has(x.local_table@, m),
    }
}

/// A context of the homophonic scheme.
pub struct ContextLPFSE {
    /// The advantage bound A, in fixed point.
    pub advantage: u64,
    /// The AES-256 key.
    pub key: Vec<u8>,
    /// The homophone encoder.
    pub encoder: Encoder,
}

impl ContextLPFSE {
    /// A context with no key.
    pub fn new(advantage: u64, encoder: Encoder) -> (r: ContextLPFSE)
        ensures
            r.advantage == advantage,
            r.encoder == encoder,
            r.key@.len() == 0,
    {
        ContextLPFSE { advantage, key: Vec::new(), encoder }
    }

    /// The encoder.
    pub fn get_encoder(&self) -> (r: &Encoder)
        ensures
            r == &self.encoder,
    {
        &self.encoder
    }

    /// Draws a fresh key.
    pub fn key_generate(&mut self)
        ensures
            final(self).key@.len() == KEY_LEN,
            final(self).encoder == old(self).encoder,
            final(self).advantage == old(self).advantage,
    {
        self.key = crate::crypto::key_generate();
    }

    /// Initialises the encoder from a training sample; `exponent` is the
    /// tag-space exponent `r` for IHBE, the bound `ceil(log2(n / ((2A)^2 pi)))`
    /// for BHE.
    pub fn initialize(&mut self, messages: &[Vec<u8>], exponent: u32) -> (res: Result<(), FseError>)
        requires
            messages@.len() <= MAX_MESSAGES,
            encoder_wf(old(self).encoder),
        ensures
            encoder_wf(final(self).encoder),
            final(self).key == old(self).key,
            res is Ok ==> match final(self).encoder {
                Encoder::Ihbe(x) => messages@.len() > 0 ==> exists|hv: Seq<HistType>|
                    is_histogram_of(hv, views(messages@)) && sorted_desc(hv) && #[trigger] ihbe_table(
                        x.local_table@,
                        hv,
                        messages@.len() as int,
                        exponent as nat,
                    ) && ihbe_wide_nonempty(x.local_table@, hv, messages@.len() as int, exponent as nat)
                        && forall|k: int|
                        0 <= k < hv.len() && adjusted_counts(hv, messages@.len() as int, exponent as nat)[k] * two_pow(
                            exponent as nat,
                        ) >= messages@.len() ==> encoder_knows(Encoder::Ihbe(x), #[trigger] hv[k].0@),
                Encoder::Bhe(x) => messages@.len() > 0 ==> x.length == exponent - 1 && (exists|h: Seq<HistType>|
                    is_histogram_of(h, views(messages@)) && #[trigger] bhe_rows(x.local_table@, h)
                        && most_frequent_of(h, x.most_frequent as int)) && forall|i: int|
                    0 <= i < messages@.len() ==> encoder_knows(Encoder::Bhe(x), #[trigger] messages@[i]@),
            },
            old(self).encoder is Ihbe <==> final(self).encoder is Ihbe,
    {
        let res = match &mut self.encoder {
            Encoder::Ihbe(x) => x.initialize(messages, exponent),
            Encoder::Bhe(x) => x.initialize(messages, exponent),
        };
        let ghost enc = self.encoder;
        proof {
            if res is Ok && messages@.len() > 0 {
                match enc {
                    Encoder::Ihbe(x) => {
                        let n = messages@.len() as int;
                        let r = exponent as nat;
                        let hv = choose|hv: Seq<HistType>|
                            is_histogram_of(hv, views(messages@)) && sorted_desc(hv) && #[trigger] ihbe_table(
                                x.local_table@,
                                hv,
                                n,
                                r,
                            ) && ihbe_wide_nonempty(x.local_table@, hv, n, r);
                        assert forall|k: int|
                            0 <= k < hv.len() && adjusted_counts(hv, n, r)[k] * two_pow(r) >= n implies encoder_knows(
                            Encoder::Ihbe(x),
                            #[trigger] hv[k].0@,
                        ) by {
                            assert(x.local_table@[k].0@ == hv[k].0@);
                            assert(x.local_table@[k].1.1 < x.local_table@[k].1.2);
                        }
                    },
                    Encoder::Bhe(x) => {
                        let h = choose|h: Seq<HistType>|
                            is_histogram_of(h, views(messages@)) && #[trigger] bhe_rows(x.local_table@, h)
                                && most_frequent_of(h, x.most_frequent as int);
                        assert forall|i: int| 0 <= i < messages@.len() implies encoder_knows(
                            Encoder::Bhe(x),
                            #[trigger] messages@[i]@,
                        ) by {
                            assert(views(messages@)[i] == messages@[i]@);
                            assert(crate::util::has_key(h, views(messages@)[i]));
                            let k = choose|k: int| 0 <= k < h.len() && #[trigger] h[k].0@ == views(messages@)[i];
                            assert(x.local_table@[k].0@ == h[k].0@);
                        }
                    },
                }
            }
        }
        res
    }
}

/// Seals each plaintext of `plains` under the zero nonce.
fn seal_all(key: &Vec<u8>, plains: &Vec<Vec<u8>>) -> (r: Option<Vec<Vec<u8>>>)
    requires
        key@.len() == KEY_LEN,
        forall|i: int| 0 <= i < plains@.len() ==> #[trigger] plains@[i]@.len() <= PLAIN_MAX,
    ensures
        r matches Some(v) && views(v@) == views(plains@).map_values(|p: Seq<u8>| token_of(key@, zero_nonce(), p)),
{
    let nonce = new_zero_nonce();
    let mut out: Vec<Vec<u8>> = Vec::new();
    let mut i: usize = 0;
    while i < plains.len()
        invariant
            i <= plains@.len(),
            key@.len() == KEY_LEN,
            nonce@ == zero_nonce(),
            forall|i: int| 0 <= i < plains@.len() ==> #[trigger] plains@[i]@.len() <= PLAIN_MAX,
            views(out@) == views(plains@.subrange(0, i as int)).map_values(|p: Seq<u8>| token_of(key@, zero_nonce(), p)),
        decreases plains@.len() - i,
    {
        let t = match seal_token(key, &nonce, &plains[i]) {
            Some(t) => t,
            None => {
                return None;
            },
        };
        let ghost o0 = views(out@);
        out.push(t);
        proof {
            assert(views(out@) =~= o0.push(t@));
            assert(views(plains@.subrange(0, i + 1)) =~= views(plains@.subrange(0, i as int)).push(plains@[i as int]@));
            let f = |p: Seq<u8>| token_of(key@, zero_nonce(), p);
            assert(views(plains@.subrange(0, i + 1)).map_values(f) =~= views(plains@.subrange(0, i as int)).map_values(f).push(f(plains@[i as int]@)));
        }
        i = i + 1;
        assert(views(out@) =~= views(plains@.subrange(0, i as int)).map_values(|p: Seq<u8>| token_of(key@, zero_nonce(), p)));
    }
    assert(plains@.subrange(0, plains@.len() as int) =~= plains@);
    Some(out)
}

impl ContextLPFSE {
    /// Encodes `message` under one homophone and seals it under the zero
    /// nonce: a single ciphertext. `None` for a key that is not 32 bytes, a
    /// message too long to seal, or a message the encoder cannot encode.
    pub fn encrypt(&mut self, message: &Vec<u8>) -> (r: Option<Vec<Vec<u8>>>)
        requires
            encoder_wf(old(self).encoder),
            old(self).encoder is Bhe ==> bhe_wf(old(self).encoder->Bhe_0),
        ensures
            encoder_wf(final(self).encoder),
            final(self).key == old(self).key,
            r is Some <==> (old(self).key@.len() == KEY_LEN && message@.len() + TAG_SUFFIX_LEN <= PLAIN_MAX
                && encoder_knows(old(self).encoder, message@)),
            r matches Some(v) ==> v@.len() == 1 && exists|tag: u64|
                encoder_allows(old(self).encoder, message@, tag) && v@[0]@ == #[trigger] token_of(
                    old(self).key@,
                    zero_nonce(),
                    lp_plain(message@, tag),
                ),
    {
        if self.key.len() != KEY_LEN || message.len() as u64 > PLAIN_MAX - TAG_SUFFIX_LEN as u64 {
            return None;
        }
        let plain = match &mut self.encoder {
            Encoder::Ihbe(x) => x.encode(message),
            Encoder::Bhe(x) => x.encode(message),
        };
        let plain = match plain {
            Some(p) => p,
            None => return None,
        };
        proof {
            lemma_auto_spec_u64_to_from_le_bytes();
        }
        let nonce = new_zero_nonce();
        let ghost tag = choose|tag: u64| encoder_allows(old(self).encoder, message@, tag) && plain@ == #[trigger] lp_plain(message@, tag);
        let c = match seal_token(&self.key, &nonce, &plain) {
            Some(c) => c,
            None => return None,
        };
        let mut out: Vec<Vec<u8>> = Vec::new();
        out.push(c);
        Some(out)
    }
}

impl ContextLPFSE {
    /// Decodes and opens a ciphertext, then strips the homophone tag.
    pub fn decrypt(&self, ciphertext: &Vec<u8>) -> (r: Option<Vec<u8>>)
        ensures
            r is Some ==> self.key@.len() == KEY_LEN,
            r matches Some(p) ==> exists|full: Seq<u8>|
                full.len() >= TAG_SUFFIX_LEN && #[trigger] token_of(self.key@, zero_nonce(), full) == ciphertext@
                    && p@ == full.subrange(0, full.len() - TAG_SUFFIX_LEN),
            forall|m: Seq<u8>, tag: u64|
                self.key@.len() == KEY_LEN && m.len() + TAG_SUFFIX_LEN <= PLAIN_MAX && #[trigger] token_of(
                    self.key@,
                    zero_nonce(),
                    lp_plain(m, tag),
                ) == ciphertext@ ==> r is Some && r->0@ == m,
    {
        let nonce = new_zero_nonce();
        let plain = match open_token(&self.key, &nonce, ciphertext) {
            Some(p) => p,
            None => {
                proof {
                    assert forall|m: Seq<u8>, tag: u64|
                        self.key@.len() == KEY_LEN && m.len() + TAG_SUFFIX_LEN <= PLAIN_MAX && #[trigger] token_of(
                            self.key@,
                            zero_nonce(),
                            lp_plain(m, tag),
                        ) == ciphertext@ implies false by {
                        lemma_strip_lp_plain(m, tag);
                    }
                }
                return None;
            },
        };
        let r = strip_tag(&plain);
        proof {
            assert forall|m: Seq<u8>, tag: u64|
                self.key@.len() == KEY_LEN && m.len() + TAG_SUFFIX_LEN <= PLAIN_MAX && #[trigger] token_of(
                    self.key@,
                    zero_nonce(),
                    lp_plain(m, tag),
                ) == ciphertext@ implies r is Some && r->0@ == m by {
                lemma_strip_lp_plain(m, tag);
                assert(plain@ == lp_plain(m, tag));
            }
        }
        r
    }

    /// The ciphertexts that a search for `message` asks the store for: every
    /// homophone of `message`, sealed under the zero nonce. `None` for a key
    /// that is not 32 bytes, a message too long to seal, or a message missing
    /// from the encoder's table.
    pub fn search_tokens(&self, message: &Vec<u8>) -> (r: Option<Vec<Vec<u8>>>)
        requires
            encoder_wf(self.encoder),
            self.encoder is Bhe ==> bhe_wf(self.encoder->Bhe_0),
        ensures
            r is Some <==> (self.key@.len() == KEY_LEN && message@.len() + TAG_SUFFIX_LEN <= PLAIN_MAX
                && encoder_has(self.encoder, message@)),
            r matches Some(v) ==> views(v@) == encoder_range(self.encoder, message@).map_values(
                |p: Seq<u8>| token_of(self.key@, zero_nonce(), p),
            ),
    {
        if self.key.len() != KEY_LEN || message.len() as u64 > PLAIN_MAX - TAG_SUFFIX_LEN as u64 {
            return None;
        }
        let plains = match &self.encoder {
            Encoder::Ihbe(x) => {
                let v = x.encode_all(message);
                proof {
                    if v is Some {
                        let i = choose|i: int| 0 <= i < x.local_table@.len() && #[trigger] x.local_table@[i].0@ == message@;
                        assert(views(v->0@) == encoder_range(self.encoder, message@));
                    }
                }
                v
            },
            Encoder::Bhe(x) => x.encode_all(message),
        };
        let plains = match plains {
            Some(p) => p,
            None => return None,
        };
        proof {
            lemma_auto_spec_u64_to_from_le_bytes();
            assert(views(plains@) == encoder_range(self.encoder, message@));
            assert forall|i: int| 0 <= i < plains@.len() implies #[trigger] plains@[i]@.len() <= PLAIN_MAX by {
                assert(views(plains@)[i] == plains@[i]@);
                let er = encoder_range(self.encoder, message@);
                match self.encoder {
                    Encoder::Ihbe(x) => {
                        let j = choose|j: int| 0 <= j < x.local_table@.len() && #[trigger] x.local_table@[j].0@ == message@;
                        let row = x.local_table@[j].1;
                        lemma_strip_lp_plain(message@, (row.1 + i) as u64);
                    },
                    Encoder::Bhe(x) => {
                        lemma_strip_lp_plain(message@, i as u64);
                    },
                }
            }
        }
        seal_all(&self.key, &plains)
    }
}

/// IHBE interval disjointness: the intervals of the table follow one
/// another without gap or overlap from 0, each no shorter than empty, and the
/// last ends at `round(2^r * A / n)` where `A` is the sum of the adjusted
/// counts; when `A == n` they thus partition `[0, 2^r)`.
pub proof fn lemma_ihbe_intervals_partition(t: Seq<(Vec<u8>, IhbeKeyType)>, hv: Seq<HistType>, n: int, r: nat)
    requires
        ihbe_table(t, hv, n, r),
        t.len() >= 1,
        n >= 1,
        forall|k: int| 0 <= k < adjusted_counts(hv, n, r).len() ==> #[trigger] adjusted_counts(hv, n, r)[k] >= 0,
    ensures
        t[0].1.1 == 0,
        forall|k: int| 0 <= k < t.len() - 1 ==> #[trigger] t[k].1.2 == t[k + 1].1.1,
        forall|k: int| 0 <= k < t.len() ==> #[trigger] t[k].1.1 <= t[k].1.2,
        t[t.len() - 1].1.2 == round_div(two_pow(r) * seq_sum(adjusted_counts(hv, n, r)), n),
        seq_sum(adjusted_counts(hv, n, r)) == n ==> t[t.len() - 1].1.2 == two_pow(r),
{
    let adj = adjusted_counts(hv, n, r);
    lemma_adjust_len(counts(hv), n, r);
    assert(adj.len() == t.len());
    assert(t[0].0@ == hv[0].0@);
    assert(adj.subrange(0, 0) =~= Seq::<int>::empty());
    assert((n) / (2 * n) == 0) by (nonlinear_arith)
        requires n >= 1;
    assert forall|k: int| 0 <= k < t.len() - 1 implies #[trigger] t[k].1.2 == t[k + 1].1.1 by {
        assert(t[k].0@ == hv[k].0@);
        assert(t[k + 1].0@ == hv[k + 1].0@);
    }
    assert forall|k: int| 0 <= k < t.len() implies #[trigger] t[k].1.1 <= t[k].1.2 by {
        assert(t[k].0@ == hv[k].0@);
        assert(adj.subrange(0, k + 1).drop_last() =~= adj.subrange(0, k));
        let a = seq_sum(adj.subrange(0, k));
        let b = seq_sum(adj.subrange(0, k + 1));
        assert(b == a + adj[k]);
        let p = two_pow(r) as int;
        lemma_two_pow_mono(0, r);
        assert(p * a <= p * b) by (nonlinear_arith)
            requires a <= b, p >= 0;
        assert((2 * (p * a) + n) / (2 * n) <= (2 * (p * b) + n) / (2 * n)) by (nonlinear_arith)
            requires p * a <= p * b, n >= 1;
    }
    let last = t.len() - 1;
    assert(t[last].0@ == hv[last].0@);
    assert(adj.len() == t.len()) by {
        assert(adj.len() == adjust_run(counts(hv), n, r).0.len());
        lemma_adjust_len(counts(hv), n, r);
    }
    assert(adj.subrange(0, last + 1) =~= adj);
    if seq_sum(adj) == n {
        let p = two_pow(r) as int;
        assert((2 * (p * n) + n) / (2 * n) == p) by (nonlinear_arith)
            requires n >= 1, p >= 0;
    }
}

proof fn lemma_adjust_len(cs: Seq<int>, n: int, r: nat)
    ensures
        adjust_run(cs, n, r).0.len() == cs.len(),
    decreases cs.len(),
{
    if cs.len() > 0 {
        lemma_adjust_len(cs.drop_last(), n, r);
    }
}

/// Search soundness of the homophonic schemes: `encoder_range`, whose
/// sealed plaintexts `search_tokens` returns, is an `lp_range`, and every
/// plaintext of an `lp_range` of `m` is `m | le(tag)` for some tag, which
/// `decrypt` maps back to `m`.
pub proof fn lemma_search_plaintexts_are_tagged(m: Seq<u8>, start: u64, len: nat, k: int)
    requires
        0 <= k < len,
    ensures
        exists|tag: u64| #[trigger] lp_plain(m, tag) == lp_range(m, start, len)[k],
{
    assert(lp_plain(m, (start + k) as u64) == lp_range(m, start, len)[k]);
}
} // verus!
