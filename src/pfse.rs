//! The partition-based frequency-smoothing scheme.
//!
//! The training histogram is cut into partitions whose cumulative frequency
//! budgets follow a decreasing law; each partition is then flattened by giving
//! every member a set of ciphertexts and a repeat count, and padded with dummy
//! messages.

use crate::crypto::{
    base64_of, key_generate, new_zero_nonce, open_token, random_message, seal_token, token_of, zero_nonce,
    DEFAULT_RANDOM_LEN, KEY_LEN, PLAIN_MAX,
};
use crate::fixed::{ceil_div, round_div, FIXED_ONE, MAX_MESSAGES};
use crate::table::{add_value, get_values, lookup, table_has, table_keys_distinct};
use crate::util::{
    any_message, build_histogram, build_histogram_vec, bytes_eq, copy_range, count_where, has_key, hist_view,
    lemma_entry_le_total, lemma_sum_where_concat, lemma_sum_where_insert, lemma_sum_where_push, lemma_sum_where_update,
    lemma_reordered_histogram, lemma_sum_where_view, only, push_all, sorted_desc, is_histogram_of, sum_where, total,
    views, HistType,
};
use vstd::bytes::{lemma_auto_spec_u64_to_from_le_bytes, spec_u64_to_le_bytes, u64_to_le_bytes};
use vstd::prelude::*;

verus! {

/// An entry of the local table: partition index, size of the ciphertext set
/// of the message in that partition, and how many times each of those
/// ciphertexts is repeated in the flattened stream.
pub type ValueType = (usize, usize, usize);

/// What is known of a partition besides its members.
#[derive(Clone, Debug)]
pub struct PartitionMeta {
    /// Position of the partition, counted from 1.
    pub index: usize,
    /// Cumulative frequency budget of the partition, in fixed point.
    pub cumulative_frequency: u64,
    /// Sum of the counts of the members.
    pub message_num: usize,
}

/// A partition: a slice of the ordered histogram and its metadata.
#[derive(Clone, Debug)]
pub struct Partition {
    pub inner: Vec<HistType>,
    pub meta: PartitionMeta,
}

impl Partition {
    /// A partition of the given members; its message count is their total.
    pub fn new(inner: Vec<HistType>, index: usize, cumulative_frequency: u64) -> (r: Partition)
        requires
            total(inner@) <= usize::MAX,
        ensures
            r.inner@ == inner@,
            r.meta.index == index,
            r.meta.cumulative_frequency == cumulative_frequency,
            r.meta.message_num == total(inner@),
    {
        let sum = total_of(&inner);
        Partition { inner, meta: PartitionMeta { index, cumulative_frequency, message_num: sum } }
    }
}

/// A row of a frequency table: the member's message, and its count over
/// `n` in fixed point.
pub open spec fn freq_row(row: (Vec<u8>, u64), e: HistType, n: int) -> bool {
    row.0@ == e.0@ && row.1 == (e.1 as int) * (FIXED_ONE as int) / n
}

impl Partition {
    /// Each member with its frequency within the partition, in fixed point
    /// (rounded down).
    pub fn build_frequency_table(&self) -> (r: Vec<(Vec<u8>, u64)>)
        requires
            self.meta.message_num >= 1,
            total(self.inner@) <= self.meta.message_num,
        ensures
            r@.len() == self.inner@.len(),
            forall|k: int| 0 <= k < r@.len() ==> #[trigger] freq_row(r@[k], self.inner@[k], self.meta.message_num as int),
    {
        let n = self.meta.message_num as u128;
        let mut out: Vec<(Vec<u8>, u64)> = Vec::new();
        let mut k: usize = 0;
        while k < self.inner.len()
            invariant
                k <= self.inner@.len(),
                n == self.meta.message_num,
                n >= 1,
                total(self.inner@) <= self.meta.message_num,
                out@.len() == k,
                forall|j: int| 0 <= j < k ==> #[trigger] freq_row(out@[j], self.inner@[j], self.meta.message_num as int),
            decreases self.inner@.len() - k,
        {
            let c = self.inner[k].1 as u128;
            proof {
                lemma_entry_le_total(self.inner@, k as int);
                assert(c * FIXED_ONE <= 18446744073709551615 * FIXED_ONE) by (nonlinear_arith)
                    requires c <= 18446744073709551615;
                let ci = c as int;
                let ni = n as int;
                assert(ci * FIXED_ONE <= ni * FIXED_ONE) by (nonlinear_arith)
                    requires ci <= ni;
                assert(ci * FIXED_ONE / ni <= FIXED_ONE) by (nonlinear_arith)
                    requires ci * FIXED_ONE <= ni * FIXED_ONE, ni >= 1;
            }
            let key = self.inner[k].0.clone();
            let v = (c * (FIXED_ONE as u128) / n) as u64;
            let ghost o0 = out@;
            out.push((key, v));
            proof {
                assert(freq_row(out@[k as int], self.inner@[k as int], self.meta.message_num as int));
                assert forall|j: int| 0 <= j < k + 1 implies #[trigger] freq_row(
                    out@[j],
                    self.inner@[j],
                    self.meta.message_num as int,
                ) by {
                    if j < k {
                        assert(out@[j] == o0[j]);
                    }
                }
            }
            k = k + 1;
        }
        out
    }
}

/// Sum, over the partitions, of the counts of the members that satisfy `p`.
pub open spec fn parts_sum(ps: Seq<Partition>, p: spec_fn(Seq<u8>) -> bool) -> nat
    decreases ps.len(),
{
    if ps.len() == 0 {
        0
    } else {
        parts_sum(ps.drop_last(), p) + sum_where(ps.last().inner@, p)
    }
}

/// Budget of partition `g` (from 1) in fixed point: the law's value times the scale.
pub open spec fn budget(law: Seq<u64>, scale: u64, g: int) -> int {
    law[g - 1] as int * scale as int / FIXED_ONE as int
}

/// The count that leaves a split entry: `floor(count * diff)`, where `diff`
/// is by how much the cumulative frequency `sum / n` overshoots the budget.
pub open spec fn split_off(count: int, sum: int, b: int, n: int) -> int {
    count * (sum * FIXED_ONE - b * n) / (n * FIXED_ONE)
}

/// The partitions hold every member with a positive count, and their counts
/// add up, message by message, to those of `input`.
pub open spec fn covers(ps: Seq<Partition>, input: Seq<Seq<u8>>) -> bool {
    &&& forall|p: spec_fn(Seq<u8>) -> bool| #[trigger] parts_sum(ps, p) == count_where(input, p)
    &&& forall|g: int, k: int|
        0 <= g < ps.len() && 0 <= k < ps[g].inner@.len() ==> #[trigger] ps[g].inner@[k].1 >= 1
    &&& forall|g: int| 0 <= g < ps.len() ==> #[trigger] ps[g].inner@.len() >= 1
    &&& forall|g: int| 0 <= g < ps.len() ==> #[trigger] ps[g].meta.message_num == total(ps[g].inner@)
    &&& forall|g: int| 0 <= g < ps.len() ==> #[trigger] ps[g].meta.index == g + 1
}

proof fn lemma_parts_sum_push(ps: Seq<Partition>, q: Partition, p: spec_fn(Seq<u8>) -> bool)
    ensures
        parts_sum(ps.push(q), p) == parts_sum(ps, p) + sum_where(q.inner@, p),
{
    assert(ps.push(q).drop_last() =~= ps);
}

proof fn lemma_positive_total(h: Seq<HistType>)
    requires
        forall|k: int| 0 <= k < h.len() ==> #[trigger] h[k].1 >= 1,
    ensures
        total(h) >= h.len(),
    decreases h.len(),
{
    if h.len() > 0 {
        lemma_positive_total(h.drop_last());
    }
}

proof fn lemma_push_part(ps0: Seq<Partition>, part: Partition, ps: Seq<Partition>)
    requires
        ps == ps0.push(part),
        part.inner@.len() >= 1,
        forall|k: int| 0 <= k < part.inner@.len() ==> #[trigger] part.inner@[k].1 >= 1,
        forall|g: int, k: int|
            0 <= g < ps0.len() && 0 <= k < ps0[g].inner@.len() ==> #[trigger] ps0[g].inner@[k].1 >= 1,
        forall|g: int| 0 <= g < ps0.len() ==> #[trigger] ps0[g].inner@.len() >= 1,
    ensures
        forall|g: int, k: int|
            0 <= g < ps.len() && 0 <= k < ps[g].inner@.len() ==> #[trigger] ps[g].inner@[k].1 >= 1,
        forall|g: int| 0 <= g < ps.len() ==> #[trigger] ps[g].inner@.len() >= 1,
{
    assert forall|g: int, k: int| 0 <= g < ps.len() && 0 <= k < ps[g].inner@.len() implies #[trigger] ps[g].inner@[k].1 >= 1 by {
        if g < ps0.len() {
            assert(ps[g] == ps0[g]);
        }
    }
    assert forall|g: int| 0 <= g < ps.len() implies #[trigger] ps[g].inner@.len() >= 1 by {
        if g < ps0.len() {
            assert(ps[g] == ps0[g]);
        }
    }
}

/// Sum of the counts of `h`.
pub fn total_of(h: &Vec<HistType>) -> (r: usize)
    requires
        total(h@) <= usize::MAX,
    ensures
        r == total(h@),
{
    let mut sum: usize = 0;
    let mut k: usize = 0;
    while k < h.len()
        invariant
            k <= h@.len(),
            sum == total(h@.subrange(0, k as int)),
            total(h@) <= usize::MAX,
        decreases h@.len() - k,
    {
        proof {
            let s = h@.subrange(0, k as int);
            assert(h@.subrange(0, k + 1) =~= s.push(h@[k as int]));
            lemma_sum_where_push(s, h@[k as int], any_message());
            lemma_sum_where_concat(h@.subrange(0, k + 1), h@.subrange(k + 1, h@.len() as int), any_message());
            assert(h@ =~= h@.subrange(0, k + 1) + h@.subrange(k + 1, h@.len() as int));
        }
        sum = sum + h[k].1;
        k = k + 1;
    }
    assert(h@.subrange(0, h@.len() as int) =~= h@);
    sum
}

/// A partition as plain values: members, index, cumulative frequency.
pub type PartView = (Seq<(Seq<u8>, usize)>, int, int);

/// The plain values of a partition.
pub open spec fn part_view(p: Partition) -> PartView {
    (hist_view(p.inner@), p.meta.index as int, p.meta.cumulative_frequency as int)
}

/// The plain values of the partitions.
pub open spec fn parts_view(ps: Seq<Partition>) -> Seq<PartView> {
    ps.map_values(|p: Partition| part_view(p))
}

/// Sum of the counts of a histogram given as plain values.
pub open spec fn vtotal(h: Seq<(Seq<u8>, usize)>) -> int
    decreases h.len(),
{
    if h.len() == 0 {
        0
    } else {
        vtotal(h.drop_last()) + h.last().1
    }
}

/// Where a partition that starts before `j`, with counts `s` so far, ends:
/// it takes entries until their cumulative frequency `s / n` reaches the
/// budget `b / FIXED_ONE` (`bn` is `b * n`), or the histogram ends.
pub open spec fn run_end(h: Seq<(Seq<u8>, usize)>, j: int, s: int, bn: int) -> int
    decreases h.len() - j,
{
    if 0 <= j < h.len() && s * FIXED_ONE < bn {
        run_end(h, j + 1, s + h[j].1, bn)
    } else {
        j
    }
}

/// Where a remainder of count `c` is re-inserted from position `p` on:
/// after every entry of count at least `c`.
pub open spec fn insert_pos(h: Seq<(Seq<u8>, usize)>, p: int, c: int) -> int
    decreases h.len() - p,
{
    if 0 <= p < h.len() && h[p].1 >= c {
        insert_pos(h, p + 1, c)
    } else {
        p
    }
}

/// Partition `group` takes the whole remaining tail: the law has no value
/// for it, or its budget times the sample size is at most 1.
pub open spec fn is_tail(law: Seq<u64>, scale: u64, group: int, n: int) -> bool {
    group > law.len() || budget(law, scale, group) * n <= FIXED_ONE
}

/// The partitions cut from the ordered histogram `h`, from entry `i` and
/// partition `group` on. A partition that is not the tail takes entries
/// until its budget is reached; when the last one overshoots by `diff`, it
/// keeps `count - floor(count * diff)` of it, and the remaining
/// `floor(count * diff)`, if any, is re-inserted after the entries of at
/// least that count.
pub open spec fn cut_spec(h: Seq<(Seq<u8>, usize)>, i: int, group: int, n: int, law: Seq<u64>, scale: u64) -> Seq<
    PartView,
>
    decreases law.len() + 1 - group,
{
    if i < 0 || i >= h.len() || group < 1 || n < 1 {
        Seq::empty()
    } else if is_tail(law, scale, group, n) {
        seq![(h.subrange(i, h.len() as int), group, vtotal(h.subrange(i, h.len() as int)) * FIXED_ONE / n)]
    } else {
        let b = budget(law, scale, group);
        let bn = b * n;
        let j = run_end(h, i, 0, bn);
        let s = vtotal(h.subrange(i, j));
        if s * FIXED_ONE > bn && i < j <= h.len() {
            let count = h[j - 1].1 as int;
            let second = count * (s * FIXED_ONE - bn) / (n * FIXED_ONE);
            let h1 = h.update(j - 1, (h[j - 1].0, (count - second) as usize));
            let h2 = if second != 0 {
                h1.insert(insert_pos(h1, j, second), (h[j - 1].0, second as usize))
            } else {
                h1
            };
            seq![(h1.subrange(i, j), group, b)] + cut_spec(h2, j, group + 1, n, law, scale)
        } else {
            seq![(h.subrange(i, j), group, b)] + cut_spec(h, j, group + 1, n, law, scale)
        }
    }
}

proof fn lemma_vtotal_total(h: Seq<HistType>)
    ensures
        vtotal(hist_view(h)) == total(h),
    decreases h.len(),
{
    if h.len() > 0 {
        lemma_vtotal_total(h.drop_last());
        assert(hist_view(h).drop_last() =~= hist_view(h.drop_last()));
        lemma_sum_where_push(h.drop_last(), h.last(), any_message());
        assert(h.drop_last().push(h.last()) =~= h);
    }
}

/// Cuts the ordered histogram `hv` into partitions, starting at group 1.
/// `law[g - 1]` is the law's value for partition `g`, in fixed point.
#[verifier::rlimit(40)]
pub fn cut_partitions(hv: Vec<HistType>, n: usize, law: &[u64], scale: u64) -> (ps: Vec<Partition>)
    requires
        1 <= n <= MAX_MESSAGES,
        total(hv@) == n,
        forall|k: int| 0 <= k < hv@.len() ==> #[trigger] hv@[k].1 >= 1,
        forall|g: int| 0 <= g < law@.len() ==> #[trigger] law@[g] <= FIXED_ONE,
        law@.len() < usize::MAX,
    ensures
        forall|p: spec_fn(Seq<u8>) -> bool| #[trigger] parts_sum(ps@, p) == sum_where(hv@, p),
        forall|g: int, k: int|
            0 <= g < ps@.len() && 0 <= k < ps@[g].inner@.len() ==> #[trigger] ps@[g].inner@[k].1 >= 1,
        forall|g: int| 0 <= g < ps@.len() ==> #[trigger] ps@[g].inner@.len() >= 1,
        forall|g: int| 0 <= g < ps@.len() ==> #[trigger] ps@[g].meta.message_num == total(ps@[g].inner@),
        forall|g: int| 0 <= g < ps@.len() ==> #[trigger] ps@[g].meta.index == g + 1,
        forall|g: int|
            0 <= g < ps@.len() - 1 ==> #[trigger] ps@[g].meta.cumulative_frequency == budget(law@, scale, g + 1),
        parts_view(ps@) == cut_spec(hist_view(hv@), 0, 1, n as int, law@, scale),
{
    let mut hv = hv;
    let ghost hv0 = hv@;
    let mut ps: Vec<Partition> = Vec::new();
    let mut i: usize = 0;
    let mut group: usize = 1;
    let wide_n = n as u128;
    let one = FIXED_ONE as u128;
    assert(hv@.subrange(0, hv@.len() as int) =~= hv@);
    assert(parts_sum(ps@, any_message()) == 0);
    assert(parts_view(ps@) =~= Seq::<PartView>::empty());
    assert(Seq::<PartView>::empty() + cut_spec(hist_view(hv@), 0, 1, n as int, law@, scale) =~= cut_spec(hist_view(hv@), 0, 1, n as int, law@, scale));
    while i < hv.len()
        invariant
            1 <= n <= MAX_MESSAGES,
            wide_n == n,
            one == FIXED_ONE,
            i <= hv@.len(),
            i < hv@.len() ==> group == ps@.len() + 1,
            ps@.len() <= group,
            1 <= group <= law@.len() + 1,
            law@.len() < usize::MAX,
            forall|g: int| 0 <= g < law@.len() ==> #[trigger] law@[g] <= FIXED_ONE,
            forall|k: int| 0 <= k < hv@.len() ==> #[trigger] hv@[k].1 >= 1,
            parts_sum(ps@, any_message()) + total(hv@.subrange(i as int, hv@.len() as int)) == n,
            forall|p: spec_fn(Seq<u8>) -> bool|
                #[trigger] parts_sum(ps@, p) + sum_where(hv@.subrange(i as int, hv@.len() as int), p)
                    == sum_where(hv0, p),
            forall|g: int, k: int|
                0 <= g < ps@.len() && 0 <= k < ps@[g].inner@.len() ==> #[trigger] ps@[g].inner@[k].1 >= 1,
            forall|g: int| 0 <= g < ps@.len() ==> #[trigger] ps@[g].inner@.len() >= 1,
            forall|g: int| 0 <= g < ps@.len() ==> #[trigger] ps@[g].meta.message_num == total(ps@[g].inner@),
            forall|g: int| 0 <= g < ps@.len() ==> #[trigger] ps@[g].meta.index == g + 1,
            forall|g: int|
                0 <= g < ps@.len() && (g < ps@.len() - 1 || i < hv@.len()) ==> #[trigger] ps@[g].meta.cumulative_frequency
                    == budget(law@, scale, g + 1),
            parts_view(ps@) + cut_spec(hist_view(hv@), i as int, group as int, n as int, law@, scale) == cut_spec(
                hist_view(hv0),
                0,
                1,
                n as int,
                law@,
                scale,
            ),
        decreases law@.len() + 1 - group, hv@.len() - i,
    {
        let ghost rest = hv@.subrange(i as int, hv@.len() as int);
        let ghost hv_before = hv@;
        let ghost ps_before = ps@;
        let tail = group > law.len() || ({
            proof {
                let l = law@[group - 1] as int;
                assert(l * scale <= FIXED_ONE * scale) by (nonlinear_arith)
                    requires l <= FIXED_ONE, scale >= 0;
                assert(FIXED_ONE * scale <= FIXED_ONE * 18446744073709551615) by (nonlinear_arith)
                    requires scale <= 18446744073709551615;
            }
            let b = (law[group - 1] as u128) * (scale as u128) / one;
            proof {
                let l = law@[group - 1] as int;
                assert(b <= scale) by (nonlinear_arith)
                    requires b == l * scale / (FIXED_ONE as int), l * scale <= FIXED_ONE * scale;
                assert(b * n <= 18446744073709551615 * 1099511627776) by (nonlinear_arith)
                    requires b <= 18446744073709551615, n <= 1099511627776;
            }
            b * wide_n <= one
        });
        if tail {
            let members = copy_range(&hv, i, hv.len());
            proof {
                assert forall|p: spec_fn(Seq<u8>) -> bool| #[trigger] sum_where(members@, p) == sum_where(rest, p) by {
                    lemma_sum_where_view(members@, rest, p);
                }
                assert(total(members@) == total(rest));
                lemma_positive_total(members@);
            }
            let rest_total = total_of(&members);
            proof {
                assert(rest_total <= n);
                assert(rest_total * FIXED_ONE <= n * FIXED_ONE) by (nonlinear_arith)
                    requires rest_total <= n;
                let rt = rest_total as int;
                let nn = n as int;
                assert(rt * FIXED_ONE / nn <= FIXED_ONE) by (nonlinear_arith)
                    requires rt * FIXED_ONE <= nn * FIXED_ONE, nn >= 1;
            }
            let freq = (rest_total as u128) * one / wide_n;
            let part = Partition::new(members, group, freq as u64);
            ps.push(part);
            proof {
                assert forall|k: int| 0 <= k < part.inner@.len() implies #[trigger] part.inner@[k].1 >= 1 by {
                    assert(part.inner@[k].1 == hv@[i + k].1);
                }
                lemma_push_part(ps_before, part, ps@);
                assert forall|p: spec_fn(Seq<u8>) -> bool| #[trigger] parts_sum(ps@, p) == sum_where(hv0, p) by {
                    lemma_parts_sum_push(ps_before, part, p);
                }
                lemma_parts_sum_push(ps_before, part, any_message());
                assert(ps@.last() == part);
            }
            proof {
                let hh = hist_view(hv@);
                assert(hh.subrange(i as int, hh.len() as int) =~= hist_view(rest));
                lemma_vtotal_total(rest);
                assert(is_tail(law@, scale, group as int, n as int));
                assert(cut_spec(hh, i as int, group as int, n as int, law@, scale) == seq![part_view(part)]);
                assert(parts_view(ps@) =~= parts_view(ps_before).push(part_view(part)));
                assert(parts_view(ps@) + cut_spec(hh, hh.len() as int, group as int, n as int, law@, scale) =~= parts_view(
                    ps_before,
                ) + cut_spec(hh, i as int, group as int, n as int, law@, scale));
            }
            i = hv.len();
            assert(hv@.subrange(i as int, hv@.len() as int) =~= Seq::<HistType>::empty());
            assert(parts_sum(ps@, any_message()) == sum_where(hv0, any_message()));
        } else {
            proof {
                let l = law@[group - 1] as int;
                assert(l * scale <= FIXED_ONE * scale) by (nonlinear_arith)
                    requires l <= FIXED_ONE, scale >= 0;
                assert(FIXED_ONE * scale <= FIXED_ONE * 18446744073709551615) by (nonlinear_arith)
                    requires scale <= 18446744073709551615;
            }
            let b = (law[group - 1] as u128) * (scale as u128) / one;
            proof {
                assert(law@[group - 1] <= FIXED_ONE);
                let l = law@[group - 1] as int;
                assert(l * scale <= FIXED_ONE * scale) by (nonlinear_arith)
                    requires l <= FIXED_ONE, scale >= 0;
                assert(b == l * scale / (FIXED_ONE as int));
                assert(b <= scale) by (nonlinear_arith)
                    requires b == l * scale / (FIXED_ONE as int), l * scale <= FIXED_ONE * scale;
                assert(b * n <= (scale as int) * n) by (nonlinear_arith) requires b <= scale;
            }
            let bn = b * wide_n;
            let ghost hh = hist_view(hv@);
            proof {
                assert(b == budget(law@, scale, group as int));
                assert(!is_tail(law@, scale, group as int, n as int));
            }
            let mut j: usize = i;
            let mut s: u128 = 0;
            let mut prev: u128 = 0;
            proof {
                assert(s * FIXED_ONE <= 1099511627776 * 4294967296) by (nonlinear_arith)
                    requires s <= 1099511627776;
            }
            while j < hv.len() && s * one < bn
                invariant
                    i <= j <= hv@.len(),
                    one == FIXED_ONE,
                    s == total(hv@.subrange(i as int, j as int)),
                    total(hv@.subrange(i as int, hv@.len() as int)) <= n,
                    n <= MAX_MESSAGES,
                    bn > one,
                    j > i ==> prev * one < bn && s == prev + hv@[j - 1].1,
                    s <= n,
                    hh == hist_view(hv@),
                    run_end(hh, j as int, s as int, bn as int) == run_end(hh, i as int, 0, bn as int),
                decreases hv@.len() - j,
            {
                proof {
                    let a = hv@.subrange(i as int, j as int);
                    assert(hv@.subrange(i as int, j + 1) =~= a.push(hv@[j as int]));
                    lemma_sum_where_push(a, hv@[j as int], any_message());
                    lemma_sum_where_concat(hv@.subrange(i as int, j + 1), hv@.subrange(j + 1, hv@.len() as int), any_message());
                    assert(hv@.subrange(i as int, hv@.len() as int) =~= hv@.subrange(i as int, j + 1) + hv@.subrange(j + 1, hv@.len() as int));
                }
                prev = s;
                s = s + hv[j].1 as u128;
                j = j + 1;
            }
            proof {
                assert(j > i) by {
                    if j == i {
                        assert(s == 0);
                    }
                }
                assert(run_end(hh, j as int, s as int, bn as int) == j);
                lemma_vtotal_total(hv@.subrange(i as int, j as int));
                assert(hh.subrange(i as int, j as int) =~= hist_view(hv@.subrange(i as int, j as int)));
                assert(hv@.subrange(i as int, hv@.len() as int) =~= hv@.subrange(i as int, j as int) + hv@.subrange(j as int, hv@.len() as int));
                assert forall|p: spec_fn(Seq<u8>) -> bool| #[trigger] sum_where(rest, p) == sum_where(hv@.subrange(i as int, j as int), p) + sum_where(hv@.subrange(j as int, hv@.len() as int), p) by {
                    lemma_sum_where_concat(hv@.subrange(i as int, j as int), hv@.subrange(j as int, hv@.len() as int), p);
                }
            }
            let ghost left = hv@.subrange(i as int, j as int);
            let ghost right = hv@.subrange(j as int, hv@.len() as int);
            if s * one > bn {
                let count = hv[j - 1].1 as u128;
                proof {
                    assert(count <= n) by {
                        assert(s <= total(rest));
                    }
                    let x = s * FIXED_ONE - bn;
                    assert(x < count * FIXED_ONE);
                    assert(count * x < count * count * FIXED_ONE) by (nonlinear_arith)
                        requires x < count * FIXED_ONE, count >= 1;
                    assert(count * count * FIXED_ONE <= count * n * FIXED_ONE) by (nonlinear_arith)
                        requires count <= n;
                    assert(count * x / (n * FIXED_ONE) < count) by (nonlinear_arith)
                        requires count * x < count * n * FIXED_ONE, n >= 1;
                    assert(count * x <= 1099511627776 * 1099511627776 * 4294967296) by (nonlinear_arith)
                        requires count * x < count * n * FIXED_ONE, n <= 1099511627776, count <= n;
                }
                let second = count * (s * one - bn) / (wide_n * one);
                let first = count - second;
                let key = hv[j - 1].0.clone();
                let key2 = hv[j - 1].0.clone();
                let ghost old_entry = hv@[j - 1];
                hv.set(j - 1, (key, first as usize));
                let ghost h1 = hist_view(hv@);
                proof {
                    assert(h1 =~= hh.update(j - 1, (hh[j - 1].0, (count - second) as usize)));
                }
                let members = copy_range(&hv, i, j);
                let ghost left2 = hv@.subrange(i as int, j as int);
                proof {
                    assert(left2 =~= left.update(j - 1 - i, (key, first as usize)));
                    assert(hv@.subrange(j as int, hv@.len() as int) =~= right);
                    assert forall|k: int| 0 <= k < members@.len() implies #[trigger] members@[k].1 >= 1 by {
                        assert(members@[k].1 == hv@[i + k].1);
                    }
                }
                proof {
                    lemma_sum_where_view(members@, left2, any_message());
                    lemma_sum_where_update(left, j - 1 - i, (key, first as usize), any_message());
                    assert(old_entry == left[j - 1 - i]);
                    lemma_sum_where_concat(left, right, any_message());
                }
                let part = Partition::new(members, group, b as u64);
                ps.push(part);
                proof {
                    lemma_push_part(ps_before, part, ps@);
                }
                let mut pos: usize = j;
                while pos < hv.len() && hv[pos].1 as u128 >= second
                    invariant
                        j <= pos <= hv@.len(),
                        h1 == hist_view(hv@),
                        insert_pos(h1, pos as int, second as int) == insert_pos(h1, j as int, second as int),
                    decreases hv@.len() - pos,
                {
                    pos = pos + 1;
                }
                let ghost before_insert = hv@;
                let ghost e1 = (key, first as usize);
                let ghost e2 = (key2, second as usize);
                if second != 0 {
                    hv.insert(pos, (key2, second as usize));
                    proof {
                        assert(hv@ =~= before_insert.insert(pos as int, e2));
                        assert(hv@.subrange(j as int, hv@.len() as int) =~= right.insert(pos - j, e2));
                    }
                }
                proof {
                    assert(insert_pos(h1, pos as int, second as int) == pos);
                    let h2 = if second != 0 {
                        h1.insert(pos as int, (hh[j - 1].0, second as usize))
                    } else {
                        h1
                    };
                    assert(hist_view(hv@) =~= h2) by {
                        if second != 0 {
                            assert(hv@ == before_insert.insert(pos as int, e2));
                        }
                    }
                    assert(hist_view(part.inner@) == h1.subrange(i as int, j as int)) by {
                        assert(hist_view(left2) =~= h1.subrange(i as int, j as int));
                    }
                    assert(part_view(part) == (h1.subrange(i as int, j as int), group as int, b as int));
                    assert(cut_spec(hh, i as int, group as int, n as int, law@, scale) == seq![
                        (h1.subrange(i as int, j as int), group as int, b as int),
                    ] + cut_spec(h2, j as int, group + 1, n as int, law@, scale));
                    assert(parts_view(ps@) =~= parts_view(ps_before).push(part_view(part)));
                    assert(parts_view(ps@) + cut_spec(h2, j as int, group + 1, n as int, law@, scale) =~= parts_view(
                        ps_before,
                    ) + cut_spec(hh, i as int, group as int, n as int, law@, scale));
                }
                proof {
                    assert(old_entry == left[j - 1 - i]);
                    assert(e1.0@ == old_entry.0@);
                    assert(e2.0@ == old_entry.0@);
                    assert(first + second == count);
                    assert forall|p: spec_fn(Seq<u8>) -> bool| #[trigger] parts_sum(ps@, p) + sum_where(hv@.subrange(j as int, hv@.len() as int), p)
                        == sum_where(hv0, p) by {
                        lemma_parts_sum_push(ps_before, part, p);
                        lemma_sum_where_view(part.inner@, left2, p);
                        lemma_sum_where_update(left, j - 1 - i, e1, p);
                        if second != 0 {
                            lemma_sum_where_insert(right, pos - j, e2, p);
                        } else {
                            assert(hv@.subrange(j as int, hv@.len() as int) =~= right);
                        }
                    }
                    assert(parts_sum(ps@, any_message()) + sum_where(hv@.subrange(j as int, hv@.len() as int), any_message())
                        == sum_where(hv0, any_message()));
                    assert(ps@.last() == part);
                    assert forall|k: int| 0 <= k < hv@.len() implies #[trigger] hv@[k].1 >= 1 by {
                        if second != 0 {
                            if k < pos {
                                assert(hv@[k] == before_insert[k]);
                            } else if k > pos {
                                assert(hv@[k] == before_insert[k - 1]);
                            }
                        }
                    }
                }
            } else {
                let members = copy_range(&hv, i, j);
                proof {
                    assert forall|k: int| 0 <= k < members@.len() implies #[trigger] members@[k].1 >= 1 by {
                        assert(members@[k].1 == hv@[i + k].1);
                    }
                    lemma_sum_where_view(members@, left, any_message());
                    lemma_sum_where_concat(left, right, any_message());
                }
                let part = Partition::new(members, group, b as u64);
                ps.push(part);
                proof {
                    lemma_push_part(ps_before, part, ps@);
                    assert forall|p: spec_fn(Seq<u8>) -> bool| #[trigger] parts_sum(ps@, p) + sum_where(hv@.subrange(j as int, hv@.len() as int), p)
                        == sum_where(hv0, p) by {
                        lemma_parts_sum_push(ps_before, part, p);
                        lemma_sum_where_view(part.inner@, left, p);
                    }
                    lemma_parts_sum_push(ps_before, part, any_message());
                    lemma_sum_where_view(part.inner@, left, any_message());
                    assert(ps@.last() == part);
                    assert(hist_view(part.inner@) == hh.subrange(i as int, j as int)) by {
                        assert(hist_view(left) =~= hh.subrange(i as int, j as int));
                    }
                    assert(part_view(part) == (hh.subrange(i as int, j as int), group as int, b as int));
                    assert(cut_spec(hh, i as int, group as int, n as int, law@, scale) == seq![
                        (hh.subrange(i as int, j as int), group as int, b as int),
                    ] + cut_spec(hh, j as int, group + 1, n as int, law@, scale));
                    assert(parts_view(ps@) =~= parts_view(ps_before).push(part_view(part)));
                    assert(parts_view(ps@) + cut_spec(hh, j as int, group + 1, n as int, law@, scale) =~= parts_view(
                        ps_before,
                    ) + cut_spec(hh, i as int, group as int, n as int, law@, scale));
                }
            }
            i = j;
            assert(group <= law@.len());
            group = group + 1;
        }
    }
    ps
}

/// Why a scheme operation could not be carried out.
#[derive(Clone, Copy, Debug, PartialEq, Eq)]
pub enum FseError {
    /// The scheme has not been keyed or initialised.
    NotReady,
    /// A parameter is missing, out of range, or leads to a value too large.
    Parameter,
}

/// Size of the ciphertext set of a member of count `cnt` in a partition
/// whose law value is `phi`, among `k` partitions: `ceil(phi / k * cnt)`.
pub open spec fn set_size(phi: int, k: int, cnt: int) -> int {
    ceil_div(phi * cnt, k * FIXED_ONE)
}

/// How many times each ciphertext of such a partition is repeated:
/// `round(k / phi)`.
pub open spec fn repeat_count(phi: int, k: int) -> int {
    round_div(k * FIXED_ONE, phi)
}

/// Count given to each dummy of such a partition: `ceil(k / phi)`.
pub open spec fn dummy_count(phi: int, k: int) -> int {
    ceil_div(k * FIXED_ONE, phi)
}

/// Frequency of the first member within its partition, in fixed point.
pub open spec fn max_freq(p: Partition) -> int {
    p.inner@[0].1 * FIXED_ONE / p.meta.message_num as int
}

/// Sum over the partitions of `max_freq`.
pub open spec fn baseline(ps: Seq<Partition>) -> int
    decreases ps.len(),
{
    if ps.len() == 0 {
        0
    } else {
        baseline(ps.drop_last()) + max_freq(ps.last())
    }
}

/// The advantage bound scaled by the baseline, rounded up, in fixed point.
pub open spec fn effective_advantage(a: int, base: int) -> int {
    ceil_div(a * base, FIXED_ONE as int)
}

/// Sum of the squared counts of `h`.
pub open spec fn second_moment(h: Seq<HistType>) -> int
    decreases h.len(),
{
    if h.len() == 0 {
        0
    } else {
        second_moment(h.drop_last()) + h.last().1 * h.last().1
    }
}

/// Sum of the set sizes of the members of `h`.
pub open spec fn sizes_sum(h: Seq<HistType>, phi: int, k: int) -> int
    decreases h.len(),
{
    if h.len() == 0 {
        0
    } else {
        sizes_sum(h.drop_last(), phi, k) + set_size(phi, k, h.last().1 as int)
    }
}

/// Total ciphertext multiplicity aimed at for a partition:
/// `ceil(n * f / A_eff)` with `f` the sum of squared frequencies; no target
/// when the effective advantage is zero.
pub open spec fn target(n: int, sm: int, a_eff: int) -> int {
    if a_eff <= 0 {
        0
    } else {
        ceil_div(sm * FIXED_ONE, n * a_eff)
    }
}

/// Number of dummies that partition `p` receives.
pub open spec fn dummies_for(p: Partition, phi: int, k: int, n: int, a_eff: int) -> int {
    let t = target(n, second_moment(p.inner@), a_eff);
    let s = sizes_sum(p.inner@, phi, k);
    if t > s {
        t - s
    } else {
        0
    }
}

/// The local-table entries that the members of `h`, in partition `g`, give
/// to the message `m`.
pub open spec fn member_entries(h: Seq<HistType>, g: int, phi: int, k: int, m: Seq<u8>) -> Seq<ValueType>
    decreases h.len(),
{
    if h.len() == 0 {
        Seq::empty()
    } else {
        member_entries(h.drop_last(), g, phi, k, m) + if h.last().0@ == m {
            seq![(g as usize, set_size(phi, k, h.last().1 as int) as usize, repeat_count(phi, k) as usize)]
        } else {
            Seq::empty()
        }
    }
}

/// The local-table entries that the partitions `ps` give to `m`, partition
/// `g` using the law value `law[g]`.
pub open spec fn table_entries(ps: Seq<Partition>, law: Seq<u64>, k: int, m: Seq<u8>) -> Seq<ValueType>
    decreases ps.len(),
{
    if ps.len() == 0 {
        Seq::empty()
    } else {
        table_entries(ps.drop_last(), law, k, m) + member_entries(
            ps.last().inner@,
            ps.len() - 1,
            law[ps.len() - 1] as int,
            k,
            m,
        )
    }
}

/// The law gives every partition a positive value, small enough that the
/// repeat and dummy counts fit in a `usize`.
pub open spec fn law_fits(ps: Seq<Partition>, law: Seq<u64>) -> bool {
    forall|g: int| 0 <= g < ps.len() ==> #[trigger] law_fits_at(law, g, ps.len() as int)
}

/// The law has a positive value for partition `g` among `k`, whose dummy
/// count fits in a `usize`.
pub open spec fn law_fits_at(law: Seq<u64>, g: int, k: int) -> bool {
    &&& g < law.len()
    &&& law[g] > 0
    &&& dummy_count(law[g] as int, k) <= usize::MAX
}

proof fn lemma_parts_bounds(ps: Seq<Partition>)
    requires
        forall|g: int| 0 <= g < ps.len() ==> #[trigger] ps[g].inner@.len() >= 1,
        forall|g: int, k: int|
            0 <= g < ps.len() && 0 <= k < ps[g].inner@.len() ==> #[trigger] ps[g].inner@[k].1 >= 1,
    ensures
        ps.len() <= parts_sum(ps, any_message()),
        forall|g: int| 0 <= g < ps.len() ==> #[trigger] total(ps[g].inner@) <= parts_sum(ps, any_message()),
    decreases ps.len(),
{
    if ps.len() > 0 {
        let q = ps.drop_last();
        lemma_parts_bounds(q);
        let last = ps.last().inner@;
        assert(ps[ps.len() - 1].inner@.len() >= 1);
        assert forall|k: int| 0 <= k < last.len() implies #[trigger] last[k].1 >= 1 by {
            assert(ps[ps.len() - 1].inner@[k].1 >= 1);
        }
        lemma_positive_total(last);
        assert forall|g: int| 0 <= g < ps.len() implies #[trigger] total(ps[g].inner@) <= parts_sum(ps, any_message()) by {
            if g < ps.len() - 1 {
                assert(ps[g] == q[g]);
            }
        }
    }
}

proof fn lemma_second_moment_bound(h: Seq<HistType>)
    ensures
        0 <= second_moment(h) <= total(h) * total(h),
    decreases h.len(),
{
    if h.len() > 0 {
        let q = h.drop_last();
        lemma_second_moment_bound(q);
        lemma_sum_where_push(q, h.last(), any_message());
        assert(h =~= q.push(h.last()));
        let t = total(q) as int;
        let c = h.last().1 as int;
        assert(second_moment(q) + c * c <= (t + c) * (t + c)) by (nonlinear_arith)
            requires second_moment(q) <= t * t, t >= 0, c >= 0;
    }
}

proof fn lemma_set_size_bound(phi: int, k: int, cnt: int)
    requires
        0 <= phi <= FIXED_ONE,
        k >= 1,
        cnt >= 0,
    ensures
        0 <= set_size(phi, k, cnt) <= cnt,
        phi >= 1 && cnt >= 1 ==> set_size(phi, k, cnt) >= 1,
{
    let d = k * FIXED_ONE;
    assert(d >= FIXED_ONE) by (nonlinear_arith)
        requires k >= 1, d == k * FIXED_ONE;
    assert(phi * cnt <= FIXED_ONE * cnt) by (nonlinear_arith)
        requires phi <= FIXED_ONE, cnt >= 0;
    assert(FIXED_ONE * cnt <= d * cnt) by (nonlinear_arith)
        requires d >= FIXED_ONE, cnt >= 0;
    assert((phi * cnt + d - 1) / d <= cnt) by (nonlinear_arith)
        requires phi * cnt <= d * cnt, d >= 1, phi * cnt >= 0;
    assert(phi * cnt >= 0) by (nonlinear_arith)
        requires phi >= 0, cnt >= 0;
    if phi >= 1 && cnt >= 1 {
        assert(phi * cnt >= 1) by (nonlinear_arith)
            requires phi >= 1, cnt >= 1;
        assert((phi * cnt + d - 1) / d >= 1) by (nonlinear_arith)
            requires phi * cnt >= 1, d >= 1;
    }
}

proof fn lemma_round_le_ceil(a: int, b: int)
    requires
        a >= 0,
        b >= 1,
    ensures
        0 <= round_div(a, b) <= ceil_div(a, b),
{
    assert((2 * a + b) / (2 * b) <= (a + b - 1) / b + 0) by (nonlinear_arith)
        requires a >= 0, b >= 1;
}

/// Sum of the squared counts of `h`.
fn second_moment_of(h: &Vec<HistType>) -> (r: u128)
    requires
        total(h@) <= MAX_MESSAGES,
    ensures
        r == second_moment(h@),
{
    let mut r: u128 = 0;
    let mut k: usize = 0;
    while k < h.len()
        invariant
            k <= h@.len(),
            r == second_moment(h@.subrange(0, k as int)),
            total(h@) <= MAX_MESSAGES,
        decreases h@.len() - k,
    {
        let ghost pre = h@.subrange(0, k as int);
        let ghost next = h@.subrange(0, k + 1);
        proof {
            assert(next.drop_last() =~= pre);
            assert(h@ =~= next + h@.subrange(k + 1, h@.len() as int));
            lemma_sum_where_concat(next, h@.subrange(k + 1, h@.len() as int), any_message());
            lemma_second_moment_bound(next);
            let t = total(next) as int;
            assert(t * t <= 1099511627776 * 1099511627776) by (nonlinear_arith)
                requires 0 <= t <= 1099511627776;
        }
        let c = h[k].1 as u128;
        r = r + c * c;
        k = k + 1;
    }
    assert(h@.subrange(0, h@.len() as int) =~= h@);
    r
}

/// Sum over the partitions of the frequency of their first member.
fn baseline_of(ps: &Vec<Partition>) -> (r: u128)
    requires
        ps@.len() <= MAX_MESSAGES,
        forall|g: int| 0 <= g < ps@.len() ==> #[trigger] ps@[g].inner@.len() >= 1,
        forall|g: int, k: int|
            0 <= g < ps@.len() && 0 <= k < ps@[g].inner@.len() ==> #[trigger] ps@[g].inner@[k].1 >= 1,
        forall|g: int| 0 <= g < ps@.len() ==> #[trigger] ps@[g].meta.message_num == total(ps@[g].inner@),
    ensures
        r == baseline(ps@),
        r <= ps@.len() * FIXED_ONE,
{
    let mut r: u128 = 0;
    let mut g: usize = 0;
    while g < ps.len()
        invariant
            g <= ps@.len() <= MAX_MESSAGES,
            r == baseline(ps@.subrange(0, g as int)),
            r <= g * FIXED_ONE,
            forall|g: int| 0 <= g < ps@.len() ==> #[trigger] ps@[g].inner@.len() >= 1,
            forall|g: int, k: int|
                0 <= g < ps@.len() && 0 <= k < ps@[g].inner@.len() ==> #[trigger] ps@[g].inner@[k].1 >= 1,
            forall|g: int| 0 <= g < ps@.len() ==> #[trigger] ps@[g].meta.message_num == total(ps@[g].inner@),
        decreases ps@.len() - g,
    {
        let first = ps[g].inner[0].1 as u128;
        let mn = ps[g].meta.message_num as u128;
        proof {
            lemma_entry_le_total(ps@[g as int].inner@, 0);
            assert(ps@[g as int].inner@[0].1 >= 1);
            assert(first * FIXED_ONE <= mn * FIXED_ONE) by (nonlinear_arith)
                requires first <= mn;
            let fi = first as int;
            let mi = mn as int;
            assert(fi * FIXED_ONE / mi <= FIXED_ONE) by (nonlinear_arith)
                requires fi * FIXED_ONE <= mi * FIXED_ONE, mi >= 1;
            assert(first * FIXED_ONE <= 18446744073709551615 * FIXED_ONE) by (nonlinear_arith)
                requires first <= 18446744073709551615;
            assert(ps@.subrange(0, g + 1).drop_last() =~= ps@.subrange(0, g as int));
        }
        r = r + first * (FIXED_ONE as u128) / mn;
        g = g + 1;
    }
    assert(ps@.subrange(0, ps@.len() as int) =~= ps@);
    r
}

/// Records in `lt` the entry of each member of `inner`, in partition `g`,
/// and returns the sum of their set sizes.
fn record_members(
    lt: &mut Vec<(Vec<u8>, Vec<ValueType>)>,
    inner: &Vec<HistType>,
    g: usize,
    phi: u64,
    k: usize,
) -> (sum: u128)
    requires
        table_keys_distinct(old(lt)@),
        1 <= phi <= FIXED_ONE,
        1 <= k <= MAX_MESSAGES,
        total(inner@) <= MAX_MESSAGES,
        repeat_count(phi as int, k as int) <= usize::MAX,
    ensures
        table_keys_distinct(final(lt)@),
        forall|m: Seq<u8>|
            #[trigger] lookup(final(lt)@, m) == lookup(old(lt)@, m) + member_entries(inner@, g as int, phi as int, k as int, m),
        forall|m: Seq<u8>| #[trigger] table_has(final(lt)@, m) <==> (table_has(old(lt)@, m) || has_key(inner@, m)),
        sum == sizes_sum(inner@, phi as int, k as int),
        sum <= total(inner@),
{
    let ghost lt0 = lt@;
    let kk = (k as u128) * (FIXED_ONE as u128);
    let p = phi as u128;
    proof {
        assert(kk == k * FIXED_ONE);
    }
    let repeat = (2 * kk + p) / (2 * p);
    let mut sum: u128 = 0;
    let mut t: usize = 0;
    while t < inner.len()
        invariant
            t <= inner@.len(),
            table_keys_distinct(lt@),
            kk == k * FIXED_ONE,
            p == phi,
            1 <= phi <= FIXED_ONE,
            1 <= k <= MAX_MESSAGES,
            repeat == repeat_count(phi as int, k as int),
            repeat <= usize::MAX,
            total(inner@) <= MAX_MESSAGES,
            forall|m: Seq<u8>|
                #[trigger] lookup(lt@, m) == lookup(lt0, m) + member_entries(
                    inner@.subrange(0, t as int),
                    g as int,
                    phi as int,
                    k as int,
                    m,
                ),
            forall|m: Seq<u8>|
                #[trigger] table_has(lt@, m) <==> (table_has(lt0, m) || has_key(inner@.subrange(0, t as int), m)),
            sum == sizes_sum(inner@.subrange(0, t as int), phi as int, k as int),
            sum <= total(inner@.subrange(0, t as int)),
        decreases inner@.len() - t,
    {
        let ghost pre = inner@.subrange(0, t as int);
        let ghost next = inner@.subrange(0, t + 1);
        let cnt = inner[t].1;
        proof {
            assert(next.drop_last() =~= pre);
            assert(inner@ =~= next + inner@.subrange(t + 1, inner@.len() as int));
            lemma_sum_where_concat(next, inner@.subrange(t + 1, inner@.len() as int), any_message());
            lemma_sum_where_push(pre, inner@[t as int], any_message());
            lemma_set_size_bound(phi as int, k as int, cnt as int);
            assert(p * cnt <= FIXED_ONE * 1099511627776) by (nonlinear_arith)
                requires p <= FIXED_ONE, cnt <= 1099511627776;
        }
        let size = (p * (cnt as u128) + kk - 1) / kk;
        let ghost lt_before = lt@;
        add_value(lt, &inner[t].0, (g, size as usize, repeat as usize));
        proof {
            let e = (g, size as usize, repeat as usize);
            assert(e == (g as usize, set_size(phi as int, k as int, cnt as int) as usize, repeat_count(phi as int, k as int) as usize));
            assert forall|m: Seq<u8>|
                #[trigger] lookup(lt@, m) == lookup(lt0, m) + member_entries(next, g as int, phi as int, k as int, m) by {
                if m == inner@[t as int].0@ {
                    assert(lookup(lt0, m) + member_entries(next, g as int, phi as int, k as int, m) =~= (lookup(lt0, m)
                        + member_entries(pre, g as int, phi as int, k as int, m)).push(e));
                } else {
                    assert(member_entries(next, g as int, phi as int, k as int, m) =~= member_entries(pre, g as int, phi as int, k as int, m));
                }
            }
            assert forall|m: Seq<u8>|
                #[trigger] table_has(lt@, m) <==> (table_has(lt0, m) || has_key(next, m)) by {
                if has_key(next, m) && !has_key(pre, m) {
                    let w = choose|w: int| 0 <= w < next.len() && #[trigger] next[w].0@ == m;
                    if w < pre.len() {
                        assert(pre[w] == next[w]);
                    }
                }
                if has_key(pre, m) {
                    let w = choose|w: int| 0 <= w < pre.len() && #[trigger] pre[w].0@ == m;
                    assert(next[w] == pre[w]);
                }
                if m != inner@[t as int].0@ {
                    assert(table_has(lt@, m) == table_has(lt_before, m));
                } else {
                    assert(next[t as int].0@ == m);
                }
            }
        }
        sum = sum + size;
        t = t + 1;
    }
    assert(inner@.subrange(0, inner@.len() as int) =~= inner@);
    sum
}

/// Some partition among the first `k` of `ps` holds the message `m`.
pub open spec fn member_in(ps: Seq<Partition>, k: int, m: Seq<u8>) -> bool {
    exists|h: int| 0 <= h < k && #[trigger] has_key(ps[h].inner@, m)
}

/// A dummy entry: a random message with count `cnt`.
pub open spec fn is_dummy(e: HistType, cnt: int) -> bool {
    &&& e.1 == cnt
    &&& exists|b: Seq<u8>| b.len() == DEFAULT_RANDOM_LEN && e.0@ == base64_of(b)
}

/// `p` is `p0` followed by the dummies that `transform` adds to it.
pub open spec fn padded(p0: Partition, p: Partition, phi: int, k: int, n: int, a_eff: int) -> bool {
    &&& p.meta == p0.meta
    &&& p.inner@.len() == p0.inner@.len() + dummies_for(p0, phi, k, n, a_eff)
    &&& p.inner@.subrange(0, p0.inner@.len() as int) == p0.inner@
    &&& forall|t: int| p0.inner@.len() <= t < p.inner@.len() ==> is_dummy(#[trigger] p.inner@[t], dummy_count(phi, k))
}

/// Each partition of `ps` is the one of `ps0` padded with its dummies.
pub open spec fn transformed(ps0: Seq<Partition>, ps: Seq<Partition>, law: Seq<u64>, n: int, a_eff: int) -> bool {
    &&& ps.len() == ps0.len()
    &&& forall|g: int| 0 <= g < ps.len() ==> #[trigger] padded(ps0[g], ps[g], law[g] as int, ps0.len() as int, n, a_eff)
}

/// A context of the partition-based scheme.
///
/// Real parameters are kept in fixed point (see `crate::fixed`).
pub struct ContextPFSE {
    /// Whether the parameters have been set.
    pub is_ready: bool,
    /// The AES-256 key.
    pub key: Vec<u8>,
    /// For each message, one entry per partition that holds it.
    pub local_table: Vec<(Vec<u8>, Vec<ValueType>)>,
    /// The partition rate, lambda.
    pub p_partition: u64,
    /// The scale k0 of the partition budgets.
    pub p_scale: u64,
    /// The advantage bound A; after `transform`, A times the baseline.
    pub p_advantage: u128,
    /// The partition law: `law[g - 1]` is its value at partition `g`.
    pub law: Vec<u64>,
    /// Size of the training sample.
    pub message_num: usize,
    /// The partitions, in index order.
    pub partitions: Vec<Partition>,
}

/// The partitions are those that `partition` produces from a sample of `n`
/// messages.
pub open spec fn partitions_wf(ps: Seq<Partition>, n: nat) -> bool {
    &&& 1 <= n <= MAX_MESSAGES
    &&& parts_sum(ps, any_message()) == n
    &&& forall|g: int, k: int|
        0 <= g < ps.len() && 0 <= k < ps[g].inner@.len() ==> #[trigger] ps[g].inner@[k].1 >= 1
    &&& forall|g: int| 0 <= g < ps.len() ==> #[trigger] ps[g].inner@.len() >= 1
    &&& forall|g: int| 0 <= g < ps.len() ==> #[trigger] ps[g].meta.message_num == total(ps[g].inner@)
}

impl ContextPFSE {
    /// A fresh context: no key, no parameters, nothing partitioned.
    pub fn new() -> (r: ContextPFSE)
        ensures
            !r.is_ready,
            r.key@.len() == 0,
            r.local_table@.len() == 0,
            r.partitions@.len() == 0,
            r.law@.len() == 0,
            r.message_num == 0,
    {
        ContextPFSE {
            is_ready: false,
            key: Vec::new(),
            local_table: Vec::new(),
            p_partition: 0,
            p_scale: 0,
            p_advantage: 0,
            law: Vec::new(),
            message_num: 0,
            partitions: Vec::new(),
        }
    }

    /// Whether the parameters have been set.
    pub fn ready(&self) -> (r: bool)
        ensures
            r == self.is_ready,
    {
        self.is_ready
    }

    /// The local table.
    pub fn get_local_table(&self) -> (r: &Vec<(Vec<u8>, Vec<ValueType>)>)
        ensures
            r == &self.local_table,
    {
        &self.local_table
    }

    /// The partition rate, in fixed point.
    pub fn get_param_partition(&self) -> (r: u64)
        ensures
            r == self.p_partition,
    {
        self.p_partition
    }

    /// The number of partitions.
    pub fn get_partition_num(&self) -> (r: usize)
        ensures
            r == self.partitions@.len(),
    {
        self.partitions.len()
    }

    /// The size of the training sample.
    pub fn get_message_num(&self) -> (r: usize)
        ensures
            r == self.message_num,
    {
        self.message_num
    }

    /// The partitions.
    pub fn get_partitions(&self) -> (r: &Vec<Partition>)
        ensures
            r == &self.partitions,
    {
        &self.partitions
    }

    /// Draws a fresh key.
    pub fn key_generate(&mut self)
        ensures
            final(self).key@.len() == KEY_LEN,
            final(self).is_ready == old(self).is_ready,
            final(self).local_table == old(self).local_table,
            final(self).partitions == old(self).partitions,
            final(self).law == old(self).law,
            final(self).message_num == old(self).message_num,
            final(self).p_advantage == old(self).p_advantage,
            final(self).p_scale == old(self).p_scale,
    {
        self.key = key_generate();
    }

    /// Sets `[lambda, k0, A]`, in fixed point. With any other number of
    /// values nothing changes and the context stays as it was.
    pub fn set_params(&mut self, params: &[u64])
        ensures
            params@.len() == 3 ==> final(self).is_ready && final(self).p_partition == params@[0]
                && final(self).p_scale == params@[1] && final(self).p_advantage == params@[2] as u128,
            params@.len() != 3 ==> final(self).is_ready == old(self).is_ready && final(self).p_partition
                == old(self).p_partition && final(self).p_scale == old(self).p_scale
                && final(self).p_advantage == old(self).p_advantage,
            final(self).key == old(self).key,
            final(self).local_table == old(self).local_table,
            final(self).partitions == old(self).partitions,
            final(self).law == old(self).law,
            final(self).message_num == old(self).message_num,
    {
        if params.len() != 3 {
            return;
        }
        self.p_partition = params[0];
        self.p_scale = params[1];
        self.p_advantage = params[2] as u128;
        self.is_ready = true;
    }

    /// Flattens each partition: records in the local table, for each member,
    /// its set size and repeat count, then pads the partition with dummies
    /// until the sum of set sizes reaches the partition's target. Fails with
    /// `Parameter`, changing nothing, when the law has no positive value for
    /// some partition.
    #[verifier::rlimit(40)]
    pub fn transform(&mut self) -> (r: Result<(), FseError>)
        requires
            partitions_wf(old(self).partitions@, old(self).message_num as nat),
            table_keys_distinct(old(self).local_table@),
            old(self).p_advantage <= FIXED_ONE,
            forall|g: int| 0 <= g < old(self).law@.len() ==> #[trigger] old(self).law@[g] <= FIXED_ONE,
        ensures
            r is Ok <==> law_fits(old(self).partitions@, old(self).law@),
            r is Err ==> r == Err::<(), FseError>(FseError::Parameter) && final(self).local_table == old(self).local_table
                && final(self).partitions == old(self).partitions && final(self).p_advantage == old(self).p_advantage,
            r is Ok ==> transformed(
                old(self).partitions@,
                final(self).partitions@,
                old(self).law@,
                old(self).message_num as int,
                final(self).p_advantage as int,
            ),
            r is Ok ==> final(self).p_advantage == effective_advantage(
                old(self).p_advantage as int,
                baseline(old(self).partitions@),
            ),
            r is Ok ==> forall|m: Seq<u8>|
                #[trigger] lookup(final(self).local_table@, m) == lookup(old(self).local_table@, m) + table_entries(
                    old(self).partitions@,
                    old(self).law@,
                    old(self).partitions@.len() as int,
                    m,
                ),
            r is Ok ==> forall|m: Seq<u8>|
                #[trigger] table_has(final(self).local_table@, m) <==> (table_has(old(self).local_table@, m) || member_in(
                    old(self).partitions@,
                    old(self).partitions@.len() as int,
                    m,
                )),
            table_keys_distinct(final(self).local_table@),
            final(self).key == old(self).key,
            final(self).law == old(self).law,
            final(self).message_num == old(self).message_num,
            final(self).is_ready == old(self).is_ready,
    {
        let k = self.partitions.len();
        let ghost ps0 = self.partitions@;
        let ghost lt0 = self.local_table@;
        proof {
            lemma_parts_bounds(ps0);
        }
        let kk = (k as u128) * (FIXED_ONE as u128);
        let mut g: usize = 0;
        while g < k
            invariant
                g <= k == ps0.len(),
                k <= MAX_MESSAGES,
                kk == k * FIXED_ONE,
                self.partitions@ == ps0,
                self.local_table@ == lt0,
                table_keys_distinct(lt0),
                forall|h: int| 0 <= h < g ==> #[trigger] law_fits_at(self.law@, h, k as int),
            decreases k - g,
        {
            if g >= self.law.len() || self.law[g] == 0 {
                proof {
                    assert(!law_fits_at(self.law@, g as int, k as int));
                    assert(!law_fits(ps0, self.law@));
                }
                return Err(FseError::Parameter);
            }
            let d = (kk + self.law[g] as u128 - 1) / (self.law[g] as u128);
            if d > usize::MAX as u128 {
                proof {
                    assert(!law_fits_at(self.law@, g as int, k as int));
                    assert(!law_fits(ps0, self.law@));
                }
                return Err(FseError::Parameter);
            }
            assert(d == dummy_count(self.law@[g as int] as int, k as int));
            g = g + 1;
        }
        assert(g == k);
        assert(law_fits(ps0, self.law@));
        let base = baseline_of(&self.partitions);
        proof {
            let a = self.p_advantage as int;
            assert(a * base <= FIXED_ONE * (1099511627776 * FIXED_ONE)) by (nonlinear_arith)
                requires a <= FIXED_ONE, base <= k * FIXED_ONE, k <= 1099511627776, a >= 0, base >= 0;
        }
        let a_eff = ((self.p_advantage as u128) * base + (FIXED_ONE as u128) - 1) / (FIXED_ONE as u128);
        proof {
            assert(a_eff <= 1099511627776 * FIXED_ONE + 1);
        }
        let n = self.message_num as u128;
        let mut g: usize = 0;
        while g < k
            invariant
                g <= k == ps0.len(),
                1 <= k <= MAX_MESSAGES,
                kk == k * FIXED_ONE,
                n == self.message_num,
                partitions_wf(ps0, self.message_num as nat),
                a_eff == effective_advantage(old(self).p_advantage as int, baseline(ps0)),
                a_eff <= 1099511627776 * FIXED_ONE + 1,
                law_fits(ps0, self.law@),
                forall|h: int| 0 <= h < self.law@.len() ==> #[trigger] self.law@[h] <= FIXED_ONE,
                self.law == old(self).law,
                self.partitions@.len() == k,
                forall|h: int| g <= h < k ==> #[trigger] self.partitions@[h] == ps0[h],
                forall|h: int| 0 <= h < g ==> #[trigger] padded(ps0[h], self.partitions@[h], self.law@[h] as int, k as int, n as int, a_eff as int),
                table_keys_distinct(self.local_table@),
                forall|m: Seq<u8>|
                    #[trigger] lookup(self.local_table@, m) == lookup(lt0, m) + table_entries(ps0.subrange(0, g as int), self.law@, k as int, m),
                forall|m: Seq<u8>|
                    #[trigger] table_has(self.local_table@, m) <==> (table_has(lt0, m) || member_in(ps0, g as int, m)),
                forall|g: int| 0 <= g < ps0.len() ==> #[trigger] total(ps0[g].inner@) <= parts_sum(ps0, any_message()),
                self.key == old(self).key,
                self.message_num == old(self).message_num,
                self.is_ready == old(self).is_ready,
            decreases k - g,
        {
            proof {
                assert(law_fits_at(self.law@, g as int, k as int));
            }
            let phi = self.law[g];
            proof {
                assert(self.law@[g as int] > 0);
                assert(self.partitions@[g as int] == ps0[g as int]);
                lemma_round_le_ceil(k * FIXED_ONE, phi as int);
            }
            let sm = second_moment_of(&self.partitions[g].inner);
            let ghost lt_before = self.local_table@;
            let sum = record_members(&mut self.local_table, &self.partitions[g].inner, g, phi, k);
            proof {
                assert forall|m: Seq<u8>|
                    #[trigger] table_has(self.local_table@, m) <==> (table_has(lt0, m) || member_in(ps0, g + 1, m)) by {
                    assert(table_has(lt_before, m) <==> (table_has(lt0, m) || member_in(ps0, g as int, m)));
                    if member_in(ps0, g + 1, m) && !member_in(ps0, g as int, m) {
                        let h = choose|h: int| 0 <= h < g + 1 && #[trigger] has_key(ps0[h].inner@, m);
                        assert(h == g);
                    }
                    if has_key(ps0[g as int].inner@, m) {
                        assert(member_in(ps0, g + 1, m));
                    }
                    if member_in(ps0, g as int, m) {
                        let h = choose|h: int| 0 <= h < g && #[trigger] has_key(ps0[h].inner@, m);
                        assert(member_in(ps0, g + 1, m));
                    }
                }
                assert forall|m: Seq<u8>|
                    #[trigger] lookup(self.local_table@, m) == lookup(lt0, m) + table_entries(ps0.subrange(0, g + 1), self.law@, k as int, m) by {
                    assert(ps0.subrange(0, g + 1).drop_last() =~= ps0.subrange(0, g as int));
                    assert(lookup(lt_before, m) == lookup(lt0, m) + table_entries(ps0.subrange(0, g as int), self.law@, k as int, m));
                }
                lemma_second_moment_bound(ps0[g as int].inner@);
                let t = total(ps0[g as int].inner@) as int;
                assert(t * t <= 1099511627776 * 1099511627776) by (nonlinear_arith)
                    requires 0 <= t <= 1099511627776;
                assert(n * a_eff <= 1099511627776 * (1099511627776 * FIXED_ONE + 1)) by (nonlinear_arith)
                    requires n <= 1099511627776, a_eff <= 1099511627776 * FIXED_ONE + 1;
                assert(t <= n);
                assert(sm <= 1099511627776 * 1099511627776);
                assert(sm * FIXED_ONE <= 1099511627776 * 1099511627776 * FIXED_ONE) by (nonlinear_arith)
                    requires sm <= 1099511627776 * 1099511627776;
                if a_eff > 0 {
                    assert(n * a_eff >= 1) by (nonlinear_arith)
                        requires n >= 1, a_eff >= 1;
                }
            }
            let target_num = if a_eff == 0 {
                0
            } else {
                (sm * (FIXED_ONE as u128) + n * a_eff - 1) / (n * a_eff)
            };
            let dummy_cnt = ((kk + phi as u128 - 1) / (phi as u128)) as usize;
            if target_num > sum {
                let mut extra: u128 = target_num - sum;
                let ghost inner0 = self.partitions@[g as int].inner@;
                let ghost parts_before = self.partitions@;
                let ghost self_before = *self;
                while extra > 0
                    invariant
                        self.message_num == self_before.message_num,
                        self.law == self_before.law,
                        self.local_table == self_before.local_table,
                        self.key == self_before.key,
                        self.is_ready == self_before.is_ready,
                        g < k == self.partitions@.len(),
                        self.partitions@[g as int].meta == ps0[g as int].meta,
                        self.partitions@[g as int].inner@.len() + extra == inner0.len() + (target_num - sum),
                        extra <= target_num - sum,
                        self.partitions@[g as int].inner@.subrange(0, inner0.len() as int) == inner0,
                        forall|t: int| inner0.len() <= t < self.partitions@[g as int].inner@.len() ==> is_dummy(
                            #[trigger] self.partitions@[g as int].inner@[t], dummy_cnt as int),
                        forall|h: int| 0 <= h < k && h != g ==> #[trigger] self.partitions@[h] == parts_before[h],
                    decreases extra,
                {
                    let dummy = random_message();
                    let ghost before = self.partitions@[g as int].inner@;
                    self.partitions[g].inner.push((dummy, dummy_cnt));
                    proof {
                        let now = self.partitions@[g as int].inner@;
                        assert(now == before.push((dummy, dummy_cnt)));
                        assert(now.subrange(0, inner0.len() as int) =~= before.subrange(0, inner0.len() as int));
                        assert forall|t: int| inner0.len() <= t < now.len() implies is_dummy(#[trigger] now[t], dummy_cnt as int) by {
                            if t < now.len() - 1 {
                                assert(now[t] == before[t]);
                            }
                        }
                    }
                    extra = extra - 1;
                }
            }
            proof {
                assert(sm == second_moment(ps0[g as int].inner@));
                assert(target_num == target(n as int, sm as int, a_eff as int));
                assert(dummy_cnt == dummy_count(phi as int, k as int));
                let pg = self.partitions@[g as int];
                assert(pg.inner@.subrange(0, ps0[g as int].inner@.len() as int) =~= ps0[g as int].inner@) by {
                    if target_num <= sum {
                        assert(pg == ps0[g as int]);
                    }
                }
                assert(padded(ps0[g as int], pg, self.law@[g as int] as int, k as int, n as int, a_eff as int));
            }
            g = g + 1;
        }
        proof {
            assert(ps0.subrange(0, k as int) =~= ps0);
        }
        self.p_advantage = a_eff;
        Ok(())
    }

    /// Builds the histogram of `input` and cuts it into partitions: partition
    /// `g` takes the most frequent remaining messages until their cumulative
    /// frequency reaches `law[g - 1] * k0`, splitting the message that
    /// overshoots; once the budget times the sample size is at most 1, or the
    /// law has no value left, one last partition takes the whole tail.
    #[verifier::rlimit(40)]
    pub fn partition(&mut self, input: &[Vec<u8>], law: &[u64])
        requires
            old(self).is_ready,
            input@.len() <= MAX_MESSAGES,
            forall|g: int| 0 <= g < law@.len() ==> #[trigger] law@[g] <= FIXED_ONE,
            law@.len() < usize::MAX,
        ensures
            final(self).message_num == input@.len(),
            final(self).law@ == law@,
            input@.len() > 0 ==> partitions_wf(final(self).partitions@, input@.len() as nat),
            input@.len() == 0 ==> final(self).partitions@.len() == 0,
            forall|p: spec_fn(Seq<u8>) -> bool|
                #[trigger] parts_sum(final(self).partitions@, p) == count_where(views(input@), p),
            forall|g: int| 0 <= g < final(self).partitions@.len() ==> #[trigger] final(self).partitions@[g].meta.index == g + 1,
            forall|g: int|
                0 <= g < final(self).partitions@.len() - 1 ==> #[trigger] final(self).partitions@[g].meta.cumulative_frequency
                    == budget(law@, old(self).p_scale, g + 1),
            exists|hv: Seq<HistType>|
                is_histogram_of(hv, views(input@)) && sorted_desc(hv) && #[trigger] cut_spec(
                    hist_view(hv),
                    0,
                    1,
                    input@.len() as int,
                    law@,
                    old(self).p_scale,
                ) == parts_view(final(self).partitions@),
            final(self).is_ready == old(self).is_ready,
            final(self).key == old(self).key,
            final(self).local_table == old(self).local_table,
            final(self).p_scale == old(self).p_scale,
            final(self).p_advantage == old(self).p_advantage,
    {
        self.message_num = input.len();
        self.law = vstd::slice::slice_to_vec(law);
        if input.len() == 0 {
            self.partitions = Vec::new();
            proof {
                let e = Seq::<HistType>::empty();
                assert(views(input@) =~= Seq::<Seq<u8>>::empty());
                assert(is_histogram_of(e, views(input@)));
                assert(hist_view(e) =~= Seq::<(Seq<u8>, usize)>::empty());
                assert(parts_view(self.partitions@) =~= Seq::<PartView>::empty());
                assert(cut_spec(hist_view(e), 0, 1, 0, law@, self.p_scale) == parts_view(self.partitions@));
            }
            return;
        }
        let histogram = build_histogram(input);
        let histogram_vec = build_histogram_vec(&histogram);
        proof {
            assert forall|k: int| 0 <= k < histogram_vec@.len() implies #[trigger] histogram_vec@[k].1 >= 1 by {
                let x = (histogram_vec@[k].0@, histogram_vec@[k].1);
                assert(hist_view(histogram_vec@)[k] == x);
                assert(hist_view(histogram_vec@).to_multiset().count(x) > 0) by {
                    broadcast use vstd::seq_lib::group_to_multiset_ensures;
                    assert(hist_view(histogram_vec@).contains(x));
                }
                assert(hist_view(histogram@).contains(x)) by {
                    broadcast use vstd::seq_lib::group_to_multiset_ensures;
                }
                let i = choose|i: int| 0 <= i < hist_view(histogram@).len() && hist_view(histogram@)[i] == x;
                assert(histogram@[i].1 >= 1);
            }
            assert(total(histogram_vec@) == input@.len());
        }
        self.partitions = cut_partitions(histogram_vec, input.len(), law, self.p_scale);
        proof {
            assert forall|p: spec_fn(Seq<u8>) -> bool| #[trigger] parts_sum(self.partitions@, p) == count_where(views(input@), p) by {
                assert(sum_where(histogram_vec@, p) == sum_where(histogram@, p));
            }
            assert(parts_sum(self.partitions@, any_message()) == count_where(views(input@), any_message()));
            lemma_reordered_histogram(histogram@, histogram_vec@, views(input@));
        }
    }
}

/// The separator byte `|` between a message and its homophone tags.
pub const SEP: u8 = 124;

/// Number of bytes that a PFSE token adds after the message.
pub const PFSE_SUFFIX_LEN: usize = 18;

/// The plaintext sealed for the `j`-th ciphertext of `m` in partition `idx`:
/// `m | le(idx) | le(j)`.
pub open spec fn pfse_plain(m: Seq<u8>, idx: usize, j: usize) -> Seq<u8> {
    m + seq![SEP] + spec_u64_to_le_bytes(idx as u64) + seq![SEP] + spec_u64_to_le_bytes(j as u64)
}

/// `c` copies of `x`.
pub open spec fn copies(x: Seq<u8>, c: nat) -> Seq<Seq<u8>> {
    Seq::new(c, |i: int| x)
}

/// The ciphertexts of entry `e` of `m`, for the first `upto` positions of
/// its set; each repeated `e.2` times when `repeat` holds.
pub open spec fn entry_tokens(key: Seq<u8>, m: Seq<u8>, e: ValueType, upto: nat, repeat: bool) -> Seq<Seq<u8>>
    decreases upto,
{
    if upto == 0 {
        Seq::empty()
    } else {
        entry_tokens(key, m, e, (upto - 1) as nat, repeat) + copies(
            token_of(key, zero_nonce(), pfse_plain(m, e.0, (upto - 1) as usize)),
            if repeat {
                e.2 as nat
            } else {
                1
            },
        )
    }
}

/// The ciphertexts of `m` under the local-table entries `es`, entry after entry.
pub open spec fn message_tokens(key: Seq<u8>, m: Seq<u8>, es: Seq<ValueType>, repeat: bool) -> Seq<Seq<u8>>
    decreases es.len(),
{
    if es.len() == 0 {
        Seq::empty()
    } else {
        message_tokens(key, m, es.drop_last(), repeat) + entry_tokens(key, m, es.last(), es.last().1 as nat, repeat)
    }
}

/// Builds `m | le(idx) | le(j)`.
fn pfse_token_plain(m: &Vec<u8>, idx: usize, j: usize) -> (r: Vec<u8>)
    ensures
        r@ == pfse_plain(m@, idx, j),
{
    let mut v: Vec<u8> = Vec::new();
    push_all(&mut v, m);
    v.push(SEP);
    let a = u64_to_le_bytes(idx as u64);
    push_all(&mut v, &a);
    v.push(SEP);
    let b = u64_to_le_bytes(j as u64);
    push_all(&mut v, &b);
    assert(v@ =~= pfse_plain(m@, idx, j));
    v
}

/// Pushes `c` copies of `t` onto `out`.
fn push_copies(out: &mut Vec<Vec<u8>>, t: &Vec<u8>, c: usize)
    ensures
        views(final(out)@) == views(old(out)@) + copies(t@, c as nat),
{
    let ghost o0 = views(out@);
    let mut i: usize = 0;
    while i < c
        invariant
            i <= c,
            views(out@) == o0 + copies(t@, i as nat),
        decreases c - i,
    {
        let ghost before = out@;
        out.push(t.clone());
        proof {
            assert(views(out@) =~= views(before).push(t@));
        }
        i = i + 1;
        assert(views(out@) =~= o0 + copies(t@, i as nat));
    }
}

impl ContextPFSE {
    /// The ciphertexts of `message`: for each of its local-table entries
    /// `(idx, size, cnt)` and each `j < size`, `m | le(idx) | le(j)` sealed
    /// under the zero nonce and base64-encoded; each repeated `cnt` times
    /// when `repeat` holds. `None` for a message missing from the local
    /// table, a key that is not 32 bytes, or a message too long to seal.
    pub fn encrypt_impl(&self, message: &Vec<u8>, repeat: bool) -> (r: Option<Vec<Vec<u8>>>)
        requires
            table_keys_distinct(self.local_table@),
        ensures
            r is Some <==> (table_has(self.local_table@, message@) && self.key@.len() == KEY_LEN
                && message@.len() + PFSE_SUFFIX_LEN <= PLAIN_MAX),
            r matches Some(v) ==> views(v@) == message_tokens(
                self.key@,
                message@,
                lookup(self.local_table@, message@),
                repeat,
            ),
    {
        let values = match get_values(&self.local_table, message) {
            Some(v) => v,
            None => return None,
        };
        if self.key.len() != KEY_LEN || message.len() as u64 > PLAIN_MAX - PFSE_SUFFIX_LEN as u64 {
            return None;
        }
        let nonce = new_zero_nonce();
        let mut out: Vec<Vec<u8>> = Vec::new();
        let mut e: usize = 0;
        while e < values.len()
            invariant
                e <= values@.len(),
                nonce@ == zero_nonce(),
                self.key@.len() == KEY_LEN,
                message@.len() + PFSE_SUFFIX_LEN <= PLAIN_MAX,
                views(out@) == message_tokens(self.key@, message@, values@.subrange(0, e as int), repeat),
            decreases values@.len() - e,
        {
            let (index, size, cnt) = values[e];
            let ghost before_entry = views(out@);
            let mut j: usize = 0;
            while j < size
                invariant
                    j <= size,
                    nonce@ == zero_nonce(),
                    self.key@.len() == KEY_LEN,
                    message@.len() + PFSE_SUFFIX_LEN <= PLAIN_MAX,
                    views(out@) == before_entry + entry_tokens(self.key@, message@, values@[e as int], j as nat, repeat),
                    values@[e as int] == (index, size, cnt),
                decreases size - j,
            {
                let plain = pfse_token_plain(message, index, j);
                proof {
                    lemma_auto_spec_u64_to_from_le_bytes();
                    assert(plain@.len() == message@.len() + PFSE_SUFFIX_LEN);
                }
                let token = match seal_token(&self.key, &nonce, &plain) {
                    Some(t) => t,
                    None => return None,
                };
                let times = if repeat {
                    cnt
                } else {
                    1
                };
                push_copies(&mut out, &token, times);
                j = j + 1;
                assert(views(out@) =~= before_entry + entry_tokens(self.key@, message@, values@[e as int], j as nat, repeat));
            }
            proof {
                assert(values@.subrange(0, e + 1).drop_last() =~= values@.subrange(0, e as int));
            }
            e = e + 1;
        }
        assert(values@.subrange(0, values@.len() as int) =~= values@);
        Some(out)
    }

    /// The distinct ciphertexts of `message`, as the search path needs them.
    pub fn encrypt(&self, message: &Vec<u8>) -> (r: Option<Vec<Vec<u8>>>)
        requires
            table_keys_distinct(self.local_table@),
        ensures
            r is Some <==> (table_has(self.local_table@, message@) && self.key@.len() == KEY_LEN
                && message@.len() + PFSE_SUFFIX_LEN <= PLAIN_MAX),
            r matches Some(v) ==> views(v@) == message_tokens(
                self.key@,
                message@,
                lookup(self.local_table@, message@),
                false,
            ),
    {
        self.encrypt_impl(message, false)
    }

    /// Decodes and opens a ciphertext, then drops the two tags and their
    /// separators.
    pub fn decrypt(&self, ciphertext: &Vec<u8>) -> (r: Option<Vec<u8>>)
        ensures
            r is Some ==> self.key@.len() == KEY_LEN,
            r matches Some(p) ==> exists|full: Seq<u8>|
                full.len() >= PFSE_SUFFIX_LEN && #[trigger] token_of(self.key@, zero_nonce(), full) == ciphertext@
                    && p@ == full.subrange(0, full.len() - PFSE_SUFFIX_LEN),
            forall|m: Seq<u8>, idx: usize, j: usize|
                self.key@.len() == KEY_LEN && m.len() + PFSE_SUFFIX_LEN <= PLAIN_MAX && #[trigger] token_of(
                    self.key@,
                    zero_nonce(),
                    pfse_plain(m, idx, j),
                ) == ciphertext@ ==> r is Some && r->0@ == m,
    {
        let nonce = new_zero_nonce();
        let plain = match open_token(&self.key, &nonce, ciphertext) {
            Some(p) => p,
            None => {
                proof {
                    lemma_auto_spec_u64_to_from_le_bytes();
                    assert forall|m: Seq<u8>, idx: usize, j: usize|
                        self.key@.len() == KEY_LEN && m.len() + PFSE_SUFFIX_LEN <= PLAIN_MAX && #[trigger] token_of(
                            self.key@,
                            zero_nonce(),
                            pfse_plain(m, idx, j),
                        ) == ciphertext@ implies false by {
                        assert(pfse_plain(m, idx, j).len() == m.len() + PFSE_SUFFIX_LEN);
                    }
                }
                return None;
            },
        };
        if plain.len() < PFSE_SUFFIX_LEN {
            proof {
                lemma_auto_spec_u64_to_from_le_bytes();
            }
            return None;
        }
        let keep = plain.len() - PFSE_SUFFIX_LEN;
        let mut out: Vec<u8> = Vec::new();
        let mut i: usize = 0;
        while i < keep
            invariant
                i <= keep <= plain@.len(),
                out@ == plain@.subrange(0, i as int),
            decreases keep - i,
        {
            out.push(plain[i]);
            i = i + 1;
            assert(out@ =~= plain@.subrange(0, i as int));
        }
        proof {
            lemma_auto_spec_u64_to_from_le_bytes();
            assert forall|m: Seq<u8>, idx: usize, j: usize|
                self.key@.len() == KEY_LEN && m.len() + PFSE_SUFFIX_LEN <= PLAIN_MAX && #[trigger] token_of(
                    self.key@,
                    zero_nonce(),
                    pfse_plain(m, idx, j),
                ) == ciphertext@ implies out@ == m by {
                assert(plain@ == pfse_plain(m, idx, j));
                assert(out@ =~= m);
            }
        }
        Some(out)
    }
}

/// The members of all partitions of `ps`, partition after partition.
pub open spec fn flat(ps: Seq<Partition>) -> Seq<HistType>
    decreases ps.len(),
{
    if ps.len() == 0 {
        Seq::empty()
    } else {
        flat(ps.drop_last()) + ps.last().inner@
    }
}

/// The message of entry `k` of `f` already occurs before it.
pub open spec fn seen_before(f: Seq<HistType>, k: int) -> bool {
    exists|i: int| 0 <= i < k && #[trigger] f[i].0@ == f[k].0@
}

/// `m` can be encrypted: it has local-table entries, the key is an AES-256
/// key and the tokens of `m` are short enough to seal.
pub open spec fn encryptable(key: Seq<u8>, lt: Seq<(Vec<u8>, Vec<ValueType>)>, m: Seq<u8>) -> bool {
    table_has(lt, m) && key.len() == KEY_LEN && m.len() + PFSE_SUFFIX_LEN <= PLAIN_MAX
}

/// What the smoothed stream holds for the member `e`: all its ciphertexts
/// with their repeats when it can be encrypted, else `e.1` copies of its raw
/// bytes (a dummy).
pub open spec fn smooth_piece(key: Seq<u8>, lt: Seq<(Vec<u8>, Vec<ValueType>)>, e: HistType) -> Seq<Seq<u8>> {
    if encryptable(key, lt, e.0@) {
        message_tokens(key, e.0@, lookup(lt, e.0@), true)
    } else {
        copies(e.0@, e.1 as nat)
    }
}

/// The smoothed stream for the members `f`: the piece of each member at its
/// first occurrence.
pub open spec fn smooth_tokens(key: Seq<u8>, lt: Seq<(Vec<u8>, Vec<ValueType>)>, f: Seq<HistType>) -> Seq<Seq<u8>>
    decreases f.len(),
{
    if f.len() == 0 {
        Seq::empty()
    } else {
        smooth_tokens(key, lt, f.drop_last()) + if seen_before(f, f.len() - 1) {
            Seq::empty()
        } else {
            smooth_piece(key, lt, f.last())
        }
    }
}

/// Some element of `v` holds the bytes `x`.
pub open spec fn holds_bytes(v: Seq<Vec<u8>>, x: Seq<u8>) -> bool {
    exists|i: int| 0 <= i < v.len() && #[trigger] v[i]@ == x
}

/// Whether some element of `v` equals `x`.
fn contains_bytes(v: &Vec<Vec<u8>>, x: &Vec<u8>) -> (r: bool)
    ensures
        r == holds_bytes(v@, x@),
{
    let mut i: usize = 0;
    while i < v.len()
        invariant
            i <= v@.len(),
            forall|k: int| 0 <= k < i ==> v@[k]@ != x@,
        decreases v@.len() - i,
    {
        if bytes_eq(&v[i], x) {
            return true;
        }
        i = i + 1;
    }
    false
}

impl ContextPFSE {
    /// The flattened ciphertext stream: partition after partition, each
    /// message once, at its first occurrence, with all its ciphertexts
    /// repeated; a dummy gives its raw bytes as many times as its count.
    #[verifier::rlimit(40)]
    pub fn smooth(&self) -> (r: Vec<Vec<u8>>)
        requires
            table_keys_distinct(self.local_table@),
        ensures
            views(r@) == smooth_tokens(self.key@, self.local_table@, flat(self.partitions@)),
    {
        let mut out: Vec<Vec<u8>> = Vec::new();
        let mut visited: Vec<Vec<u8>> = Vec::new();
        let ghost ps = self.partitions@;
        let mut g: usize = 0;
        while g < self.partitions.len()
            invariant
                g <= ps.len(),
                ps == self.partitions@,
                table_keys_distinct(self.local_table@),
                views(out@) == smooth_tokens(self.key@, self.local_table@, flat(ps.subrange(0, g as int))),
                forall|x: Seq<u8>| #[trigger] holds_bytes(visited@, x) <==> has_key(flat(ps.subrange(0, g as int)), x),
            decreases ps.len() - g,
        {
            let ghost base = flat(ps.subrange(0, g as int));
            let inner = &self.partitions[g].inner;
            let mut t: usize = 0;
            while t < inner.len()
                invariant
                    t <= inner@.len(),
                    inner@ == ps[g as int].inner@,
                    table_keys_distinct(self.local_table@),
                    views(out@) == smooth_tokens(self.key@, self.local_table@, base + inner@.subrange(0, t as int)),
                    forall|x: Seq<u8>| #[trigger] holds_bytes(visited@, x) <==> has_key(base + inner@.subrange(0, t as int), x),
                decreases inner@.len() - t,
            {
                let ghost f = base + inner@.subrange(0, t as int);
                let ghost f2 = base + inner@.subrange(0, t + 1);
                let message = &inner[t].0;
                let cnt = inner[t].1;
                proof {
                    assert(f2 =~= f.push(inner@[t as int]));
                    assert(f2.drop_last() =~= f);
                }
                let seen = contains_bytes(&visited, message);
                proof {
                    assert(seen == seen_before(f2, f2.len() - 1)) by {
                        if seen {
                            assert(has_key(f, message@));
                            let k = choose|k: int| 0 <= k < f.len() && #[trigger] f[k].0@ == message@;
                            assert(f2[k] == f[k]);
                        }
                        if seen_before(f2, f2.len() - 1) {
                            let k = choose|k: int| 0 <= k < f2.len() - 1 && #[trigger] f2[k].0@ == f2[f2.len() - 1].0@;
                            assert(f[k] == f2[k]);
                            assert(f[k].0@ == message@);
                        }
                    }
                }
                if !seen {
                    let ghost before = views(out@);
                    match self.encrypt_impl(message, true) {
                        Some(c) => {
                            let mut c = c;
                            let ghost cv = views(c@);
                            out.append(&mut c);
                            proof {
                                assert(views(out@) =~= before + cv);
                            }
                        },
                        None => {
                            push_copies(&mut out, message, cnt);
                        },
                    }
                    let ghost vis0 = visited@;
                    visited.push(message.clone());
                    proof {
                        assert forall|x: Seq<u8>| #[trigger] holds_bytes(visited@, x) <==> has_key(f2, x) by {
                            if holds_bytes(visited@, x) {
                                let i = choose|i: int| 0 <= i < visited@.len() && #[trigger] visited@[i]@ == x;
                                if i < vis0.len() {
                                    assert(vis0[i] == visited@[i]);
                                    assert(holds_bytes(vis0, x));
                                    let k = choose|k: int| 0 <= k < f.len() && #[trigger] f[k].0@ == x;
                                    assert(f2[k] == f[k]);
                                } else {
                                    assert(f2[f.len() as int].0@ == x);
                                }
                            }
                            if has_key(f2, x) {
                                let k = choose|k: int| 0 <= k < f2.len() && #[trigger] f2[k].0@ == x;
                                if k < f.len() {
                                    assert(f[k] == f2[k]);
                                    assert(has_key(f, x));
                                    assert(holds_bytes(vis0, x));
                                    let i = choose|i: int| 0 <= i < vis0.len() && #[trigger] vis0[i]@ == x;
                                    assert(visited@[i] == vis0[i]);
                                } else {
                                    assert(visited@[vis0.len() as int]@ == x);
                                }
                            }
                        }
                    }
                } else {
                    proof {
                        assert forall|x: Seq<u8>| #[trigger] holds_bytes(visited@, x) <==> has_key(f2, x) by {
                            if has_key(f2, x) {
                                let k = choose|k: int| 0 <= k < f2.len() && #[trigger] f2[k].0@ == x;
                                if k < f.len() {
                                    assert(f[k] == f2[k]);
                                } else {
                                    assert(x == message@);
                                    assert(has_key(f, x));
                                }
                            }
                            if holds_bytes(visited@, x) {
                                assert(has_key(f, x));
                                let k = choose|k: int| 0 <= k < f.len() && #[trigger] f[k].0@ == x;
                                assert(f2[k] == f[k]);
                            }
                        }
                    }
                }
                t = t + 1;
            }
            proof {
                assert(inner@.subrange(0, inner@.len() as int) =~= inner@);
                assert(ps.subrange(0, g + 1).drop_last() =~= ps.subrange(0, g as int));
                assert(flat(ps.subrange(0, g + 1)) == base + inner@);
            }
            g = g + 1;
        }
        assert(ps.subrange(0, ps.len() as int) =~= ps);
        out
    }
}

/// Sum of the set sizes of the local-table entries `es`.
pub open spec fn sizes_total(es: Seq<ValueType>) -> nat
    decreases es.len(),
{
    if es.len() == 0 {
        0
    } else {
        sizes_total(es.drop_last()) + es.last().1 as nat
    }
}

proof fn lemma_sizes_total_concat(a: Seq<ValueType>, b: Seq<ValueType>)
    ensures
        sizes_total(a + b) == sizes_total(a) + sizes_total(b),
    decreases b.len(),
{
    if b.len() == 0 {
        assert(a + b =~= a);
    } else {
        lemma_sizes_total_concat(a, b.drop_last());
        assert((a + b).drop_last() =~= a + b.drop_last());
    }
}

proof fn lemma_member_entries_positive(h: Seq<HistType>, g: int, phi: int, k: int, m: Seq<u8>)
    requires
        sum_where(h, only(m)) >= 1,
        forall|t: int| 0 <= t < h.len() ==> #[trigger] h[t].1 >= 1,
        1 <= phi <= FIXED_ONE,
        k >= 1,
    ensures
        sizes_total(member_entries(h, g, phi, k, m)) >= 1,
    decreases h.len(),
{
    let q = h.drop_last();
    let e = h.last();
    if e.0@ == m {
        lemma_set_size_bound(phi, k, e.1 as int);
        let entry = (g as usize, set_size(phi, k, e.1 as int) as usize, repeat_count(phi, k) as usize);
        lemma_sizes_total_concat(member_entries(q, g, phi, k, m), seq![entry]);
        assert(seq![entry].drop_last() =~= Seq::<ValueType>::empty());
    } else {
        lemma_member_entries_positive(q, g, phi, k, m);
        assert(member_entries(h, g, phi, k, m) =~= member_entries(q, g, phi, k, m));
    }
}

/// Local-table monotonicity: after `transform`, every message that occurs
/// in the partitioned sample has local-table entries whose set sizes add up
/// to at least one, so that it has at least one ciphertext.
pub proof fn lemma_local_table_positive(ps: Seq<Partition>, law: Seq<u64>, m: Seq<u8>)
    requires
        parts_sum(ps, only(m)) >= 1,
        law_fits(ps, law),
        forall|g: int| 0 <= g < law.len() ==> #[trigger] law[g] <= FIXED_ONE,
        forall|g: int, k: int|
            0 <= g < ps.len() && 0 <= k < ps[g].inner@.len() ==> #[trigger] ps[g].inner@[k].1 >= 1,
    ensures
        sizes_total(table_entries(ps, law, ps.len() as int, m)) >= 1,
{
    assert forall|g: int| 0 <= g < ps.len() implies #[trigger] law_positive(law, g) by {
        assert(law_fits_at(law, g, ps.len() as int));
    }
    lemma_table_entries_positive(ps, law, ps.len() as int, m);
}

/// The law has a positive value for partition `g`.
pub open spec fn law_positive(law: Seq<u64>, g: int) -> bool {
    g < law.len() && law[g] > 0
}

proof fn lemma_table_entries_positive(ps: Seq<Partition>, law: Seq<u64>, k: int, m: Seq<u8>)
    requires
        parts_sum(ps, only(m)) >= 1,
        k >= ps.len(),
        forall|g: int| 0 <= g < ps.len() ==> #[trigger] law_positive(law, g),
        forall|g: int| 0 <= g < law.len() ==> #[trigger] law[g] <= FIXED_ONE,
        forall|g: int, t: int|
            0 <= g < ps.len() && 0 <= t < ps[g].inner@.len() ==> #[trigger] ps[g].inner@[t].1 >= 1,
    ensures
        sizes_total(table_entries(ps, law, k, m)) >= 1,
    decreases ps.len(),
{
    let q = ps.drop_last();
    let last = ps.last();
    let g = ps.len() - 1;
    assert forall|g: int, t: int| 0 <= g < q.len() && 0 <= t < q[g].inner@.len() implies #[trigger] q[g].inner@[t].1 >= 1 by {
        assert(q[g] == ps[g]);
    }
    assert(law_positive(law, g));
    lemma_sizes_total_concat(table_entries(q, law, k, m), member_entries(last.inner@, g, law[g] as int, k, m));
    if sum_where(last.inner@, only(m)) >= 1 {
        assert(law[g] > 0);
        assert forall|t: int| 0 <= t < last.inner@.len() implies #[trigger] last.inner@[t].1 >= 1 by {
            assert(ps[g].inner@[t].1 >= 1);
        }
        lemma_member_entries_positive(last.inner@, g, law[g] as int, k, m);
    } else {
        lemma_table_entries_positive(q, law, k, m);
    }
}

proof fn lemma_entry_tokens_shape(key: Seq<u8>, m: Seq<u8>, e: ValueType, upto: nat, repeat: bool, i: int)
    requires
        0 <= i < entry_tokens(key, m, e, upto, repeat).len(),
    ensures
        exists|j: usize| #[trigger] token_of(key, zero_nonce(), pfse_plain(m, e.0, j)) == entry_tokens(key, m, e, upto, repeat)[i],
    decreases upto,
{
    let prev = entry_tokens(key, m, e, (upto - 1) as nat, repeat);
    if i < prev.len() {
        lemma_entry_tokens_shape(key, m, e, (upto - 1) as nat, repeat, i);
    } else {
        let j = (upto - 1) as usize;
        assert(token_of(key, zero_nonce(), pfse_plain(m, e.0, j)) == entry_tokens(key, m, e, upto, repeat)[i]);
    }
}

/// Round trip and search soundness: every ciphertext that `encrypt_impl`
/// gives for `m` seals a token `m | le(idx) | le(j)`, which `decrypt` maps
/// back to `m`.
pub proof fn lemma_tokens_decrypt_to_message(key: Seq<u8>, m: Seq<u8>, es: Seq<ValueType>, repeat: bool, i: int)
    requires
        0 <= i < message_tokens(key, m, es, repeat).len(),
    ensures
        exists|idx: usize, j: usize| #[trigger] token_of(key, zero_nonce(), pfse_plain(m, idx, j)) == message_tokens(key, m, es, repeat)[i],
    decreases es.len(),
{
    let prev = message_tokens(key, m, es.drop_last(), repeat);
    if i < prev.len() {
        lemma_tokens_decrypt_to_message(key, m, es.drop_last(), repeat, i);
    } else {
        let e = es.last();
        lemma_entry_tokens_shape(key, m, e, e.1 as nat, repeat, i - prev.len());
        let j = choose|j: usize| #[trigger] token_of(key, zero_nonce(), pfse_plain(m, e.0, j)) == entry_tokens(key, m, e, e.1 as nat, repeat)[i - prev.len()];
        assert(token_of(key, zero_nonce(), pfse_plain(m, e.0, j)) == message_tokens(key, m, es, repeat)[i]);
    }
}

proof fn lemma_smooth_prefix(key: Seq<u8>, lt: Seq<(Vec<u8>, Vec<ValueType>)>, f: Seq<HistType>, a: int)
    requires
        0 <= a <= f.len(),
    ensures
        smooth_tokens(key, lt, f.subrange(0, a)).len() <= smooth_tokens(key, lt, f).len(),
        smooth_tokens(key, lt, f).subrange(0, smooth_tokens(key, lt, f.subrange(0, a)).len() as int) == smooth_tokens(key, lt, f.subrange(0, a)),
    decreases f.len() - a,
{
    if a == f.len() {
        assert(f.subrange(0, a) =~= f);
        assert(smooth_tokens(key, lt, f).subrange(0, smooth_tokens(key, lt, f).len() as int) =~= smooth_tokens(key, lt, f));
    } else {
        lemma_smooth_prefix(key, lt, f, a + 1);
        let fa = f.subrange(0, a);
        let fb = f.subrange(0, a + 1);
        assert(fb.drop_last() =~= fa);
        let sa = smooth_tokens(key, lt, fa);
        let sb = smooth_tokens(key, lt, fb);
        let sf = smooth_tokens(key, lt, f);
        assert(sb.subrange(0, sa.len() as int) =~= sa);
        assert(sf.subrange(0, sa.len() as int) =~= sb.subrange(0, sa.len() as int));
    }
}

/// Search completeness of the flattened stream: when `m` occurs among the
/// members and can be encrypted, `smooth_tokens` holds, as one contiguous
/// block, all the ciphertexts of `m` with their repeats; each of the `size`
/// ciphertexts of an entry thus appears `repeat` times.
pub proof fn lemma_smooth_holds_message(key: Seq<u8>, lt: Seq<(Vec<u8>, Vec<ValueType>)>, f: Seq<HistType>, m: Seq<u8>)
    requires
        has_key(f, m),
        encryptable(key, lt, m),
    ensures
        exists|off: int|
            0 <= off && off + message_tokens(key, m, lookup(lt, m), true).len() <= smooth_tokens(key, lt, f).len()
                && #[trigger] smooth_tokens(key, lt, f).subrange(off, off + message_tokens(key, m, lookup(lt, m), true).len())
                == message_tokens(key, m, lookup(lt, m), true),
{
    let k0 = lemma_first_occurrence(f, m);
    let fa = f.subrange(0, k0);
    let fk = f.subrange(0, k0 + 1);
    assert(fk.drop_last() =~= fa);
    assert(!seen_before(fk, k0)) by {
        if seen_before(fk, k0) {
            let i = choose|i: int| 0 <= i < k0 && #[trigger] fk[i].0@ == fk[k0].0@;
            assert(f[i] == fk[i]);
        }
    }
    assert(fk.last() == f[k0]);
    let toks = message_tokens(key, m, lookup(lt, m), true);
    let sa = smooth_tokens(key, lt, fa);
    assert(smooth_tokens(key, lt, fk) == sa + toks);
    lemma_smooth_prefix(key, lt, f, k0 + 1);
    let sf = smooth_tokens(key, lt, f);
    let off = sa.len() as int;
    assert(sf.subrange(off, off + toks.len()) =~= (sa + toks).subrange(off, off + toks.len()));
    assert((sa + toks).subrange(off, off + toks.len()) =~= toks);
}

proof fn lemma_first_occurrence(f: Seq<HistType>, m: Seq<u8>) -> (k: int)
    requires
        has_key(f, m),
    ensures
        0 <= k < f.len(),
        f[k].0@ == m,
        forall|i: int| 0 <= i < k ==> f[i].0@ != m,
    decreases f.len(),
{
    let q = f.drop_last();
    if has_key(q, m) {
        let k = lemma_first_occurrence(q, m);
        assert(f[k] == q[k]);
        assert forall|i: int| 0 <= i < k implies f[i].0@ != m by {
            assert(f[i] == q[i]);
        }
        k
    } else {
        let k = f.len() - 1;
        assert forall|i: int| 0 <= i < k implies f[i].0@ != m by {
            assert(f[i] == q[i]);
            if f[i].0@ == m {
                assert(has_key(q, m));
            }
        }
        let w = choose|i: int| 0 <= i < f.len() && #[trigger] f[i].0@ == m;
        assert(w == k);
        k
    }
}

/// Smooth multiplicity: within a partition, every ciphertext of a member is
/// repeated `round(k / phi)` times and every dummy `ceil(k / phi)` times, so
/// all multiplicities in the partition differ by at most one.
pub proof fn lemma_partition_multiplicities_close(phi: int, k: int)
    requires
        phi >= 1,
        k >= 1,
    ensures
        dummy_count(phi, k) - 1 <= repeat_count(phi, k) <= dummy_count(phi, k),
{
    let a = k * FIXED_ONE;
    assert(a >= 0) by (nonlinear_arith)
        requires k >= 1, a == k * FIXED_ONE;
    assert((2 * a + phi) / (2 * phi) <= (a + phi - 1) / phi) by (nonlinear_arith)
        requires a >= 0, phi >= 1;
    assert((a + phi - 1) / phi - 1 <= (2 * a + phi) / (2 * phi)) by (nonlinear_arith)
        requires a >= 0, phi >= 1;
}
} // verus!
