//! The inference attacks: an l_p-optimisation attacker built on
//! minimum-cost bipartite matching, and a scaled MLE attacker. Both report a
//! weighted recovery rate, in fixed point.

use crate::fixed::{FIXED_ONE, MAX_MESSAGES};
use crate::pfse::ValueType;
use crate::table::{get_values, lookup, table_has, table_keys_distinct};
use crate::util::{
    build_histogram, build_histogram_vec, count_bytes, count_in, intersect_in_order, intersect_spec, views, HistType,
};
use pathfinding::kuhn_munkres::kuhn_munkres_min;
use pathfinding::matrix::Matrix;
use vstd::prelude::*;

verus! {

/// The two attacks.
#[derive(Clone, Copy, Debug, PartialEq, Eq)]
pub enum AttackType {
    LpOptimization,
    MleAttack,
}

/// An auxiliary entry: message, size of its ciphertext set, and count.
pub type AuxEntry = (Vec<u8>, usize, usize);

/// The auxiliary entries as plain values.
pub open spec fn aux_view(a: Seq<AuxEntry>) -> Seq<(Seq<u8>, usize, usize)> {
    a.map_values(|e: AuxEntry| (e.0@, e.1, e.2))
}

/// The auxiliary entries that a row of a local table gives.
pub open spec fn row_aux(row: (Vec<u8>, Vec<ValueType>)) -> Seq<(Seq<u8>, usize, usize)> {
    row.1@.map_values(|e: ValueType| (row.0@, e.1, e.2))
}

/// The auxiliary entries of a local table, row after row.
pub open spec fn aux_of(lt: Seq<(Vec<u8>, Vec<ValueType>)>) -> Seq<(Seq<u8>, usize, usize)>
    decreases lt.len(),
{
    if lt.len() == 0 {
        Seq::empty()
    } else {
        aux_of(lt.drop_last()) + row_aux(lt.last())
    }
}

/// Entry `i` has a count-to-size ratio at least that of entry `j`.
pub open spec fn ratio_ge(a: (Seq<u8>, usize, usize), b: (Seq<u8>, usize, usize)) -> bool {
    ratio_ge_vals(a.1 as int, a.2 as int, b.1 as int, b.2 as int)
}

/// `count_a / size_a >= count_b / size_b`, an empty set size counting as
/// an unbounded ratio.
pub open spec fn ratio_ge_vals(size_a: int, count_a: int, size_b: int, count_b: int) -> bool {
    if size_a == 0 {
        true
    } else if size_b == 0 {
        false
    } else {
        count_a * size_b >= count_b * size_a
    }
}

fn ratio_at_least(size_a: usize, count_a: usize, size_b: usize, count_b: usize) -> (r: bool)
    requires
        size_a <= MAX_MESSAGES,
        count_a <= MAX_MESSAGES,
        size_b <= MAX_MESSAGES,
        count_b <= MAX_MESSAGES,
    ensures
        r == ratio_ge_vals(size_a as int, count_a as int, size_b as int, count_b as int),
{
    if size_a == 0 {
        true
    } else if size_b == 0 {
        false
    } else {
        mul_wide(count_a, size_b) >= mul_wide(count_b, size_a)
    }
}

/// The entries are ordered by count-to-size ratio, largest first.
pub open spec fn ratio_desc(a: Seq<AuxEntry>) -> bool {
    forall|i: int, j: int| 0 <= i < j < a.len() ==> ratio_ge(aux_view(a)[i], aux_view(a)[j])
}

/// Sum of the counts of the entries.
pub open spec fn count_sum(a: Seq<(Seq<u8>, usize, usize)>) -> int
    decreases a.len(),
{
    if a.len() == 0 {
        0
    } else {
        count_sum(a.drop_last()) + a.last().2
    }
}

/// The local table is small enough for the rate arithmetic, and every set
/// size is positive.
pub open spec fn table_bounded(lt: Seq<(Vec<u8>, Vec<ValueType>)>) -> bool {
    &&& aux_of(lt).len() <= MAX_MESSAGES
    &&& forall|i: int| #![trigger aux_of(lt)[i]] 0 <= i < aux_of(lt).len() ==> aux_of(lt)[i].2 <= MAX_MESSAGES && aux_of(lt)[i].1
        <= MAX_MESSAGES
}

/// Builds the auxiliary entries of a local table.
pub fn build_auxiliary(lt: &Vec<(Vec<u8>, Vec<ValueType>)>) -> (r: Vec<AuxEntry>)
    ensures
        aux_view(r@) == aux_of(lt@),
{
    let mut out: Vec<AuxEntry> = Vec::new();
    let mut i: usize = 0;
    while i < lt.len()
        invariant
            i <= lt@.len(),
            aux_view(out@) == aux_of(lt@.subrange(0, i as int)),
        decreases lt@.len() - i,
    {
        let ghost base = aux_view(out@);
        let row = &lt[i];
        let mut j: usize = 0;
        while j < row.1.len()
            invariant
                j <= row.1@.len(),
                row == &lt@[i as int],
                aux_view(out@) == base + row_aux(*row).subrange(0, j as int),
            decreases row.1@.len() - j,
        {
            let (_, size, count) = row.1[j];
            let key = row.0.clone();
            let ghost o0 = aux_view(out@);
            out.push((key, size, count));
            proof {
                assert(aux_view(out@) =~= o0.push((row.0@, size, count)));
                assert(row_aux(*row).subrange(0, j + 1) =~= row_aux(*row).subrange(0, j as int).push((row.0@, size, count)));
            }
            j = j + 1;
        }
        proof {
            assert(row_aux(*row).subrange(0, row.1@.len() as int) =~= row_aux(*row));
            assert(lt@.subrange(0, i + 1).drop_last() =~= lt@.subrange(0, i as int));
        }
        i = i + 1;
    }
    assert(lt@.subrange(0, lt@.len() as int) =~= lt@);
    out
}

/// `a * b`, without overflow.
fn mul_wide(a: usize, b: usize) -> (r: u128)
    requires
        a <= MAX_MESSAGES,
        b <= MAX_MESSAGES,
    ensures
        r == a * b,
{
    proof {
        assert(a * b <= 1099511627776 * 1099511627776) by (nonlinear_arith)
            requires 0 <= a <= 1099511627776, 0 <= b <= 1099511627776;
    }
    (a as u128) * (b as u128)
}

proof fn lemma_ratio_trans(c2: int, c1: int, a2: int, a1: int, b2: int, b1: int)
    requires
        a1 >= 1,
        b1 >= 1,
        c1 >= 1,
        a2 * c1 < c2 * a1,
        a2 * b1 >= b2 * a1,
    ensures
        c2 * b1 >= b2 * c1,
{
    assert(a2 * c1 * b1 < c2 * a1 * b1) by (nonlinear_arith)
        requires a2 * c1 < c2 * a1, b1 >= 1;
    assert(a2 * b1 * c1 >= b2 * a1 * c1) by (nonlinear_arith)
        requires a2 * b1 >= b2 * a1, c1 >= 1;
    assert(c2 * b1 * a1 >= b2 * c1 * a1) by (nonlinear_arith)
        requires a2 * c1 * b1 < c2 * a1 * b1, a2 * b1 * c1 >= b2 * a1 * c1;
    assert(c2 * b1 >= b2 * c1) by (nonlinear_arith)
        requires c2 * b1 * a1 >= b2 * c1 * a1, a1 >= 1;
}

/// Orders auxiliary entries by count-to-size ratio, largest first; entries
/// of equal ratio keep their order.
#[verifier::rlimit(40)]
pub fn sort_by_ratio(aux: &Vec<AuxEntry>) -> (r: Vec<AuxEntry>)
    requires
        forall|i: int| #![trigger aux@[i]] 0 <= i < aux@.len() ==> aux@[i].1 <= MAX_MESSAGES && aux@[i].2 <= MAX_MESSAGES,
    ensures
        ratio_desc(r@),
        aux_view(r@).to_multiset() == aux_view(aux@).to_multiset(),
        r@.len() == aux@.len(),
        forall|i: int| #![trigger r@[i]] 0 <= i < r@.len() ==> r@[i].1 <= MAX_MESSAGES && r@[i].2 <= MAX_MESSAGES,
{
    broadcast use vstd::seq_lib::group_to_multiset_ensures;

    let mut out: Vec<AuxEntry> = Vec::new();
    let mut k: usize = 0;
    while k < aux.len()
        invariant
            k <= aux@.len(),
            ratio_desc(out@),
            out@.len() == k,
            aux_view(out@).to_multiset() == aux_view(aux@.subrange(0, k as int)).to_multiset(),
            forall|i: int| #![trigger aux@[i]] 0 <= i < aux@.len() ==> aux@[i].1 <= MAX_MESSAGES && aux@[i].2 <= MAX_MESSAGES,
            forall|i: int| #![trigger out@[i]] 0 <= i < out@.len() ==> out@[i].1 <= MAX_MESSAGES && out@[i].2 <= MAX_MESSAGES,
        decreases aux@.len() - k,
    {
        let size = aux[k].1;
        let count = aux[k].2;
        let mut pos: usize = 0;
        while pos < out.len() && ratio_at_least(out[pos].1, out[pos].2, size, count)
            invariant
                pos <= out@.len(),
                forall|i: int| 0 <= i < pos ==> ratio_ge_vals(out@[i].1 as int, out@[i].2 as int, size as int, count as int),
                forall|i: int| #![trigger out@[i]] 0 <= i < out@.len() ==> out@[i].1 <= MAX_MESSAGES && out@[i].2 <= MAX_MESSAGES,
                size <= MAX_MESSAGES,
                count <= MAX_MESSAGES,
            decreases out@.len() - pos,
        {
            proof {
                let a = out@[pos as int].2 as int;
                let b = out@[pos as int].1 as int;
                assert(a * size <= 1099511627776 * 1099511627776) by (nonlinear_arith)
                    requires 0 <= a <= 1099511627776, 0 <= size <= 1099511627776;
                assert(count * b <= 1099511627776 * 1099511627776) by (nonlinear_arith)
                    requires 0 <= b <= 1099511627776, 0 <= count <= 1099511627776;
            }
            pos = pos + 1;
        }
        let ghost before = out@;
        let entry = (aux[k].0.clone(), size, count);
        out.insert(pos, entry);
        proof {
            assert(out@ =~= before.insert(pos as int, entry));
            assert(entry.0@ == aux@[k as int].0@);
            let e = (entry.0@, size, count);
            assert(aux_view(out@) =~= aux_view(before).insert(pos as int, e));
            assert(aux_view(before).len() == before.len());
            vstd::seq_lib::to_multiset_insert(aux_view(before), pos as int, e);
            let sub = aux_view(aux@.subrange(0, k as int));
            assert(aux_view(aux@.subrange(0, k + 1)) =~= sub.push(e));
            sub.to_multiset_ensures();
            assert(sub.push(e).to_multiset() =~= sub.to_multiset().insert(e));
            assert forall|i: int| #![trigger out@[i]] 0 <= i < out@.len() implies out@[i].1 <= MAX_MESSAGES && out@[i].2 <= MAX_MESSAGES by {
                if i < pos {
                    assert(out@[i] == before[i]);
                } else if i > pos {
                    assert(out@[i] == before[i - 1]);
                }
            }
            assert forall|i: int, j: int| 0 <= i < j < out@.len() implies ratio_ge(aux_view(out@)[i], aux_view(out@)[j]) by {
                assert(aux_view(out@)[i] == (out@[i].0@, out@[i].1, out@[i].2));
                assert(aux_view(out@)[j] == (out@[j].0@, out@[j].1, out@[j].2));
                if j < pos {
                    assert(ratio_ge(aux_view(before)[i], aux_view(before)[j]));
                } else if j == pos {
                    assert(out@[i] == before[i]);
                } else if i < pos {
                    assert(out@[i] == before[i]);
                    assert(out@[j] == before[j - 1]);
                    assert(ratio_ge(aux_view(before)[i], aux_view(before)[j - 1]));
                } else if i == pos {
                    assert(out@[j] == before[j - 1]);
                    let a2 = before[pos as int].2 as int;
                    let a1 = before[pos as int].1 as int;
                    let b2 = before[j - 1].2 as int;
                    let b1 = before[j - 1].1 as int;
                    assert(!ratio_ge_vals(a1, a2, size as int, count as int));
                    if j - 1 > pos {
                        assert(ratio_ge(aux_view(before)[pos as int], aux_view(before)[j - 1]));
                    }
                    assert(ratio_ge_vals(a1, a2, b1, b2));
                    if size != 0 {
                        assert(a1 >= 1 && b1 >= 1 && size >= 1);
                        lemma_ratio_trans(count as int, size as int, a2, a1, b2, b1);
                    }
                } else {
                    assert(out@[i] == before[i - 1]);
                    assert(out@[j] == before[j - 1]);
                    assert(ratio_ge(aux_view(before)[i - 1], aux_view(before)[j - 1]));
                }
            }
        }
        k = k + 1;
    }
    assert(aux@.subrange(0, aux@.len() as int) =~= aux@);
    out
}

/// Share of the recovery rate for one correctly placed ciphertext: the
/// message's weight `count / m` times the ciphertext's weight `k / size` in
/// its own ciphertext set, in fixed point.
pub open spec fn weight_term(count: int, k: int, size: int, m: int) -> int {
    if m <= 0 || size <= 0 {
        0
    } else {
        count * k * FIXED_ONE / (m * size)
    }
}

/// Sum of the weights of the ciphertexts `common` of a message of count
/// `count`, whose ciphertext set is `cset`.
pub open spec fn common_rate(common: Seq<Seq<u8>>, cset: Seq<Seq<u8>>, count: int, m: int) -> int
    decreases common.len(),
{
    if common.len() == 0 {
        0
    } else {
        common_rate(common.drop_last(), cset, count, m) + weight_term(
            count,
            count_in(cset, common.last()) as int,
            cset.len() as int,
            m,
        )
    }
}

/// The ciphertext set of `msg` in the ground truth `correct`, as plain values.
pub open spec fn correct_set(correct: Seq<(Vec<u8>, Vec<Vec<u8>>)>, msg: Seq<u8>) -> Seq<Seq<u8>> {
    views(lookup(correct, msg))
}

/// What one block of the MLE assignment adds to the rate: the weights of the
/// assigned ciphertexts that truly belong to the block's message.
pub open spec fn block_rate(
    correct: Seq<(Vec<u8>, Vec<Vec<u8>>)>,
    aux: Seq<(Seq<u8>, usize, usize)>,
    block: (int, Seq<Seq<u8>>),
    m: int,
) -> int {
    let e = aux[block.0];
    if table_has(correct, e.0) {
        common_rate(intersect_spec(block.1, correct_set(correct, e.0)), correct_set(correct, e.0), e.2 as int, m)
    } else {
        0
    }
}

/// The MLE recovery rate of an assignment, in fixed point.
pub open spec fn mle_rate(
    correct: Seq<(Vec<u8>, Vec<Vec<u8>>)>,
    aux: Seq<(Seq<u8>, usize, usize)>,
    blocks: Seq<(int, Seq<Seq<u8>>)>,
    m: int,
) -> int
    decreases blocks.len(),
{
    if blocks.len() == 0 {
        0
    } else {
        mle_rate(correct, aux, blocks.drop_last(), m) + block_rate(correct, aux, blocks.last(), m)
    }
}

/// The MLE assignment from position `i` of the ciphertext keys and entry
/// `cur` of the auxiliary sizes on: each entry takes the next `size` keys.
pub open spec fn mle_blocks(keys: Seq<Seq<u8>>, sizes: Seq<int>, cur: int, i: int) -> Seq<(int, Seq<Seq<u8>>)>
    decreases sizes.len() - cur,
{
    if cur < 0 || cur >= sizes.len() || i < 0 || i >= keys.len() {
        Seq::empty()
    } else {
        let end = if i + sizes[cur] < keys.len() {
            i + sizes[cur]
        } else {
            keys.len() as int
        };
        seq![(cur, keys.subrange(i, end))] + mle_blocks(keys, sizes, cur + 1, end)
    }
}

/// The messages of a histogram.
pub open spec fn hist_keys(h: Seq<HistType>) -> Seq<Seq<u8>> {
    h.map_values(|e: HistType| e.0@)
}

/// The set sizes of auxiliary entries.
pub open spec fn aux_sizes(a: Seq<(Seq<u8>, usize, usize)>) -> Seq<int> {
    a.map_values(|e: (Seq<u8>, usize, usize)| e.1 as int)
}

/// An assignment as plain values.
pub open spec fn blocks_view(a: Seq<(usize, Vec<Vec<u8>>)>) -> Seq<(int, Seq<Seq<u8>>)> {
    a.map_values(|b: (usize, Vec<Vec<u8>>)| (b.0 as int, views(b.1@)))
}

/// The ciphertext sets of `correct` are small enough for the rate arithmetic.
pub open spec fn correct_bounded(correct: Seq<(Vec<u8>, Vec<Vec<u8>>)>) -> bool {
    &&& table_keys_distinct(correct)
    &&& forall|x: Seq<u8>| #[trigger] lookup(correct, x).len() <= MAX_MESSAGES
}

proof fn lemma_count_in_le_len(s: Seq<Seq<u8>>, x: Seq<u8>)
    ensures
        count_in(s, x) <= s.len(),
    decreases s.len(),
{
    if s.len() > 0 {
        lemma_count_in_le_len(s.drop_last(), x);
    }
}

proof fn lemma_intersect_len(a: Seq<Seq<u8>>, b: Seq<Seq<u8>>)
    ensures
        intersect_spec(a, b).len() <= a.len(),
    decreases a.len(),
{
    if a.len() > 0 {
        lemma_intersect_len(a.drop_last(), b);
    }
}

/// The weights of the ciphertexts of `common` in the set `cset`.
fn common_weights(common: &Vec<Vec<u8>>, cset: &Vec<Vec<u8>>, count: usize, m: u128) -> (r: u128)
    requires
        count <= m,
        count <= MAX_MESSAGES,
        cset@.len() <= MAX_MESSAGES,
        m <= 1099511627776 * 1099511627776,
    ensures
        r == common_rate(views(common@), views(cset@), count as int, m as int),
        r <= common@.len() * FIXED_ONE,
{
    let mut acc: u128 = 0;
    let mut t: usize = 0;
    let size = cset.len() as u128;
    while t < common.len()
        invariant
            t <= common@.len(),
            count <= m,
            count <= MAX_MESSAGES,
            size == cset@.len(),
            size <= MAX_MESSAGES,
            m <= 1099511627776 * 1099511627776,
            acc == common_rate(views(common@.subrange(0, t as int)), views(cset@), count as int, m as int),
            acc <= t * FIXED_ONE,
        decreases common@.len() - t,
    {
        let k = count_bytes(cset.as_slice(), &common[t], cset.len()) as u128;
        proof {
            assert(cset@.subrange(0, cset@.len() as int) =~= cset@);
            lemma_count_in_le_len(views(cset@), common@[t as int]@);
            assert(views(common@.subrange(0, t + 1)).drop_last() =~= views(common@.subrange(0, t as int)));
            assert(views(common@.subrange(0, t + 1)).last() == common@[t as int]@);
            assert(count * k <= 1099511627776 * 1099511627776) by (nonlinear_arith)
                requires count <= 1099511627776, k <= 1099511627776;
            assert(count * k * FIXED_ONE <= 1099511627776 * 1099511627776 * FIXED_ONE) by (nonlinear_arith)
                requires count * k <= 1099511627776 * 1099511627776;
        }
        let term = if m == 0 || size == 0 {
            0
        } else {
            proof {
                assert(m * size <= 1099511627776 * 1099511627776 * 1099511627776) by (nonlinear_arith)
                    requires m <= 1099511627776 * 1099511627776, size <= 1099511627776;
                assert(m * size >= 1) by (nonlinear_arith)
                    requires m >= 1, size >= 1;
                assert(count * k * FIXED_ONE <= m * size * FIXED_ONE) by (nonlinear_arith)
                    requires count <= m, k <= size;
                assert(count * k * FIXED_ONE / (m * size) <= FIXED_ONE) by (nonlinear_arith)
                    requires count * k * FIXED_ONE <= m * size * FIXED_ONE, m * size >= 1;
            }
            count as u128 * k * (FIXED_ONE as u128) / (m * size)
        };
        acc = acc + term;
        t = t + 1;
    }
    assert(common@.subrange(0, common@.len() as int) =~= common@);
    acc
}

proof fn lemma_entry_le_count_sum(a: Seq<(Seq<u8>, usize, usize)>, i: int)
    requires
        0 <= i < a.len(),
    ensures
        a[i].2 <= count_sum(a),
        count_sum(a) >= 0,
    decreases a.len(),
{
    lemma_count_sum_nonneg(a.drop_last());
    if i < a.len() - 1 {
        lemma_entry_le_count_sum(a.drop_last(), i);
    }
}

proof fn lemma_count_sum_nonneg(a: Seq<(Seq<u8>, usize, usize)>)
    ensures
        count_sum(a) >= 0,
    decreases a.len(),
{
    if a.len() > 0 {
        lemma_count_sum_nonneg(a.drop_last());
    }
}

/// Sum of the counts of auxiliary entries.
fn count_total(aux: &Vec<AuxEntry>) -> (r: u128)
    requires
        aux@.len() <= MAX_MESSAGES,
        forall|i: int| #![trigger aux@[i]] 0 <= i < aux@.len() ==> aux@[i].2 <= MAX_MESSAGES,
    ensures
        r == count_sum(aux_view(aux@)),
        r <= MAX_MESSAGES * MAX_MESSAGES,
{
    let mut r: u128 = 0;
    let mut i: usize = 0;
    while i < aux.len()
        invariant
            i <= aux@.len() <= MAX_MESSAGES,
            forall|i: int| #![trigger aux@[i]] 0 <= i < aux@.len() ==> aux@[i].2 <= MAX_MESSAGES,
            r == count_sum(aux_view(aux@.subrange(0, i as int))),
            r <= i * MAX_MESSAGES,
        decreases aux@.len() - i,
    {
        proof {
            assert(aux_view(aux@.subrange(0, i + 1)).drop_last() =~= aux_view(aux@.subrange(0, i as int)));
            assert(aux_view(aux@.subrange(0, i + 1)).last() == (aux@[i as int].0@, aux@[i as int].1, aux@[i as int].2));
            assert(i * MAX_MESSAGES + MAX_MESSAGES <= MAX_MESSAGES * MAX_MESSAGES) by (nonlinear_arith)
                requires i < MAX_MESSAGES;
        }
        r = r + aux[i].2 as u128;
        i = i + 1;
    }
    assert(aux@.subrange(0, aux@.len() as int) =~= aux@);
    r
}

/// Cuts the ordered ciphertext keys into consecutive blocks, one per
/// auxiliary entry, of the entry's set size.
fn assign_blocks(hv: &Vec<HistType>, aux: &Vec<AuxEntry>) -> (a: Vec<(usize, Vec<Vec<u8>>)>)
    ensures
        blocks_view(a@) == mle_blocks(hist_keys(hv@), aux_sizes(aux_view(aux@)), 0, 0),
        forall|b: int| 0 <= b < a@.len() ==> #[trigger] a@[b].0 < aux@.len() && a@[b].1@.len() <= aux@[a@[b].0 as int].1,
        a@.len() <= aux@.len(),
{
    let ghost keys = hist_keys(hv@);
    let ghost sizes = aux_sizes(aux_view(aux@));
    let mut out: Vec<(usize, Vec<Vec<u8>>)> = Vec::new();
    let mut cur: usize = 0;
    let mut i: usize = 0;
    while i < hv.len() && cur < aux.len()
        invariant
            cur <= aux@.len(),
            i <= hv@.len(),
            keys == hist_keys(hv@),
            sizes == aux_sizes(aux_view(aux@)),
            blocks_view(out@) + mle_blocks(keys, sizes, cur as int, i as int) == mle_blocks(keys, sizes, 0, 0),
            forall|b: int| 0 <= b < out@.len() ==> #[trigger] out@[b].0 < aux@.len() && out@[b].1@.len() <= aux@[out@[b].0 as int].1,
            out@.len() == cur,
        decreases aux@.len() - cur,
    {
        let size = aux[cur].1;
        let end = if size < hv.len() - i {
            i + size
        } else {
            hv.len()
        };
        let mut set: Vec<Vec<u8>> = Vec::new();
        let mut t: usize = i;
        while t < end
            invariant
                i <= t <= end <= hv@.len(),
                views(set@) == keys.subrange(i as int, t as int),
                keys == hist_keys(hv@),
            decreases end - t,
        {
            let ghost s0 = views(set@);
            set.push(hv[t].0.clone());
            proof {
                assert(views(set@) =~= s0.push(hv@[t as int].0@));
                assert(keys.subrange(i as int, t + 1) =~= keys.subrange(i as int, t as int).push(keys[t as int]));
            }
            t = t + 1;
        }
        let ghost b0 = blocks_view(out@);
        out.push((cur, set));
        proof {
            assert(sizes[cur as int] == size);
            assert(blocks_view(out@) =~= b0.push((cur as int, keys.subrange(i as int, end as int))));
            let rest = mle_blocks(keys, sizes, cur + 1, end as int);
            assert(mle_blocks(keys, sizes, cur as int, i as int) == seq![(cur as int, keys.subrange(i as int, end as int))] + rest);
            assert(b0 + (seq![(cur as int, keys.subrange(i as int, end as int))] + rest) =~= b0.push((cur as int, keys.subrange(i as int, end as int))) + rest);
            assert(views(out@.last().1@).len() == out@.last().1@.len());
        }
        cur = cur + 1;
        i = end;
    }
    proof {
        assert(mle_blocks(keys, sizes, cur as int, i as int) =~= Seq::<(int, Seq<Seq<u8>>)>::empty());
        assert(blocks_view(out@) + Seq::<(int, Seq<Seq<u8>>)>::empty() =~= blocks_view(out@));
    }
    out
}

/// The scaled MLE attacker.
pub struct MLEAttacker {
    /// The assignment of the last attack: auxiliary index and ciphertexts.
    pub assignment: Option<Vec<(usize, Vec<Vec<u8>>)>>,
    /// The auxiliary entries of the last attack, in the order used.
    pub auxiliary: Vec<AuxEntry>,
}

impl MLEAttacker {
    /// An attacker that has not attacked yet.
    pub fn new() -> (r: MLEAttacker)
        ensures
            r.assignment is None,
            r.auxiliary@.len() == 0,
    {
        MLEAttacker { assignment: None, auxiliary: Vec::new() }
    }

    /// Mounts the attack: orders the auxiliary entries of `local_table` by
    /// count over set size, orders the observed ciphertexts by frequency,
    /// gives each entry the next `set size` ciphertexts, and returns the
    /// weighted recovery rate against the ground truth `correct`, in fixed
    /// point.
    #[verifier::rlimit(40)]
    pub fn attack(
        &mut self,
        correct: &Vec<(Vec<u8>, Vec<Vec<u8>>)>,
        local_table: &Vec<(Vec<u8>, Vec<ValueType>)>,
        raw_ciphertexts: &[Vec<u8>],
    ) -> (rate: u128)
        requires
            table_bounded(local_table@),
            correct_bounded(correct@),
        ensures
            final(self).assignment is Some,
            ratio_desc(final(self).auxiliary@),
            aux_view(final(self).auxiliary@).to_multiset() == aux_of(local_table@).to_multiset(),
            exists|hv: Seq<HistType>|
                crate::util::is_histogram_of(hv, views(raw_ciphertexts@)) && crate::util::sorted_desc(hv)
                    && #[trigger] blocks_view(final(self).assignment->0@) == mle_blocks(
                    hist_keys(hv),
                    aux_sizes(aux_view(final(self).auxiliary@)),
                    0,
                    0,
                ),
            rate == mle_rate(
                correct@,
                aux_view(final(self).auxiliary@),
                blocks_view(final(self).assignment->0@),
                count_sum(aux_view(final(self).auxiliary@)),
            ),
            rate <= FIXED_ONE,
    {
        broadcast use vstd::seq_lib::group_to_multiset_ensures;

        let aux0 = build_auxiliary(local_table);
        proof {
            assert forall|i: int| #![trigger aux0@[i]] 0 <= i < aux0@.len() implies aux0@[i].1 <= MAX_MESSAGES
                && aux0@[i].2 <= MAX_MESSAGES by {
                assert(aux_view(aux0@)[i] == aux_of(local_table@)[i]);
            }
        }
        let aux = sort_by_ratio(&aux0);
        let m = count_total(&aux);
        let hist = build_histogram(raw_ciphertexts);
        let hv = build_histogram_vec(&hist);
        proof {
            crate::util::lemma_reordered_histogram(hist@, hv@, views(raw_ciphertexts@));
        }
        let blocks = assign_blocks(&hv, &aux);
        let ghost auxv = aux_view(aux@);
        let ghost bv = blocks_view(blocks@);
        let ghost mm = count_sum(aux_view(aux@));
        let mut rate: u128 = 0;
        let mut b: usize = 0;
        while b < blocks.len()
            invariant
                b <= blocks@.len(),
                blocks@.len() <= aux@.len(),
                aux@.len() == aux_of(local_table@).len(),
                auxv == aux_view(aux@),
                bv == blocks_view(blocks@),
                m == mm,
                m <= MAX_MESSAGES * MAX_MESSAGES,
                mm == count_sum(auxv),
                forall|i: int| #![trigger aux@[i]] 0 <= i < aux@.len() ==> aux@[i].1 <= MAX_MESSAGES && aux@[i].2
                    <= MAX_MESSAGES,
                table_bounded(local_table@),
                correct_bounded(correct@),
                forall|c: int| 0 <= c < blocks@.len() ==> #[trigger] blocks@[c].0 < aux@.len() && blocks@[c].1@.len()
                    <= aux@[blocks@[c].0 as int].1,
                rate == mle_rate(correct@, auxv, bv.subrange(0, b as int), mm),
                rate <= b * (MAX_MESSAGES * FIXED_ONE),
            decreases blocks@.len() - b,
        {
            let idx = blocks[b].0;
            let count = aux[idx].2;
            let ghost x = auxv[idx as int];
            proof {
                assert(x == (aux@[idx as int].0@, aux@[idx as int].1, aux@[idx as int].2));
                lemma_entry_le_count_sum(auxv, idx as int);
                assert(aux@[idx as int].1 <= MAX_MESSAGES);
                assert(bv.subrange(0, b + 1).drop_last() =~= bv.subrange(0, b as int));
                assert(bv.subrange(0, b + 1).last() == bv[b as int]);
                assert(bv[b as int] == (idx as int, views(blocks@[b as int].1@)));
            }
            let w = match get_values(correct, &aux[idx].0) {
                Some(cset) => {
                    let common = intersect_in_order(blocks[b].1.as_slice(), cset.as_slice());
                    proof {
                        lemma_intersect_len(views(blocks@[b as int].1@), views(cset@));
                        assert(cset@.len() == lookup(correct@, aux@[idx as int].0@).len());
                    }
                    common_weights(&common, cset, count, m)
                },
                None => 0,
            };
            proof {
                assert(w <= MAX_MESSAGES * FIXED_ONE) by (nonlinear_arith)
                    requires w <= blocks@[b as int].1@.len() * FIXED_ONE || w == 0, blocks@[b as int].1@.len() <= MAX_MESSAGES;
                assert(b * (MAX_MESSAGES * FIXED_ONE) + MAX_MESSAGES * FIXED_ONE <= (MAX_MESSAGES + 1) * (MAX_MESSAGES * FIXED_ONE)) by (nonlinear_arith)
                    requires b <= MAX_MESSAGES;
                assert((b + 1) * (MAX_MESSAGES * FIXED_ONE) == b * (MAX_MESSAGES * FIXED_ONE) + MAX_MESSAGES * FIXED_ONE) by (nonlinear_arith);
            }
            rate = rate + w;
            b = b + 1;
        }
        proof {
            assert(bv.subrange(0, blocks@.len() as int) =~= bv);
        }
        self.assignment = Some(blocks);
        proof {
            assert(hist_keys(hv@).len() == hv@.len());
            assert(no_dups(hist_keys(hv@))) by {
                assert forall|i: int, j: int| 0 <= i < j < hist_keys(hv@).len() implies hist_keys(hv@)[i] != hist_keys(
                    hv@,
                )[j] by {
                    assert(hist_keys(hv@)[i] == hv@[i].0@ && hist_keys(hv@)[j] == hv@[j].0@);
                }
            }
            assert(bv == mle_blocks(hist_keys(hv@), aux_sizes(auxv), 0, 0));
            lemma_mle_rate_at_most_one(correct@, auxv, hist_keys(hv@));
        }
        self.auxiliary = aux;
        rate
    }
}

/// Largest number of rows of a cost matrix handed to the assignment solver.
pub const MAX_DIM: usize = 16384;

/// Largest magnitude of a cost handed to the assignment solver, so that its
/// potentials and sums stay far inside `i128`.
pub const COST_BOUND: i128 = 4611686018427387904;

/// `b^e`.
pub open spec fn ipow(b: int, e: nat) -> int
    decreases e,
{
    if e == 0 {
        1
    } else {
        b * ipow(b, (e - 1) as nat)
    }
}

/// The l_p cost between an auxiliary entry and a ciphertext entry:
/// `(entry count - ciphertext count)^p`.
pub open spec fn pair_cost(e: (Seq<u8>, usize, usize), c: HistType, p: nat) -> int {
    ipow(e.2 as int - c.1 as int, p)
}

/// Every cost between the two sides lies within `COST_BOUND`.
pub open spec fn costs_fit(aux: Seq<(Seq<u8>, usize, usize)>, cts: Seq<HistType>, p: nat) -> bool {
    forall|i: int, j: int|
        0 <= i < aux.len() && 0 <= j < cts.len() ==> -COST_BOUND <= #[trigger] pair_cost(aux[i], cts[j], p)
            <= COST_BOUND
}

/// `a` assigns each of `n` rows a distinct column below `n`.
pub open spec fn is_assignment(a: Seq<usize>, n: int) -> bool {
    &&& a.len() == n
    &&& forall|i: int| 0 <= i < n ==> #[trigger] a[i] < n
    &&& forall|i: int, j: int| 0 <= i < j < n ==> a[i] != a[j]
}

/// Total cost of the first `k` rows of assignment `a` in the row-major
/// `n` by `n` matrix `w`.
pub open spec fn assignment_cost(w: Seq<i128>, n: int, a: Seq<usize>, k: int) -> int
    decreases k,
{
    if k <= 0 {
        0
    } else {
        assignment_cost(w, n, a, k - 1) + w[(k - 1) * n + a[k - 1]] as int
    }
}

/// Relies on pathfinding's `Matrix::from_vec` (a row-major `n` by `n`
/// matrix from `n * n` values) and `kuhn_munkres_min`, which returns, for
/// each row, the column of a perfect matching of minimum total weight.
#[verifier::external_body]
fn min_cost_assignment(n: usize, weights: &Vec<i128>) -> (r: Vec<usize>)
    requires
        weights@.len() == n * n,
        n <= MAX_DIM,
        forall|i: int| 0 <= i < weights@.len() ==> -COST_BOUND <= #[trigger] weights@[i] <= COST_BOUND,
    ensures
        is_assignment(r@, n as int),
        forall|p: Seq<usize>|
            #[trigger] is_assignment(p, n as int) ==> assignment_cost(weights@, n as int, r@, n as int) <= assignment_cost(
                weights@,
                n as int,
                p,
                n as int,
            ),
{
    match Matrix::from_vec(n, n, weights.clone()) {
        Ok(matrix) => kuhn_munkres_min(&matrix).1,
        Err(_) => Vec::new(),
    }
}

proof fn lemma_ipow_ge_base(mag: int, p: nat)
    requires
        mag >= 1,
        p >= 1,
    ensures
        ipow(mag, p) >= mag,
    decreases p,
{
    if p > 1 {
        lemma_ipow_ge_base(mag, (p - 1) as nat);
        let q = ipow(mag, (p - 1) as nat);
        assert(mag * q >= mag) by (nonlinear_arith)
            requires q >= mag, mag >= 1;
    } else {
        assert(ipow(mag, 0) == 1);
    }
}

/// `d^p` when it lies within `COST_BOUND`, else `None`.
fn lp_cost_exec(d: i128, p: usize) -> (r: Option<i128>)
    requires
        -18446744073709551616 <= d <= 18446744073709551616,
    ensures
        r is Some <==> -COST_BOUND <= ipow(d as int, p as nat) <= COST_BOUND,
        r matches Some(v) ==> v == ipow(d as int, p as nat),
{
    let neg = d < 0;
    let mag: u128 = if neg {
        (-d) as u128
    } else {
        d as u128
    };
    proof {
        lemma_ipow_sign(d as int, mag as int, p as nat);
    }
    if p == 0 {
        return Some(1);
    }
    let cap: u128 = COST_BOUND as u128 + 1;
    if mag >= cap {
        proof {
            lemma_ipow_ge_base(mag as int, p as nat);
        }
        return None;
    }
    let mut acc: u128 = 1;
    let mut i: usize = 0;
    while i < p
        invariant
            i <= p,
            mag < cap,
            cap == COST_BOUND + 1,
            acc == if ipow(mag as int, i as nat) < cap {
                ipow(mag as int, i as nat)
            } else {
                cap as int
            },
            ipow(mag as int, i as nat) >= 0,
        decreases p - i,
    {
        proof {
            let q = ipow(mag as int, i as nat);
            assert(ipow(mag as int, (i + 1) as nat) == mag * q);
            assert(acc * mag <= (COST_BOUND + 1) * (COST_BOUND + 1)) by (nonlinear_arith)
                requires acc <= COST_BOUND + 1, mag <= COST_BOUND + 1, acc >= 0, mag >= 0;
            assert(4611686018427387905int * 4611686018427387905int <= 340282366920938463463374607431768211455int)
                by (nonlinear_arith);
            assert(acc * mag <= 340282366920938463463374607431768211455int);
            assert(mag * q >= 0) by (nonlinear_arith)
                requires q >= 0, mag >= 0;
        }
        let next = acc * mag;
        let ghost q = ipow(mag as int, i as nat);
        acc = if next < cap {
            next
        } else {
            cap
        };
        proof {
            let q2 = ipow(mag as int, (i + 1) as nat);
            assert(q2 == mag * q);
            if q < cap {
                let a0 = if q < cap { q } else { cap as int };
                assert(a0 * mag == mag * q) by (nonlinear_arith)
                    requires a0 == q;
                assert(next == q2);
            } else {
                if mag >= 1 {
                    assert(mag * q >= cap) by (nonlinear_arith)
                        requires q >= cap, mag >= 1;
                    assert(next >= cap) by (nonlinear_arith)
                        requires next == cap * mag, mag >= 1;
                } else {
                    assert(q2 == 0);
                    assert(i == 0 || q == 0) by {
                        if i > 0 {
                            assert(ipow(mag as int, i as nat) == mag * ipow(mag as int, (i - 1) as nat));
                        }
                    }
                }
            }
        }
        i = i + 1;
    }
    if acc >= cap {
        None
    } else if neg && p % 2 == 1 {
        Some(-(acc as i128))
    } else {
        Some(acc as i128)
    }
}

proof fn lemma_ipow_sign(d: int, mag: int, p: nat)
    requires
        mag == if d < 0 {
            -d
        } else {
            d
        },
    ensures
        ipow(d, p) == if d < 0 && p % 2 == 1 {
            -ipow(mag, p)
        } else {
            ipow(mag, p)
        },
    decreases p,
{
    if p > 0 {
        let pm = (p - 1) as nat;
        lemma_ipow_sign(d, mag, pm);
        let x = ipow(d, pm);
        let y = ipow(mag, pm);
        assert(ipow(d, p) == d * x);
        assert(ipow(mag, p) == mag * y);
        if d < 0 {
            assert(d == -mag);
            if pm % 2 == 1 {
                assert(x == -y);
                assert(d * x == mag * y) by (nonlinear_arith)
                    requires d == -mag, x == -y;
            } else {
                assert(x == y);
                assert(d * x == -(mag * y)) by (nonlinear_arith)
                    requires d == -mag, x == y;
            }
        }
    }
}

/// The row-major `n` by `n` matrix of l_p costs between the auxiliary
/// counts and the ciphertext counts.
pub open spec fn lp_costs(aux: Seq<(Seq<u8>, usize, usize)>, cts: Seq<HistType>, p: nat) -> Seq<i128> {
    let n = aux.len() as int;
    Seq::new((n * n) as nat, |x: int| pair_cost(aux[x / n], cts[x % n], p) as i128)
}

/// Share of the l_p recovery rate for auxiliary entry `e` placed on the
/// ciphertext `c`: the number of copies of `c` in the true set of `e`'s
/// message, times `c`'s weight in that set, times `e`'s weight.
pub open spec fn lp_term(correct: Seq<(Vec<u8>, Vec<Vec<u8>>)>, e: (Seq<u8>, usize, usize), c: Seq<u8>, m: int) -> int {
    if table_has(correct, e.0) {
        let cs = correct_set(correct, e.0);
        let k = count_in(cs, c) as int;
        weight_term(e.2 as int, k, cs.len() as int, m) * k
    } else {
        0
    }
}

/// The l_p recovery rate of the first `k` rows of assignment `a`, in fixed point.
pub open spec fn lp_rate(
    correct: Seq<(Vec<u8>, Vec<Vec<u8>>)>,
    aux: Seq<(Seq<u8>, usize, usize)>,
    keys: Seq<Seq<u8>>,
    a: Seq<usize>,
    m: int,
    k: int,
) -> int
    decreases k,
{
    if k <= 0 {
        0
    } else {
        lp_rate(correct, aux, keys, a, m, k - 1) + lp_term(correct, aux[k - 1], keys[a[k - 1] as int], m)
    }
}

/// The l_p attack matches the two sides: they have the same size, at most
/// `MAX_DIM`, and every cost lies within `COST_BOUND`.
pub open spec fn lp_matched(aux: Seq<(Seq<u8>, usize, usize)>, cts: Seq<HistType>, p: nat) -> bool {
    aux.len() == cts.len() && aux.len() <= MAX_DIM && costs_fit(aux, cts, p)
}

/// A padding entry: a random message with set size 1 and count 1.
pub open spec fn is_padding(e: (Seq<u8>, usize, usize)) -> bool {
    e.1 == 1 && e.2 == 1
}

/// The l_p-optimisation attacker.
pub struct LpAttacker {
    /// The exponent p of the cost.
    pub p: usize,
    /// The assignment of the last attack: for each auxiliary row, its ciphertext.
    pub assignment: Option<Vec<usize>>,
    /// The auxiliary entries of the last attack, padded.
    pub auxiliary: Vec<AuxEntry>,
    /// The ordered ciphertext histogram of the last attack.
    pub ciphertexts: Vec<HistType>,
}

impl LpAttacker {
    /// An attacker with cost exponent `p` that has not attacked yet.
    pub fn new(p: usize) -> (r: LpAttacker)
        ensures
            r.p == p,
            r.assignment is None,
    {
        LpAttacker { p, assignment: None, auxiliary: Vec::new(), ciphertexts: Vec::new() }
    }

    /// The row-major cost matrix `(aux[i].count - cts[j].count)^p`; empty
    /// when the two sides differ in size, `None` when a cost exceeds
    /// `COST_BOUND`.
    pub fn build_cost_matrix(&self, aux: &Vec<AuxEntry>, cts: &Vec<HistType>) -> (r: Option<Vec<i128>>)
        requires
            forall|i: int| #![trigger aux@[i]] 0 <= i < aux@.len() ==> aux@[i].2 <= MAX_MESSAGES,
        ensures
            aux@.len() != cts@.len() ==> (r matches Some(m) && m@.len() == 0),
            aux@.len() == cts@.len() ==> (r is Some <==> costs_fit(aux_view(aux@), cts@, self.p as nat)),
            aux@.len() == cts@.len() ==> (r matches Some(m) ==> m@ == lp_costs(aux_view(aux@), cts@, self.p as nat)),
    {
        let mut out: Vec<i128> = Vec::new();
        if aux.len() != cts.len() {
            return Some(out);
        }
        let n = aux.len();
        let ghost av = aux_view(aux@);
        let ghost target = lp_costs(av, cts@, self.p as nat);
        let mut i: usize = 0;
        while i < n
            invariant
                n == aux@.len() == cts@.len(),
                av == aux_view(aux@),
                i <= n,
                out@.len() == i * n,
                target == lp_costs(av, cts@, self.p as nat),
                forall|x: int| 0 <= x < out@.len() ==> #[trigger] out@[x] == target[x],
                forall|a: int, b: int|
                    0 <= a < i && 0 <= b < n ==> -COST_BOUND <= #[trigger] pair_cost(av[a], cts@[b], self.p as nat)
                        <= COST_BOUND,
                forall|i: int| #![trigger aux@[i]] 0 <= i < aux@.len() ==> aux@[i].2 <= MAX_MESSAGES,
            decreases n - i,
        {
            let mut j: usize = 0;
            while j < n
                invariant
                    n == aux@.len() == cts@.len(),
                    av == aux_view(aux@),
                    i < n,
                    j <= n,
                    out@.len() == i * n + j,
                    target == lp_costs(av, cts@, self.p as nat),
                    forall|x: int| 0 <= x < out@.len() ==> #[trigger] out@[x] == target[x],
                    forall|a: int, b: int|
                        0 <= a < i && 0 <= b < n ==> -COST_BOUND <= #[trigger] pair_cost(av[a], cts@[b], self.p as nat)
                            <= COST_BOUND,
                    forall|b: int| 0 <= b < j ==> -COST_BOUND <= #[trigger] pair_cost(av[i as int], cts@[b], self.p as nat)
                        <= COST_BOUND,
                    forall|i: int| #![trigger aux@[i]] 0 <= i < aux@.len() ==> aux@[i].2 <= MAX_MESSAGES,
                decreases n - j,
            {
                let d = aux[i].2 as i128 - cts[j].1 as i128;
                proof {
                    assert(aux@[i as int].2 <= MAX_MESSAGES);
                    assert(av[i as int].2 == aux@[i as int].2);
                }
                let c = match lp_cost_exec(d, self.p) {
                    Some(c) => c,
                    None => {
                        proof {
                            assert(!costs_fit(av, cts@, self.p as nat)) by {
                                assert(pair_cost(av[i as int], cts@[j as int], self.p as nat) == ipow(d as int, self.p as nat));
                            }
                        }
                        return None;
                    },
                };
                let ghost o0 = out@;
                out.push(c);
                proof {
                    let x = i * n + j;
                    assert(i * n + j < n * n) by (nonlinear_arith)
                        requires i < n, j < n;
                    assert(x / (n as int) == i && x % (n as int) == j) by (nonlinear_arith)
                        requires x == i * n + j, j < n, n > 0;
                    assert(pair_cost(av[i as int], cts@[j as int], self.p as nat) == ipow(d as int, self.p as nat));
                    assert(target[x] == c);
                    assert forall|y: int| 0 <= y < out@.len() implies #[trigger] out@[y] == target[y] by {
                        if y < o0.len() {
                            assert(out@[y] == o0[y]);
                        }
                    }
                }
                j = j + 1;
            }
            proof {
                assert(i * n + n == (i + 1) * n) by (nonlinear_arith);
            }
            i = i + 1;
        }
        proof {
            assert(out@.len() == n * n);
            assert(out@ =~= target);
            assert(costs_fit(av, cts@, self.p as nat));
        }
        Some(out)
    }
}

impl LpAttacker {
    /// Mounts the attack: orders the auxiliary entries of `local_table` by
    /// count over set size, pads them with random messages of count 1 up to
    /// the number of distinct observed ciphertexts, matches entries to
    /// ciphertexts at minimum total l_p cost, and returns the weighted
    /// recovery rate against the ground truth `correct`, in fixed point.
    /// When there are more entries than distinct ciphertexts no matching is
    /// made and the rate is 0.
    #[verifier::rlimit(40)]
    pub fn attack(
        &mut self,
        correct: &Vec<(Vec<u8>, Vec<Vec<u8>>)>,
        local_table: &Vec<(Vec<u8>, Vec<ValueType>)>,
        raw_ciphertexts: &[Vec<u8>],
    ) -> (rate: u128)
        requires
            table_bounded(local_table@),
            correct_bounded(correct@),
            raw_ciphertexts@.len() <= MAX_MESSAGES,
        ensures
            final(self).p == old(self).p,
            ratio_desc(final(self).auxiliary@.subrange(0, aux_of(local_table@).len() as int)),
            aux_view(final(self).auxiliary@.subrange(0, aux_of(local_table@).len() as int)).to_multiset()
                == aux_of(local_table@).to_multiset(),
            forall|i: int|
                aux_of(local_table@).len() <= i < final(self).auxiliary@.len() ==> #[trigger] is_padding(
                    aux_view(final(self).auxiliary@)[i],
                ),
            final(self).auxiliary@.len() == if aux_of(local_table@).len() < final(self).ciphertexts@.len() {
                final(self).ciphertexts@.len()
            } else {
                aux_of(local_table@).len()
            },
            crate::util::is_histogram_of(final(self).ciphertexts@, views(raw_ciphertexts@)),
            crate::util::sorted_desc(final(self).ciphertexts@),
            final(self).assignment matches Some(a) && (lp_matched(
                aux_view(final(self).auxiliary@),
                final(self).ciphertexts@,
                old(self).p as nat,
            ) ==> is_assignment(a@, final(self).auxiliary@.len() as int) && forall|q: Seq<usize>|
                #[trigger] is_assignment(q, final(self).auxiliary@.len() as int) ==> assignment_cost(
                    lp_costs(aux_view(final(self).auxiliary@), final(self).ciphertexts@, old(self).p as nat),
                    final(self).auxiliary@.len() as int,
                    a@,
                    final(self).auxiliary@.len() as int,
                ) <= assignment_cost(
                    lp_costs(aux_view(final(self).auxiliary@), final(self).ciphertexts@, old(self).p as nat),
                    final(self).auxiliary@.len() as int,
                    q,
                    final(self).auxiliary@.len() as int,
                )) && (!lp_matched(aux_view(final(self).auxiliary@), final(self).ciphertexts@, old(self).p as nat)
                ==> a@.len() == 0),
            final(self).assignment matches Some(a) && rate == lp_rate(
                correct@,
                aux_view(final(self).auxiliary@),
                hist_keys(final(self).ciphertexts@),
                a@,
                count_sum(aux_view(final(self).auxiliary@)),
                a@.len() as int,
            ),
            (forall|x: Seq<u8>| #[trigger] no_dups(correct_set(correct@, x))) ==> rate <= FIXED_ONE,
    {
        let aux0 = build_auxiliary(local_table);
        proof {
            assert forall|i: int| #![trigger aux0@[i]] 0 <= i < aux0@.len() implies aux0@[i].1 <= MAX_MESSAGES
                && aux0@[i].2 <= MAX_MESSAGES by {
                assert(aux_view(aux0@)[i] == aux_of(local_table@)[i]);
            }
        }
        let mut aux = sort_by_ratio(&aux0);
        let hist = build_histogram(raw_ciphertexts);
        let hv = build_histogram_vec(&hist);
        proof {
            crate::util::lemma_reordered_histogram(hist@, hv@, views(raw_ciphertexts@));
            assert(hv@.len() <= raw_ciphertexts@.len()) by {
                crate::util::lemma_positive_total_len(hv@);
            }
        }
        let ghost sorted = aux@;
        let k0 = aux.len();
        while aux.len() < hv.len()
            invariant
                aux@.len() <= MAX_MESSAGES,
                hv@.len() <= MAX_MESSAGES,
                k0 == sorted.len(),
                k0 <= aux@.len(),
                aux@.subrange(0, k0 as int) == sorted,
                forall|i: int| k0 <= i < aux@.len() ==> #[trigger] is_padding(aux_view(aux@)[i]),
                aux@.len() == k0 || aux@.len() <= hv@.len(),
            decreases hv@.len() - aux@.len(),
        {
            let ghost a0 = aux@;
            let dummy = crate::crypto::random_message();
            aux.push((dummy, 1, 1));
            proof {
                assert(aux@.subrange(0, k0 as int) =~= a0.subrange(0, k0 as int));
                assert forall|i: int| k0 <= i < aux@.len() implies #[trigger] is_padding(aux_view(aux@)[i]) by {
                    if i < a0.len() {
                        assert(aux@[i] == a0[i]);
                        assert(is_padding(aux_view(a0)[i]));
                    }
                }
            }
        }
        proof {
            assert forall|i: int| #![trigger aux@[i]] 0 <= i < aux@.len() implies aux@[i].2 <= MAX_MESSAGES by {
                if i < k0 {
                    assert(aux@.subrange(0, k0 as int)[i] == aux@[i]);
                    assert(aux@[i] == sorted[i]);
                } else {
                    assert(is_padding(aux_view(aux@)[i]));
                }
            }
        }
        let n = aux.len();
        let assignment = if n == hv.len() && n <= MAX_DIM {
            match self.build_cost_matrix(&aux, &hv) {
                Some(costs) => {
                    proof {
                        assert forall|x: int| 0 <= x < costs@.len() implies -COST_BOUND <= #[trigger] costs@[x]
                            <= COST_BOUND by {
                            let nn = n as int;
                            assert(nn > 0) by (nonlinear_arith)
                                requires 0 <= x < nn * nn, nn >= 0;
                            assert(x / nn < nn && x % nn < nn && x / nn >= 0 && x % nn >= 0) by (nonlinear_arith)
                                requires 0 <= x < nn * nn, nn > 0;
                            assert(-COST_BOUND <= pair_cost(aux_view(aux@)[x / nn], hv@[x % nn], self.p as nat)
                                <= COST_BOUND);
                        }
                    }
                    min_cost_assignment(n, &costs)
                },
                None => Vec::new(),
            }
        } else {
            Vec::new()
        };
        let m = count_total(&aux);
        let ghost av = aux_view(aux@);
        let ghost keys = hist_keys(hv@);
        let mut rate: u128 = 0;
        let mut i: usize = 0;
        while i < assignment.len()
            invariant
                i <= assignment@.len(),
                assignment@.len() == 0 || (assignment@.len() == n && n == hv@.len() && n <= MAX_DIM && is_assignment(
                    assignment@,
                    n as int,
                )),
                n == aux@.len(),
                av == aux_view(aux@),
                keys == hist_keys(hv@),
                m == count_sum(av),
                m <= MAX_MESSAGES * MAX_MESSAGES,
                correct_bounded(correct@),
                assignment@.len() <= MAX_DIM,
                forall|i: int| #![trigger aux@[i]] 0 <= i < aux@.len() ==> aux@[i].2 <= MAX_MESSAGES,
                rate == lp_rate(correct@, av, keys, assignment@, m as int, i as int),
                rate <= i * (FIXED_ONE * MAX_MESSAGES),
            decreases assignment@.len() - i,
        {
            let j = assignment[i];
            let count = aux[i].2;
            proof {
                assert(av[i as int] == (aux@[i as int].0@, aux@[i as int].1, aux@[i as int].2));
                lemma_entry_le_count_sum(av, i as int);
                assert(keys[j as int] == hv@[j as int].0@);
            }
            let w = match get_values(correct, &aux[i].0) {
                Some(cset) => {
                    let k = count_bytes(cset.as_slice(), &hv[j].0, cset.len());
                    proof {
                        assert(cset@.subrange(0, cset@.len() as int) =~= cset@);
                        lemma_count_in_le_len(views(cset@), hv@[j as int].0@);
                        assert(cset@.len() == lookup(correct@, aux@[i as int].0@).len());
                    }
                    let size = cset.len() as u128;
                    if m == 0 || size == 0 {
                        0
                    } else {
                        proof {
                            let kk = k as int;
                            assert(count * kk <= 1099511627776 * 1099511627776) by (nonlinear_arith)
                                requires count <= 1099511627776, 0 <= kk <= 1099511627776;
                            assert(count * kk * FIXED_ONE <= 1099511627776 * 1099511627776 * FIXED_ONE) by (nonlinear_arith)
                                requires count * kk <= 1099511627776 * 1099511627776;
                            assert(m * size <= 1099511627776 * 1099511627776 * 1099511627776) by (nonlinear_arith)
                                requires m <= 1099511627776 * 1099511627776, size <= 1099511627776;
                            assert(m * size >= 1) by (nonlinear_arith)
                                requires m >= 1, size >= 1;
                            assert(count * kk * FIXED_ONE <= m * size * FIXED_ONE) by (nonlinear_arith)
                                requires count <= m, kk <= size, count >= 0, kk >= 0;
                            assert(count * kk * FIXED_ONE / (m * size) <= FIXED_ONE) by (nonlinear_arith)
                                requires count * kk * FIXED_ONE <= m * size * FIXED_ONE, m * size >= 1;
                            let wt = count * kk * FIXED_ONE / (m * size);
                            assert(wt * kk <= FIXED_ONE * MAX_MESSAGES) by (nonlinear_arith)
                                requires 0 <= wt <= FIXED_ONE, 0 <= kk <= MAX_MESSAGES;
                        }
                        (count as u128) * (k as u128) * (FIXED_ONE as u128) / (m * size) * (k as u128)
                    }
                },
                None => 0,
            };
            proof {
                assert((i + 1) * (FIXED_ONE * MAX_MESSAGES) == i * (FIXED_ONE * MAX_MESSAGES) + FIXED_ONE * MAX_MESSAGES) by (nonlinear_arith);
                assert(i * (FIXED_ONE * MAX_MESSAGES) <= MAX_DIM * (FIXED_ONE * MAX_MESSAGES)) by (nonlinear_arith)
                    requires i <= MAX_DIM;
            }
            rate = rate + w;
            i = i + 1;
        }
        proof {
            assert(aux@.subrange(0, k0 as int) == sorted);
            assert forall|i: int| aux_of(local_table@).len() <= i < aux@.len() implies #[trigger] is_padding(aux_view(aux@)[i]) by {
            }
        }
        proof {
            if forall|x: Seq<u8>| #[trigger] no_dups(correct_set(correct@, x)) {
                lemma_lp_rate_at_most_one(correct@, av, keys, assignment@);
            }
        }
        self.assignment = Some(assignment);
        self.auxiliary = aux;
        self.ciphertexts = hv;
        rate
    }
}

/// No two elements of `s` are equal.
pub open spec fn no_dups(s: Seq<Seq<u8>>) -> bool {
    forall|i: int, j: int| 0 <= i < j < s.len() ==> s[i] != s[j]
}

/// Sum over the elements `d` of their number of occurrences in `s`.
pub open spec fn occurrences_sum(d: Seq<Seq<u8>>, s: Seq<Seq<u8>>) -> int
    decreases d.len(),
{
    if d.len() == 0 {
        0
    } else {
        occurrences_sum(d.drop_last(), s) + count_in(s, d.last())
    }
}

proof fn lemma_hits_at_most_one(d: Seq<Seq<u8>>, x: Seq<u8>)
    requires
        no_dups(d),
    ensures
        occurrences_sum(d, seq![x]) <= 1,
        occurrences_sum(d, seq![x]) >= 0,
    decreases d.len(),
{
    if d.len() > 0 {
        let q = d.drop_last();
        assert(no_dups(q)) by {
            assert forall|i: int, j: int| 0 <= i < j < q.len() implies q[i] != q[j] by {
                assert(q[i] == d[i] && q[j] == d[j]);
            }
        }
        lemma_hits_at_most_one(q, x);
        assert(seq![x].drop_last() =~= Seq::<Seq<u8>>::empty());
        lemma_count_in_single(x, d.last());
        if d.last() == x {
            assert forall|i: int| 0 <= i < q.len() implies q[i] != x by {
                assert(q[i] == d[i]);
            }
            lemma_hits_zero(q, x);
        }
    }
}

proof fn lemma_hits_zero(d: Seq<Seq<u8>>, x: Seq<u8>)
    requires
        forall|i: int| 0 <= i < d.len() ==> d[i] != x,
    ensures
        occurrences_sum(d, seq![x]) == 0,
    decreases d.len(),
{
    if d.len() > 0 {
        let q = d.drop_last();
        assert forall|i: int| 0 <= i < q.len() implies q[i] != x by {
            assert(q[i] == d[i]);
        }
        lemma_hits_zero(q, x);
        lemma_count_in_single(x, d.last());
    }
}

proof fn lemma_count_in_single(x: Seq<u8>, y: Seq<u8>)
    ensures
        count_in(seq![x], y) == if x == y {
            1nat
        } else {
            0nat
        },
{
    assert(Seq::<Seq<u8>>::empty().push(x) =~= seq![x]);
    crate::util::lemma_count_in_push(Seq::<Seq<u8>>::empty(), x, y);
    assert(count_in(Seq::<Seq<u8>>::empty(), y) == 0);
}

proof fn lemma_occurrences_push(d: Seq<Seq<u8>>, s: Seq<Seq<u8>>, x: Seq<u8>)
    ensures
        occurrences_sum(d, s.push(x)) == occurrences_sum(d, s) + occurrences_sum(d, seq![x]),
    decreases d.len(),
{
    if d.len() > 0 {
        lemma_occurrences_push(d.drop_last(), s, x);
        crate::util::lemma_count_in_push(s, x, d.last());
        assert(seq![x].drop_last() =~= Seq::<Seq<u8>>::empty());
        lemma_count_in_single(x, d.last());
    }
}

/// Distinct elements occur, all together, at most as often as `s` is long.
proof fn lemma_occurrences_bound(d: Seq<Seq<u8>>, s: Seq<Seq<u8>>)
    requires
        no_dups(d),
    ensures
        occurrences_sum(d, s) <= s.len(),
    decreases s.len(),
{
    if s.len() == 0 {
        lemma_occurrences_zero(d, s);
    } else {
        let q = s.drop_last();
        lemma_occurrences_bound(d, q);
        assert(q.push(s.last()) =~= s);
        lemma_occurrences_push(d, q, s.last());
        lemma_hits_at_most_one(d, s.last());
    }
}

proof fn lemma_occurrences_zero(d: Seq<Seq<u8>>, s: Seq<Seq<u8>>)
    requires
        s.len() == 0,
    ensures
        occurrences_sum(d, s) == 0,
    decreases d.len(),
{
    if d.len() > 0 {
        lemma_occurrences_zero(d.drop_last(), s);
    }
}

proof fn lemma_intersect_members(a: Seq<Seq<u8>>, b: Seq<Seq<u8>>, k: int)
    requires
        0 <= k < intersect_spec(a, b).len(),
    ensures
        exists|i: int| 0 <= i < a.len() && a[i] == intersect_spec(a, b)[k],
    decreases a.len(),
{
    let q = a.drop_last();
    let p = intersect_spec(q, b);
    if k < p.len() {
        lemma_intersect_members(q, b, k);
        let i = choose|i: int| 0 <= i < q.len() && q[i] == p[k];
        assert(a[i] == q[i]);
    } else {
        assert(a[a.len() - 1] == intersect_spec(a, b)[k]);
    }
}

proof fn lemma_intersect_no_dups(a: Seq<Seq<u8>>, b: Seq<Seq<u8>>)
    requires
        no_dups(a),
    ensures
        no_dups(intersect_spec(a, b)),
    decreases a.len(),
{
    if a.len() > 0 {
        let q = a.drop_last();
        assert(no_dups(q)) by {
            assert forall|i: int, j: int| 0 <= i < j < q.len() implies q[i] != q[j] by {
                assert(q[i] == a[i] && q[j] == a[j]);
            }
        }
        lemma_intersect_no_dups(q, b);
        let p = intersect_spec(q, b);
        if count_in(q, a.last()) < count_in(b, a.last()) {
            assert forall|i: int, j: int| 0 <= i < j < p.push(a.last()).len() implies p.push(a.last())[i] != p.push(
                a.last(),
            )[j] by {
                if j == p.len() {
                    lemma_intersect_members(q, b, i);
                    let w = choose|w: int| 0 <= w < q.len() && q[w] == p[i];
                    assert(q[w] == a[w]);
                }
            }
        }
    }
}

/// The weights of distinct ciphertexts, scaled back, are at most the
/// message's share: `m * size * rate <= count * ONE * occurrences`.
proof fn lemma_common_rate_bound(common: Seq<Seq<u8>>, cset: Seq<Seq<u8>>, count: int, m: int)
    requires
        count >= 0,
        m >= 1,
        cset.len() >= 1,
    ensures
        0 <= common_rate(common, cset, count, m),
        m * cset.len() * common_rate(common, cset, count, m) <= count * FIXED_ONE * occurrences_sum(common, cset),
    decreases common.len(),
{
    if common.len() > 0 {
        let q = common.drop_last();
        lemma_common_rate_bound(q, cset, count, m);
        let k = count_in(cset, common.last()) as int;
        let size = cset.len() as int;
        let t = weight_term(count, k, size, m);
        let r0 = common_rate(q, cset, count, m);
        let o0 = occurrences_sum(q, cset);
        assert(m * size >= 1) by (nonlinear_arith)
            requires m >= 1, size >= 1;
        assert(t == count * k * FIXED_ONE / (m * size));
        assert(count * k * FIXED_ONE >= 0) by (nonlinear_arith)
            requires count >= 0, k >= 0;
        assert(t >= 0) by (nonlinear_arith)
            requires t == count * k * FIXED_ONE / (m * size), count * k * FIXED_ONE >= 0, m * size >= 1;
        assert(m * size * t <= count * k * FIXED_ONE) by (nonlinear_arith)
            requires t == count * k * FIXED_ONE / (m * size), m * size >= 1;
        assert(m * size * (r0 + t) == m * size * r0 + m * size * t) by (nonlinear_arith);
        assert(count * FIXED_ONE * (o0 + k) == count * FIXED_ONE * o0 + count * k * FIXED_ONE) by (nonlinear_arith);
    }
}

proof fn lemma_block_rate_bound(
    correct: Seq<(Vec<u8>, Vec<Vec<u8>>)>,
    aux: Seq<(Seq<u8>, usize, usize)>,
    block: (int, Seq<Seq<u8>>),
    m: int,
)
    requires
        0 <= block.0 < aux.len(),
        no_dups(block.1),
        m >= 1,
    ensures
        0 <= block_rate(correct, aux, block, m),
        m * block_rate(correct, aux, block, m) <= aux[block.0].2 * FIXED_ONE,
{
    let e = aux[block.0];
    if table_has(correct, e.0) {
        let cs = correct_set(correct, e.0);
        let common = intersect_spec(block.1, cs);
        lemma_intersect_no_dups(block.1, cs);
        if cs.len() == 0 {
            lemma_common_rate_zero(common, cs, e.2 as int, m);
        } else {
            lemma_common_rate_bound(common, cs, e.2 as int, m);
            lemma_occurrences_bound(common, cs);
            let r = common_rate(common, cs, e.2 as int, m);
            let size = cs.len() as int;
            let o = occurrences_sum(common, cs);
            let c = e.2 as int;
            assert(c * FIXED_ONE * o <= c * FIXED_ONE * size) by (nonlinear_arith)
                requires o <= size, c >= 0;
            assert(m * r <= c * FIXED_ONE) by (nonlinear_arith)
                requires m * size * r <= c * FIXED_ONE * size, size >= 1, m >= 1, r >= 0;
        }
    }
}

proof fn lemma_common_rate_zero(common: Seq<Seq<u8>>, cset: Seq<Seq<u8>>, count: int, m: int)
    requires
        cset.len() == 0,
    ensures
        common_rate(common, cset, count, m) == 0,
    decreases common.len(),
{
    if common.len() > 0 {
        lemma_common_rate_zero(common.drop_last(), cset, count, m);
    }
}

proof fn lemma_mle_blocks_shape(keys: Seq<Seq<u8>>, sizes: Seq<int>, cur: int, i: int)
    requires
        0 <= cur,
        0 <= i,
        forall|k: int| 0 <= k < sizes.len() ==> #[trigger] sizes[k] >= 0,
    ensures
        forall|t: int|
            0 <= t < mle_blocks(keys, sizes, cur, i).len() ==> #[trigger] mle_blocks(keys, sizes, cur, i)[t].0 == cur + t
                && cur + t < sizes.len() && block_from(keys, mle_blocks(keys, sizes, cur, i)[t].1),
    decreases sizes.len() - cur,
{
    if !(cur >= sizes.len() || i >= keys.len()) {
        let end = if i + sizes[cur] < keys.len() {
            i + sizes[cur]
        } else {
            keys.len() as int
        };
        lemma_mle_blocks_shape(keys, sizes, cur + 1, end);
        let rest = mle_blocks(keys, sizes, cur + 1, end);
        let all = mle_blocks(keys, sizes, cur, i);
        assert(all == seq![(cur, keys.subrange(i, end))] + rest);
        assert forall|t: int| 0 <= t < all.len() implies #[trigger] all[t].0 == cur + t && cur + t < sizes.len()
            && block_from(keys, all[t].1) by {
            if t == 0 {
                assert(all[0] == (cur, keys.subrange(i, end)));
                assert(block_from(keys, keys.subrange(i, end)));
            } else {
                assert(all[t] == rest[t - 1]);
            }
        }
    }
}

/// `s` is a run of consecutive elements of `keys`.
pub open spec fn block_from(keys: Seq<Seq<u8>>, s: Seq<Seq<u8>>) -> bool {
    exists|a: int, b: int| 0 <= a <= b <= keys.len() && #[trigger] keys.subrange(a, b) == s
}

proof fn lemma_run_no_dups(keys: Seq<Seq<u8>>, s: Seq<Seq<u8>>)
    requires
        no_dups(keys),
        block_from(keys, s),
    ensures
        no_dups(s),
{
    let (a, b) = choose|a: int, b: int| 0 <= a <= b <= keys.len() && #[trigger] keys.subrange(a, b) == s;
    assert forall|i: int, j: int| 0 <= i < j < s.len() implies s[i] != s[j] by {
        assert(s[i] == keys[a + i] && s[j] == keys[a + j]);
    }
}

proof fn lemma_prefix_count_sum(aux: Seq<(Seq<u8>, usize, usize)>, k: int)
    requires
        0 <= k <= aux.len(),
    ensures
        0 <= count_sum(aux.subrange(0, k)) <= count_sum(aux),
    decreases aux.len() - k,
{
    if k < aux.len() {
        lemma_prefix_count_sum(aux, k + 1);
        assert(aux.subrange(0, k + 1).drop_last() =~= aux.subrange(0, k));
        lemma_count_sum_nonneg(aux.subrange(0, k));
    } else {
        assert(aux.subrange(0, k) =~= aux);
        lemma_count_sum_nonneg(aux);
    }
}

#[verifier::rlimit(40)]
proof fn lemma_rate_prefix_bound(
    correct: Seq<(Vec<u8>, Vec<Vec<u8>>)>,
    aux: Seq<(Seq<u8>, usize, usize)>,
    keys: Seq<Seq<u8>>,
    bs: Seq<(int, Seq<Seq<u8>>)>,
    m: int,
)
    requires
        m >= 1,
        no_dups(keys),
        bs.len() <= aux.len(),
        forall|t: int| 0 <= t < bs.len() ==> #[trigger] bs[t].0 == t && block_from(keys, bs[t].1),
    ensures
        0 <= mle_rate(correct, aux, bs, m),
        m * mle_rate(correct, aux, bs, m) <= FIXED_ONE * count_sum(aux.subrange(0, bs.len() as int)),
    decreases bs.len(),
{
    if bs.len() > 0 {
        let q = bs.drop_last();
        assert forall|t: int| 0 <= t < q.len() implies #[trigger] q[t].0 == t && block_from(keys, q[t].1) by {
            assert(q[t] == bs[t]);
            assert(bs[t].0 == t && block_from(keys, bs[t].1));
        }
        lemma_rate_prefix_bound(correct, aux, keys, q, m);
        let last = bs.last();
        assert(last == bs[bs.len() - 1]);
        assert(bs[bs.len() - 1].0 == bs.len() - 1);
        lemma_run_no_dups(keys, last.1);
        lemma_block_rate_bound(correct, aux, last, m);
        let n = bs.len() as int;
        assert(aux.subrange(0, n).drop_last() =~= aux.subrange(0, n - 1));
        assert(aux.subrange(0, n).last() == aux[n - 1]);
        let r0 = mle_rate(correct, aux, q, m);
        let br = block_rate(correct, aux, last, m);
        assert(m * (r0 + br) == m * r0 + m * br) by (nonlinear_arith);
    }
}

/// Recovery-rate bound of the MLE attack: over distinct ciphertext keys, the
/// rate of the assignment is between 0 and 1 (`FIXED_ONE`), whatever the
/// ground truth.
pub proof fn lemma_mle_rate_at_most_one(
    correct: Seq<(Vec<u8>, Vec<Vec<u8>>)>,
    aux: Seq<(Seq<u8>, usize, usize)>,
    keys: Seq<Seq<u8>>,
)
    requires
        no_dups(keys),
    ensures
        0 <= mle_rate(correct, aux, mle_blocks(keys, aux_sizes(aux), 0, 0), count_sum(aux)) <= FIXED_ONE,
{
    let sizes = aux_sizes(aux);
    let bs = mle_blocks(keys, sizes, 0, 0);
    let m = count_sum(aux);
    lemma_mle_blocks_shape(keys, sizes, 0, 0);
    lemma_count_sum_nonneg(aux);
    if m == 0 {
        lemma_rate_zero_total(correct, aux, bs);
    } else {
        assert(bs.len() <= aux.len()) by {
            if bs.len() > aux.len() {
                assert(bs[aux.len() as int].0 == aux.len());
            }
        }
        assert forall|t: int| 0 <= t < bs.len() implies #[trigger] bs[t].0 == t && block_from(keys, bs[t].1) by {
            assert(bs[t].0 == 0 + t);
        }
        lemma_rate_prefix_bound(correct, aux, keys, bs, m);
        lemma_prefix_count_sum(aux, bs.len() as int);
        let r = mle_rate(correct, aux, bs, m);
        let cs = count_sum(aux.subrange(0, bs.len() as int));
        assert(r <= FIXED_ONE) by (nonlinear_arith)
            requires m * r <= FIXED_ONE * cs, cs <= m, m >= 1;
    }
}

proof fn lemma_rate_zero_total(
    correct: Seq<(Vec<u8>, Vec<Vec<u8>>)>,
    aux: Seq<(Seq<u8>, usize, usize)>,
    bs: Seq<(int, Seq<Seq<u8>>)>,
)
    ensures
        mle_rate(correct, aux, bs, 0) == 0,
    decreases bs.len(),
{
    if bs.len() > 0 {
        lemma_rate_zero_total(correct, aux, bs.drop_last());
        let last = bs.last();
        let e = aux[last.0];
        if table_has(correct, e.0) {
            lemma_common_rate_m_zero(intersect_spec(last.1, correct_set(correct, e.0)), correct_set(correct, e.0), e.2 as int);
        }
    }
}

proof fn lemma_common_rate_m_zero(common: Seq<Seq<u8>>, cset: Seq<Seq<u8>>, count: int)
    ensures
        common_rate(common, cset, count, 0) == 0,
    decreases common.len(),
{
    if common.len() > 0 {
        lemma_common_rate_m_zero(common.drop_last(), cset, count);
    }
}

proof fn lemma_count_in_no_dups(s: Seq<Seq<u8>>, x: Seq<u8>)
    requires
        no_dups(s),
    ensures
        count_in(s, x) <= 1,
    decreases s.len(),
{
    if s.len() > 0 {
        let q = s.drop_last();
        assert(no_dups(q)) by {
            assert forall|i: int, j: int| 0 <= i < j < q.len() implies q[i] != q[j] by {
                assert(q[i] == s[i] && q[j] == s[j]);
            }
        }
        lemma_count_in_no_dups(q, x);
        if s.last() == x {
            assert forall|k: int| 0 <= k < q.len() implies q[k] != x by {
                assert(q[k] == s[k]);
            }
            crate::util::lemma_count_in_absent(q, x);
        }
    }
}

/// Recovery-rate bound of the l_p attack: when no ciphertext set of the
/// ground truth lists a ciphertext twice, the rate of any assignment of the
/// auxiliary rows is between 0 and 1 (`FIXED_ONE`).
pub proof fn lemma_lp_rate_at_most_one(
    correct: Seq<(Vec<u8>, Vec<Vec<u8>>)>,
    aux: Seq<(Seq<u8>, usize, usize)>,
    keys: Seq<Seq<u8>>,
    a: Seq<usize>,
)
    requires
        a.len() <= aux.len(),
        forall|x: Seq<u8>| #[trigger] no_dups(correct_set(correct, x)),
    ensures
        0 <= lp_rate(correct, aux, keys, a, count_sum(aux), a.len() as int) <= FIXED_ONE,
{
    let m = count_sum(aux);
    lemma_count_sum_nonneg(aux);
    if m == 0 {
        lemma_lp_rate_m_zero(correct, aux, keys, a, a.len() as int);
    } else {
        lemma_lp_rate_prefix(correct, aux, keys, a, m, a.len() as int);
        lemma_prefix_count_sum(aux, a.len() as int);
        let r = lp_rate(correct, aux, keys, a, m, a.len() as int);
        let cs = count_sum(aux.subrange(0, a.len() as int));
        assert(r <= FIXED_ONE) by (nonlinear_arith)
            requires m * r <= FIXED_ONE * cs, cs <= m, m >= 1;
    }
}

proof fn lemma_lp_rate_m_zero(
    correct: Seq<(Vec<u8>, Vec<Vec<u8>>)>,
    aux: Seq<(Seq<u8>, usize, usize)>,
    keys: Seq<Seq<u8>>,
    a: Seq<usize>,
    k: int,
)
    ensures
        lp_rate(correct, aux, keys, a, 0, k) == 0,
    decreases k,
{
    if k > 0 {
        lemma_lp_rate_m_zero(correct, aux, keys, a, k - 1);
    }
}

#[verifier::rlimit(40)]
proof fn lemma_lp_rate_prefix(
    correct: Seq<(Vec<u8>, Vec<Vec<u8>>)>,
    aux: Seq<(Seq<u8>, usize, usize)>,
    keys: Seq<Seq<u8>>,
    a: Seq<usize>,
    m: int,
    k: int,
)
    requires
        m >= 1,
        0 <= k <= aux.len(),
        forall|x: Seq<u8>| #[trigger] no_dups(correct_set(correct, x)),
    ensures
        0 <= lp_rate(correct, aux, keys, a, m, k),
        m * lp_rate(correct, aux, keys, a, m, k) <= FIXED_ONE * count_sum(aux.subrange(0, k)),
    decreases k,
{
    if k > 0 {
        lemma_lp_rate_prefix(correct, aux, keys, a, m, k - 1);
        assert(aux.subrange(0, k).drop_last() =~= aux.subrange(0, k - 1));
        assert(aux.subrange(0, k).last() == aux[k - 1]);
        let e = aux[k - 1];
        let c = keys[a[k - 1] as int];
        let t = lp_term(correct, e, c, m);
        let r0 = lp_rate(correct, aux, keys, a, m, k - 1);
        let cnt = e.2 as int;
        if table_has(correct, e.0) {
            let cs = correct_set(correct, e.0);
            let kk = count_in(cs, c) as int;
            let size = cs.len() as int;
            lemma_count_in_no_dups(cs, c);
            lemma_count_in_le_len(cs, c);
            let w = weight_term(cnt, kk, size, m);
            if size >= 1 {
                assert(m * size >= 1) by (nonlinear_arith)
                    requires m >= 1, size >= 1;
                assert(w == cnt * kk * FIXED_ONE / (m * size));
                assert(cnt * kk * FIXED_ONE >= 0) by (nonlinear_arith)
                    requires cnt >= 0, kk >= 0;
                assert(w >= 0) by (nonlinear_arith)
                    requires w == cnt * kk * FIXED_ONE / (m * size), cnt * kk * FIXED_ONE >= 0, m * size >= 1;
                assert(m * size * w <= cnt * kk * FIXED_ONE) by (nonlinear_arith)
                    requires w == cnt * kk * FIXED_ONE / (m * size), m * size >= 1;
                assert(cnt * kk * FIXED_ONE <= cnt * FIXED_ONE * size) by (nonlinear_arith)
                    requires 0 <= kk <= 1, size >= 1, cnt >= 0;
                assert(m * w <= cnt * FIXED_ONE) by (nonlinear_arith)
                    requires m * size * w <= cnt * FIXED_ONE * size, size >= 1, m >= 1, w >= 0;
                assert(t == w * kk);
                assert(0 <= t <= w) by (nonlinear_arith)
                    requires t == w * kk, 0 <= kk <= 1, w >= 0;
                assert(m * t <= m * w) by (nonlinear_arith)
                    requires t <= w, m >= 1;
            } else {
                assert(t == 0);
                assert(m * t == 0) by (nonlinear_arith)
                    requires t == 0;
                assert(cnt * FIXED_ONE >= 0) by (nonlinear_arith)
                    requires cnt >= 0;
            }
            assert(m * t <= cnt * FIXED_ONE);
        }
        assert(m * (r0 + t) == m * r0 + m * t) by (nonlinear_arith);
    }
}

} // verus!
