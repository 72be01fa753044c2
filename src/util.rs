//! Histogram utilities: counting a sample, ordering counts by frequency,
//! prefix sums of counts, and intersection of sorted sequences.

use vstd::prelude::*;

verus! {

/// A message together with how many times it occurs.
pub type HistType = (Vec<u8>, usize);

/// The byte strings held by a sequence of vectors.
pub open spec fn views(s: Seq<Vec<u8>>) -> Seq<Seq<u8>> {
    s.map_values(|v: Vec<u8>| v@)
}

/// How many times `m` occurs in `s`.
pub open spec fn count_in(s: Seq<Seq<u8>>, m: Seq<u8>) -> nat
    decreases s.len(),
{
    if s.len() == 0 {
        0
    } else {
        count_in(s.drop_last(), m) + if s.last() == m {
            1nat
        } else {
            0nat
        }
    }
}

/// The messages of a histogram are pairwise distinct.
pub open spec fn keys_distinct(h: Seq<HistType>) -> bool {
    forall|i: int, j: int| 0 <= i < j < h.len() ==> h[i].0@ != h[j].0@
}

/// `h` lists each distinct message of `data` exactly once, with its number
/// of occurrences.
pub open spec fn is_histogram_of(h: Seq<HistType>, data: Seq<Seq<u8>>) -> bool {
    &&& keys_distinct(h)
    &&& forall|i: int| 0 <= i < h.len() ==> #[trigger] h[i].1 == count_in(data, h[i].0@)
    &&& forall|i: int| 0 <= i < h.len() ==> #[trigger] h[i].1 >= 1
    &&& forall|k: int| 0 <= k < data.len() ==> has_key(h, #[trigger] data[k])
}

/// Some entry of `h` holds the message `m`.
pub open spec fn has_key(h: Seq<HistType>, m: Seq<u8>) -> bool {
    exists|i: int| 0 <= i < h.len() && #[trigger] h[i].0@ == m
}

/// The counts of `h` never increase from one entry to the next.
pub open spec fn sorted_desc(h: Seq<HistType>) -> bool {
    forall|i: int, j: int| 0 <= i < j < h.len() ==> h[i].1 >= h[j].1
}

/// Sum of the counts of the entries of `h` whose message satisfies `p`.
pub open spec fn sum_where(h: Seq<HistType>, p: spec_fn(Seq<u8>) -> bool) -> nat
    decreases h.len(),
{
    if h.len() == 0 {
        0
    } else {
        sum_where(h.drop_last(), p) + if p(h.last().0@) {
            h.last().1 as nat
        } else {
            0nat
        }
    }
}

/// Number of elements of `s` that satisfy `p`.
pub open spec fn count_where(s: Seq<Seq<u8>>, p: spec_fn(Seq<u8>) -> bool) -> nat
    decreases s.len(),
{
    if s.len() == 0 {
        0
    } else {
        count_where(s.drop_last(), p) + if p(s.last()) {
            1nat
        } else {
            0nat
        }
    }
}

/// Accepts every message.
pub open spec fn any_message() -> spec_fn(Seq<u8>) -> bool {
    |m: Seq<u8>| true
}

/// Accepts the message `m` alone.
pub open spec fn only(m: Seq<u8>) -> spec_fn(Seq<u8>) -> bool {
    |x: Seq<u8>| x == m
}

/// Sum of the counts of `h`.
pub open spec fn total(h: Seq<HistType>) -> nat {
    sum_where(h, any_message())
}

pub proof fn lemma_sum_where_concat(a: Seq<HistType>, b: Seq<HistType>, p: spec_fn(Seq<u8>) -> bool)
    ensures
        sum_where(a + b, p) == sum_where(a, p) + sum_where(b, p),
    decreases b.len(),
{
    if b.len() == 0 {
        assert(a + b =~= a);
    } else {
        lemma_sum_where_concat(a, b.drop_last(), p);
        assert((a + b).drop_last() =~= a + b.drop_last());
    }
}

pub proof fn lemma_sum_where_push(a: Seq<HistType>, e: HistType, p: spec_fn(Seq<u8>) -> bool)
    ensures
        sum_where(a.push(e), p) == sum_where(a, p) + if p(e.0@) {
            e.1 as nat
        } else {
            0nat
        },
{
    assert(a.push(e).drop_last() =~= a);
}

pub proof fn lemma_sum_where_insert(a: Seq<HistType>, k: int, e: HistType, p: spec_fn(Seq<u8>) -> bool)
    requires
        0 <= k <= a.len(),
    ensures
        sum_where(a.insert(k, e), p) == sum_where(a, p) + if p(e.0@) {
            e.1 as nat
        } else {
            0nat
        },
{
    let l = a.subrange(0, k);
    let r = a.subrange(k, a.len() as int);
    assert(a =~= l + r);
    assert(a.insert(k, e) =~= l.push(e) + r);
    lemma_sum_where_concat(l, r, p);
    lemma_sum_where_concat(l.push(e), r, p);
    lemma_sum_where_push(l, e, p);
}

pub proof fn lemma_sum_where_update(a: Seq<HistType>, k: int, e: HistType, p: spec_fn(Seq<u8>) -> bool)
    requires
        0 <= k < a.len(),
    ensures
        sum_where(a.update(k, e), p) + (if p(a[k].0@) {
            a[k].1 as nat
        } else {
            0nat
        }) == sum_where(a, p) + if p(e.0@) {
            e.1 as nat
        } else {
            0nat
        },
{
    let l = a.subrange(0, k);
    let r = a.subrange(k + 1, a.len() as int);
    assert(a =~= l.push(a[k]) + r);
    assert(a.update(k, e) =~= l.push(e) + r);
    lemma_sum_where_concat(l.push(a[k]), r, p);
    lemma_sum_where_concat(l.push(e), r, p);
    lemma_sum_where_push(l, e, p);
    lemma_sum_where_push(l, a[k], p);
}

pub proof fn lemma_sum_where_view(a: Seq<HistType>, b: Seq<HistType>, p: spec_fn(Seq<u8>) -> bool)
    requires
        hist_view(a) == hist_view(b),
    ensures
        sum_where(a, p) == sum_where(b, p),
    decreases a.len(),
{
    assert(a.len() == hist_view(a).len());
    assert(b.len() == hist_view(b).len());
    if a.len() > 0 {
        assert(hist_view(a.drop_last()) =~= hist_view(a).drop_last());
        assert(hist_view(b.drop_last()) =~= hist_view(b).drop_last());
        assert(hist_view(a)[a.len() - 1] == hist_view(b)[b.len() - 1]);
        lemma_sum_where_view(a.drop_last(), b.drop_last(), p);
    }
}

/// A copy of the entries `lo..hi` of `h`.
pub fn copy_range(h: &Vec<HistType>, lo: usize, hi: usize) -> (r: Vec<HistType>)
    requires
        lo <= hi <= h@.len(),
    ensures
        hist_view(r@) == hist_view(h@.subrange(lo as int, hi as int)),
        r@.len() == hi - lo,
        forall|k: int| 0 <= k < r@.len() ==> #[trigger] r@[k].1 == h@[lo + k].1,
{
    let mut r: Vec<HistType> = Vec::new();
    let mut k: usize = lo;
    while k < hi
        invariant
            lo <= k <= hi <= h@.len(),
            r@.len() == k - lo,
            hist_view(r@) =~= hist_view(h@.subrange(lo as int, k as int)),
            forall|t: int| 0 <= t < r@.len() ==> #[trigger] r@[t].1 == h@[lo + t].1,
        decreases hi - k,
    {
        let key = h[k].0.clone();
        assert(key@ == h@[k as int].0@);
        let ghost r0 = r@;
        r.push((key, h[k].1));
        assert(hist_view(r@) =~= hist_view(r0).push((key@, h@[k as int].1)));
        assert(h@.subrange(lo as int, k + 1) =~= h@.subrange(lo as int, k as int).push(h@[k as int]));
        assert(hist_view(h@.subrange(lo as int, k + 1)) =~= hist_view(h@.subrange(lo as int, k as int)).push((h@[k as int].0@, h@[k as int].1)));
        k = k + 1;
    }
    r
}

pub proof fn lemma_count_where_push(s: Seq<Seq<u8>>, x: Seq<u8>, p: spec_fn(Seq<u8>) -> bool)
    ensures
        count_where(s.push(x), p) == count_where(s, p) + if p(x) {
            1nat
        } else {
            0nat
        },
{
    assert(s.push(x).drop_last() =~= s);
}

pub proof fn lemma_count_where_all(s: Seq<Seq<u8>>)
    ensures
        count_where(s, any_message()) == s.len(),
    decreases s.len(),
{
    if s.len() > 0 {
        lemma_count_where_all(s.drop_last());
    }
}

/// Equality of two byte strings.
pub fn bytes_eq(a: &Vec<u8>, b: &Vec<u8>) -> (r: bool)
    ensures
        r == (a@ == b@),
{
    if a.len() != b.len() {
        return false;
    }
    let mut i: usize = 0;
    while i < a.len()
        invariant
            a@.len() == b@.len(),
            i <= a@.len(),
            forall|k: int| 0 <= k < i ==> a@[k] == b@[k],
        decreases a@.len() - i,
    {
        if a[i] != b[i] {
            return false;
        }
        i = i + 1;
    }
    assert(a@ =~= b@);
    true
}

pub proof fn lemma_count_in_push(s: Seq<Seq<u8>>, x: Seq<u8>, m: Seq<u8>)
    ensures
        count_in(s.push(x), m) == count_in(s, m) + if x == m {
            1nat
        } else {
            0nat
        },
{
    assert(s.push(x).drop_last() =~= s);
}

pub proof fn lemma_count_in_absent(s: Seq<Seq<u8>>, m: Seq<u8>)
    requires
        forall|k: int| 0 <= k < s.len() ==> s[k] != m,
    ensures
        count_in(s, m) == 0,
    decreases s.len(),
{
    if s.len() > 0 {
        lemma_count_in_absent(s.drop_last(), m);
    }
}

/// Finds the entry of `h` whose message is `m`.
pub fn find_entry(h: &Vec<HistType>, m: &Vec<u8>) -> (r: Option<usize>)
    ensures
        r matches Some(i) ==> i < h@.len() && h@[i as int].0@ == m@,
        r is None ==> forall|i: int| 0 <= i < h@.len() ==> h@[i].0@ != m@,
{
    let mut i: usize = 0;
    while i < h.len()
        invariant
            i <= h@.len(),
            forall|k: int| 0 <= k < i ==> h@[k].0@ != m@,
        decreases h@.len() - i,
    {
        if bytes_eq(&h[i].0, m) {
            return Some(i);
        }
        i = i + 1;
    }
    None
}

/// Appends the bytes of `s` to `v`.
pub fn push_all(v: &mut Vec<u8>, s: &Vec<u8>)
    ensures
        final(v)@ == old(v)@ + s@,
{
    let ghost v0 = v@;
    let mut i: usize = 0;
    while i < s.len()
        invariant
            i <= s@.len(),
            v@ == v0 + s@.subrange(0, i as int),
        decreases s@.len() - i,
    {
        v.push(s[i]);
        i = i + 1;
        assert(v@ =~= v0 + s@.subrange(0, i as int));
    }
    assert(s@.subrange(0, s@.len() as int) =~= s@);
}

/// Counts the occurrences of each distinct message of `dataset`, in the
/// order in which the messages first occur.
pub fn build_histogram(dataset: &[Vec<u8>]) -> (r: Vec<HistType>)
    ensures
        is_histogram_of(r@, views(dataset@)),
        forall|p: spec_fn(Seq<u8>) -> bool| #[trigger] sum_where(r@, p) == count_where(views(dataset@), p),
        total(r@) == dataset@.len(),
{
    let mut h: Vec<HistType> = Vec::new();
    let mut n: usize = 0;
    while n < dataset.len()
        invariant
            n <= dataset@.len(),
            is_histogram_of(h@, views(dataset@.subrange(0, n as int))),
            forall|i: int| 0 <= i < h@.len() ==> #[trigger] h@[i].1 <= n,
            forall|p: spec_fn(Seq<u8>) -> bool| #[trigger] sum_where(h@, p) == count_where(views(dataset@.subrange(0, n as int)), p),
        decreases dataset@.len() - n,
    {
        let ghost prev = views(dataset@.subrange(0, n as int));
        let ghost next = views(dataset@.subrange(0, n + 1));
        let ghost x = dataset@[n as int]@;
        assert(next =~= prev.push(x));
        proof {
            assert forall|m: Seq<u8>| #[trigger] count_in(next, m) == count_in(prev, m) + if x == m {
                1nat
            } else {
                0nat
            } by {
                lemma_count_in_push(prev, x, m);
            }
        }
        match find_entry(&h, &dataset[n]) {
            Some(i) => {
                let ghost h0 = h@;
                let c = h[i].1;
                let key = h[i].0.clone();
                h.set(i, (key, c + 1));
                assert forall|p: spec_fn(Seq<u8>) -> bool| #[trigger] sum_where(h@, p) == count_where(next, p) by {
                    lemma_sum_where_update(h0, i as int, (key, (c + 1) as usize), p);
                    lemma_count_where_push(prev, x, p);
                    assert(h@ == h0.update(i as int, (key, (c + 1) as usize)));
                }
                assert forall|k: int| 0 <= k < next.len() implies has_key(h@, next[k]) by {
                    if k < prev.len() {
                        assert(prev[k] == next[k]);
                        let j = choose|j: int| 0 <= j < h0.len() && #[trigger] h0[j].0@ == prev[k];
                        assert(h@[j].0@ == next[k]);
                    } else {
                        assert(h@[i as int].0@ == next[k]);
                    }
                }
            },
            None => {
                proof {
                    assert forall|k: int| 0 <= k < prev.len() implies prev[k] != x by {
                        let j = choose|j: int| 0 <= j < h@.len() && #[trigger] h@[j].0@ == prev[k];
                    }
                    lemma_count_in_absent(prev, x);
                }
                let ghost h0 = h@;
                let key = dataset[n].clone();
                h.push((key, 1));
                assert forall|p: spec_fn(Seq<u8>) -> bool| #[trigger] sum_where(h@, p) == count_where(next, p) by {
                    lemma_sum_where_push(h0, (key, 1usize), p);
                    lemma_count_where_push(prev, x, p);
                }
                assert forall|k: int| 0 <= k < next.len() implies has_key(h@, next[k]) by {
                    if k < prev.len() {
                        assert(prev[k] == next[k]);
                        assert(has_key(h0, prev[k]));
                        let j = choose|j: int| 0 <= j < h0.len() && #[trigger] h0[j].0@ == prev[k];
                        assert(h@[j] == h0[j]);
                        assert(h@[j].0@ == next[k]);
                    } else {
                        assert(h@[h@.len() - 1].0@ == next[k]);
                    }
                }
            },
        }
        n = n + 1;
    }
    assert(dataset@.subrange(0, dataset@.len() as int) =~= dataset@);
    proof {
        lemma_count_where_all(views(dataset@));
    }
    h
}

/// The entries of `h` of count `c`, in order.
pub open spec fn count_run(h: Seq<(Seq<u8>, usize)>, c: usize) -> Seq<(Seq<u8>, usize)>
    decreases h.len(),
{
    if h.len() == 0 {
        Seq::empty()
    } else {
        let p = count_run(h.drop_last(), c);
        if h.last().1 == c {
            p.push(h.last())
        } else {
            p
        }
    }
}

pub proof fn lemma_count_run_concat(a: Seq<(Seq<u8>, usize)>, b: Seq<(Seq<u8>, usize)>, c: usize)
    ensures
        count_run(a + b, c) == count_run(a, c) + count_run(b, c),
    decreases b.len(),
{
    if b.len() == 0 {
        assert(a + b =~= a);
        assert(count_run(a, c) + count_run(b, c) =~= count_run(a, c));
    } else {
        lemma_count_run_concat(a, b.drop_last(), c);
        assert((a + b).drop_last() =~= a + b.drop_last());
        assert((count_run(a, c) + count_run(b.drop_last(), c)).push(b.last()) =~= count_run(a, c) + count_run(
            b.drop_last(),
            c,
        ).push(b.last()));
    }
}

pub proof fn lemma_count_run_none(h: Seq<(Seq<u8>, usize)>, c: usize)
    requires
        forall|q: int| 0 <= q < h.len() ==> h[q].1 != c,
    ensures
        count_run(h, c) == Seq::<(Seq<u8>, usize)>::empty(),
    decreases h.len(),
{
    if h.len() > 0 {
        lemma_count_run_none(h.drop_last(), c);
    }
}

/// Some entry of `h` has the message and the count of `e`.
pub open spec fn holds_entry(h: Seq<HistType>, e: HistType) -> bool {
    exists|i: int| 0 <= i < h.len() && #[trigger] h[i].0@ == e.0@ && h[i].1 == e.1
}

/// Reordering a histogram keeps it a histogram of the same data.
pub proof fn lemma_reordered_histogram(h: Seq<HistType>, r: Seq<HistType>, data: Seq<Seq<u8>>)
    requires
        is_histogram_of(h, data),
        keys_distinct(r),
        forall|i: int| 0 <= i < r.len() ==> #[trigger] holds_entry(h, r[i]),
        forall|j: int| 0 <= j < h.len() ==> #[trigger] holds_entry(r, h[j]),
    ensures
        is_histogram_of(r, data),
{
    assert forall|i: int| 0 <= i < r.len() implies #[trigger] r[i].1 == count_in(data, r[i].0@) && r[i].1 >= 1 by {
        assert(holds_entry(h, r[i]));
        let w = choose|w: int| 0 <= w < h.len() && #[trigger] h[w].0@ == r[i].0@ && h[w].1 == r[i].1;
        assert(h[w].1 == count_in(data, h[w].0@));
        assert(h[w].1 >= 1);
    }
    assert forall|k: int| 0 <= k < data.len() implies has_key(r, #[trigger] data[k]) by {
        assert(has_key(h, data[k]));
        let w = choose|w: int| 0 <= w < h.len() && #[trigger] h[w].0@ == data[k];
        assert(holds_entry(r, h[w]));
        let i = choose|i: int| 0 <= i < r.len() && #[trigger] r[i].0@ == h[w].0@ && r[i].1 == h[w].1;
    }
}

/// A histogram of positive counts has no more entries than its total.
pub proof fn lemma_positive_total_len(h: Seq<HistType>)
    requires
        forall|k: int| 0 <= k < h.len() ==> #[trigger] h[k].1 >= 1,
    ensures
        h.len() <= total(h),
    decreases h.len(),
{
    if h.len() > 0 {
        let q = h.drop_last();
        assert forall|k: int| 0 <= k < q.len() implies #[trigger] q[k].1 >= 1 by {
            assert(q[k] == h[k]);
        }
        lemma_positive_total_len(q);
    }
}

/// An entry's count is at most the total of the histogram.
pub proof fn lemma_entry_le_total(h: Seq<HistType>, i: int)
    requires
        0 <= i < h.len(),
    ensures
        h[i].1 <= total(h),
    decreases h.len(),
{
    if i < h.len() - 1 {
        lemma_entry_le_total(h.drop_last(), i);
    }
}

/// The messages and counts of a histogram, as plain values.
pub open spec fn hist_view(h: Seq<HistType>) -> Seq<(Seq<u8>, usize)> {
    h.map_values(|e: HistType| (e.0@, e.1))
}

/// Orders a histogram by count, most frequent first; entries of equal count
/// keep their relative order.
pub fn build_histogram_vec(histogram: &Vec<HistType>) -> (r: Vec<HistType>)
    ensures
        sorted_desc(r@),
        keys_distinct(histogram@) ==> keys_distinct(r@),
        forall|i: int| 0 <= i < r@.len() ==> #[trigger] holds_entry(histogram@, r@[i]),
        forall|j: int| 0 <= j < histogram@.len() ==> #[trigger] holds_entry(r@, histogram@[j]),
        forall|c: usize| #[trigger] count_run(hist_view(r@), c) == count_run(hist_view(histogram@), c),
        hist_view(r@).to_multiset() == hist_view(histogram@).to_multiset(),
        forall|p: spec_fn(Seq<u8>) -> bool| #[trigger] sum_where(r@, p) == sum_where(histogram@, p),
{
    broadcast use vstd::seq_lib::group_to_multiset_ensures;

    let mut out: Vec<HistType> = Vec::new();
    let mut k: usize = 0;
    while k < histogram.len()
        invariant
            k <= histogram@.len(),
            sorted_desc(out@),
            hist_view(out@).to_multiset() == hist_view(histogram@.subrange(0, k as int)).to_multiset(),
            forall|p: spec_fn(Seq<u8>) -> bool| #[trigger] sum_where(out@, p) == sum_where(histogram@.subrange(0, k as int), p),
            keys_distinct(histogram@) ==> keys_distinct(out@),
            forall|i: int| 0 <= i < out@.len() ==> #[trigger] holds_entry(histogram@.subrange(0, k as int), out@[i]),
            forall|j: int| 0 <= j < k ==> #[trigger] holds_entry(out@, histogram@[j]),
            forall|d: usize| #[trigger] count_run(hist_view(out@), d) == count_run(
                hist_view(histogram@.subrange(0, k as int)),
                d,
            ),
        decreases histogram@.len() - k,
    {
        let c = histogram[k].1;
        let mut pos: usize = 0;
        while pos < out.len() && out[pos].1 >= c
            invariant
                pos <= out@.len(),
                forall|i: int| 0 <= i < pos ==> out@[i].1 >= c,
            decreases out@.len() - pos,
        {
            pos = pos + 1;
        }
        let ghost before = out@;
        let entry = (histogram[k].0.clone(), c);
        out.insert(pos, entry);
        assert(out@ =~= before.insert(pos as int, entry));
        assert(entry.0@ == histogram@[k as int].0@);
        assert forall|p: spec_fn(Seq<u8>) -> bool| #[trigger] sum_where(out@, p) == sum_where(histogram@.subrange(0, k + 1), p) by {
            lemma_sum_where_insert(before, pos as int, entry, p);
            assert(histogram@.subrange(0, k + 1) =~= histogram@.subrange(0, k as int).push(histogram@[k as int]));
            lemma_sum_where_push(histogram@.subrange(0, k as int), histogram@[k as int], p);
        }
        assert(hist_view(before).len() == before.len());
        proof {
            vstd::seq_lib::to_multiset_insert(hist_view(before), pos as int, (entry.0@, entry.1));
        }
        assert(hist_view(out@) =~= hist_view(before).insert(pos as int, (entry.0@, entry.1)));
        assert(hist_view(histogram@.subrange(0, k + 1)) =~= hist_view(histogram@.subrange(0, k as int)).push(
            (histogram@[k as int].0@, histogram@[k as int].1),
        ));
        proof {
            let x = (histogram@[k as int].0@, histogram@[k as int].1);
            let sub = hist_view(histogram@.subrange(0, k as int));
            sub.to_multiset_ensures();
            assert(sub.push(x).to_multiset() =~= sub.to_multiset().insert(x));
            assert(hist_view(out@).to_multiset() == hist_view(histogram@.subrange(0, k + 1)).to_multiset());
        }
        proof {
            let sub = histogram@.subrange(0, k as int);
            let sub2 = histogram@.subrange(0, k + 1);
            assert forall|i: int| 0 <= i < out@.len() implies #[trigger] holds_entry(sub2, out@[i]) by {
                if i < pos {
                    assert(out@[i] == before[i]);
                    assert(holds_entry(sub, before[i]));
                    let w = choose|w: int| 0 <= w < sub.len() && #[trigger] sub[w].0@ == before[i].0@ && sub[w].1 == before[i].1;
                    assert(sub2[w] == sub[w]);
                } else if i == pos {
                    assert(sub2[k as int] == histogram@[k as int]);
                } else {
                    assert(out@[i] == before[i - 1]);
                    assert(holds_entry(sub, before[i - 1]));
                    let w = choose|w: int| 0 <= w < sub.len() && #[trigger] sub[w].0@ == before[i - 1].0@ && sub[w].1 == before[i - 1].1;
                    assert(sub2[w] == sub[w]);
                }
            }
            assert forall|j: int| 0 <= j < k + 1 implies #[trigger] holds_entry(out@, histogram@[j]) by {
                if j < k {
                    assert(holds_entry(before, histogram@[j]));
                    let w = choose|w: int| 0 <= w < before.len() && #[trigger] before[w].0@ == histogram@[j].0@ && before[w].1 == histogram@[j].1;
                    if w < pos {
                        assert(out@[w] == before[w]);
                    } else {
                        assert(out@[w + 1] == before[w]);
                    }
                } else {
                    assert(out@[pos as int] == entry);
                }
            }
            if keys_distinct(histogram@) {
                assert forall|i: int, j: int| 0 <= i < j < out@.len() implies out@[i].0@ != out@[j].0@ by {
                    if i != pos && j != pos {
                        let bi = if i < pos { i } else { i - 1 };
                        let bj = if j < pos { j } else { j - 1 };
                        assert(out@[i] == before[bi]);
                        assert(out@[j] == before[bj]);
                    } else {
                        let o = if i == pos { j } else { i };
                        let bo = if o < pos { o } else { o - 1 };
                        assert(out@[o] == before[bo]);
                        assert(holds_entry(sub, before[bo]));
                        let w = choose|w: int| 0 <= w < sub.len() && #[trigger] sub[w].0@ == before[bo].0@ && sub[w].1 == before[bo].1;
                        assert(sub[w] == histogram@[w]);
                    }
                }
            }
        }
        assert(sorted_desc(out@)) by {
            assert forall|i: int, j: int| 0 <= i < j < out@.len() implies out@[i].1 >= out@[j].1 by {
                if j < pos {
                } else if j == pos {
                } else if i < pos {
                    assert(before[j - 1].1 <= c || pos == before.len() || before[j - 1].1 <= before[pos as int].1);
                } else if i == pos {
                    assert(before[pos as int].1 < c);
                }
            }
        }
        proof {
            let bv = hist_view(before);
            let x = (entry.0@, c);
            let l = bv.subrange(0, pos as int);
            let rr = bv.subrange(pos as int, bv.len() as int);
            assert(bv =~= l + rr);
            assert(hist_view(out@) =~= l.push(x) + rr);
            assert(hist_view(histogram@.subrange(0, k + 1)) =~= hist_view(histogram@.subrange(0, k as int)).push(x));
            assert forall|d: usize| #[trigger] count_run(hist_view(out@), d) == count_run(
                hist_view(histogram@.subrange(0, k + 1)),
                d,
            ) by {
                lemma_count_run_concat(l.push(x), rr, d);
                lemma_count_run_concat(l, rr, d);
                assert(l.push(x).drop_last() =~= l);
                let hk = hist_view(histogram@.subrange(0, k as int));
                assert(hk.push(x).drop_last() =~= hk);
                if d == c {
                    assert forall|q: int| 0 <= q < rr.len() implies rr[q].1 != d by {
                        assert(rr[q] == bv[pos + q]);
                        assert(before[pos as int].1 < c);
                        assert(before[pos as int].1 >= before[pos + q].1);
                    }
                    lemma_count_run_none(rr, d);
                }
            }
        }
        k = k + 1;
    }
    assert(histogram@.subrange(0, histogram@.len() as int) =~= histogram@);
    out
}

/// The multiset intersection of `a` and `b`, in the order of `a`: an
/// element of `a` is kept while `b` still has an unmatched copy of it.
pub open spec fn intersect_spec(a: Seq<Seq<u8>>, b: Seq<Seq<u8>>) -> Seq<Seq<u8>>
    decreases a.len(),
{
    if a.len() == 0 {
        Seq::empty()
    } else {
        let p = intersect_spec(a.drop_last(), b);
        if count_in(a.drop_last(), a.last()) < count_in(b, a.last()) {
            p.push(a.last())
        } else {
            p
        }
    }
}

/// How many times `x` occurs in `s`.
pub fn count_bytes(s: &[Vec<u8>], x: &Vec<u8>, upto: usize) -> (r: usize)
    requires
        upto <= s@.len(),
    ensures
        r == count_in(views(s@.subrange(0, upto as int)), x@),
{
    let mut r: usize = 0;
    let mut j: usize = 0;
    while j < upto
        invariant
            j <= upto <= s@.len(),
            r == count_in(views(s@.subrange(0, j as int)), x@),
            r <= j,
        decreases upto - j,
    {
        proof {
            assert(views(s@.subrange(0, j + 1)) =~= views(s@.subrange(0, j as int)).push(s@[j as int]@));
            lemma_count_in_push(views(s@.subrange(0, j as int)), s@[j as int]@, x@);
        }
        if bytes_eq(&s[j], x) {
            r = r + 1;
        }
        j = j + 1;
    }
    r
}

/// The multiset intersection of two sequences of byte strings, in the
/// order of `lhs`.
pub fn intersect_in_order(lhs: &[Vec<u8>], rhs: &[Vec<u8>]) -> (r: Vec<Vec<u8>>)
    ensures
        views(r@) == intersect_spec(views(lhs@), views(rhs@)),
{
    let mut out: Vec<Vec<u8>> = Vec::new();
    let mut k: usize = 0;
    while k < lhs.len()
        invariant
            k <= lhs@.len(),
            views(out@) == intersect_spec(views(lhs@.subrange(0, k as int)), views(rhs@)),
        decreases lhs@.len() - k,
    {
        let before = count_bytes(lhs, &lhs[k], k);
        let available = count_bytes(rhs, &lhs[k], rhs.len());
        proof {
            let a = views(lhs@.subrange(0, k + 1));
            assert(a.drop_last() =~= views(lhs@.subrange(0, k as int)));
            assert(a.last() == lhs@[k as int]@);
            assert(rhs@.subrange(0, rhs@.len() as int) =~= rhs@);
        }
        if before < available {
            let ghost o0 = views(out@);
            out.push(lhs[k].clone());
            assert(views(out@) =~= o0.push(lhs@[k as int]@));
        }
        k = k + 1;
    }
    assert(lhs@.subrange(0, lhs@.len() as int) =~= lhs@);
    out
}

/// The `index`-th value of the cumulative distribution of an ordered
/// histogram of `num` messages, `sum(counts[..index]) / num`, in fixed point
/// (rounded down); 0 when `index` is out of range.
pub fn compute_cdf(index: usize, histogram: &Vec<HistType>, num: usize) -> (r: u64)
    requires
        num >= 1,
        total(histogram@) <= num,
        num <= crate::fixed::MAX_MESSAGES,
    ensures
        index >= histogram@.len() ==> r == 0,
        index < histogram@.len() ==> r == total(histogram@.subrange(0, index as int)) * crate::fixed::FIXED_ONE
            / (num as int),
{
    if index >= histogram.len() {
        return 0;
    }
    let mut sum: u128 = 0;
    let mut i: usize = 0;
    while i < index
        invariant
            i <= index < histogram@.len(),
            sum == total(histogram@.subrange(0, i as int)),
            total(histogram@) <= num <= crate::fixed::MAX_MESSAGES,
        decreases index - i,
    {
        proof {
            let a = histogram@.subrange(0, i as int);
            assert(histogram@.subrange(0, i + 1) =~= a.push(histogram@[i as int]));
            lemma_sum_where_push(a, histogram@[i as int], any_message());
            assert(histogram@ =~= histogram@.subrange(0, i + 1) + histogram@.subrange(i + 1, histogram@.len() as int));
            lemma_sum_where_concat(histogram@.subrange(0, i + 1), histogram@.subrange(i + 1, histogram@.len() as int), any_message());
        }
        sum = sum + histogram[i].1 as u128;
        i = i + 1;
    }
    proof {
        assert(histogram@ =~= histogram@.subrange(0, index as int) + histogram@.subrange(index as int, histogram@.len() as int));
        lemma_sum_where_concat(histogram@.subrange(0, index as int), histogram@.subrange(index as int, histogram@.len() as int), any_message());
        let n = num as int;
        assert(sum * crate::fixed::FIXED_ONE <= n * crate::fixed::FIXED_ONE) by (nonlinear_arith)
            requires sum <= n;
        assert(sum * crate::fixed::FIXED_ONE / n <= crate::fixed::FIXED_ONE) by (nonlinear_arith)
            requires sum * crate::fixed::FIXED_ONE <= n * crate::fixed::FIXED_ONE, n >= 1;
    }
    (sum * (crate::fixed::FIXED_ONE as u128) / (num as u128)) as u64
}

/// `a` comes no later than `b` in lexicographic byte order.
pub open spec fn lex_le(a: Seq<u8>, b: Seq<u8>) -> bool
    decreases a.len(),
{
    if a.len() == 0 {
        true
    } else if b.len() == 0 {
        false
    } else if a[0] != b[0] {
        a[0] < b[0]
    } else {
        lex_le(a.drop_first(), b.drop_first())
    }
}

/// `s` is in lexicographic byte order.
pub open spec fn lex_sorted(s: Seq<Seq<u8>>) -> bool {
    forall|i: int, j: int| 0 <= i < j < s.len() ==> lex_le(s[i], s[j])
}

pub proof fn lemma_lex_total(a: Seq<u8>, b: Seq<u8>)
    ensures
        lex_le(a, b) || lex_le(b, a),
    decreases a.len(),
{
    if a.len() > 0 && b.len() > 0 && a[0] == b[0] {
        lemma_lex_total(a.drop_first(), b.drop_first());
    }
}

pub proof fn lemma_lex_trans(a: Seq<u8>, b: Seq<u8>, c: Seq<u8>)
    requires
        lex_le(a, b),
        lex_le(b, c),
    ensures
        lex_le(a, c),
    decreases a.len(),
{
    if a.len() > 0 && b.len() > 0 && c.len() > 0 && a[0] == b[0] && b[0] == c[0] {
        lemma_lex_trans(a.drop_first(), b.drop_first(), c.drop_first());
    }
}

/// Whether `a` comes no later than `b` in lexicographic byte order.
pub fn bytes_le(a: &Vec<u8>, b: &Vec<u8>) -> (r: bool)
    ensures
        r == lex_le(a@, b@),
{
    let mut i: usize = 0;
    assert(a@.subrange(0, a@.len() as int) =~= a@);
    assert(b@.subrange(0, b@.len() as int) =~= b@);
    while i < a.len() && i < b.len() && a[i] == b[i]
        invariant
            i <= a@.len(),
            i <= b@.len(),
            lex_le(a@, b@) == lex_le(a@.subrange(i as int, a@.len() as int), b@.subrange(i as int, b@.len() as int)),
        decreases a@.len() - i,
    {
        proof {
            let x = a@.subrange(i as int, a@.len() as int);
            let y = b@.subrange(i as int, b@.len() as int);
            assert(x.drop_first() =~= a@.subrange(i + 1, a@.len() as int));
            assert(y.drop_first() =~= b@.subrange(i + 1, b@.len() as int));
        }
        i = i + 1;
    }
    proof {
        let x = a@.subrange(i as int, a@.len() as int);
        let y = b@.subrange(i as int, b@.len() as int);
        if i < a@.len() && i < b@.len() {
            assert(x[0] == a@[i as int] && y[0] == b@[i as int]);
        }
    }
    if i == a.len() {
        true
    } else if i == b.len() {
        false
    } else {
        a[i] < b[i]
    }
}

pub proof fn lemma_count_in_concat(a: Seq<Seq<u8>>, b: Seq<Seq<u8>>, x: Seq<u8>)
    ensures
        count_in(a + b, x) == count_in(a, x) + count_in(b, x),
    decreases b.len(),
{
    if b.len() == 0 {
        assert(a + b =~= a);
    } else {
        lemma_count_in_concat(a, b.drop_last(), x);
        assert((a + b).drop_last() =~= a + b.drop_last());
    }
}

/// Sorts byte strings in lexicographic order; equal strings keep their order.
pub fn sort_bytes(v: &Vec<Vec<u8>>) -> (r: Vec<Vec<u8>>)
    ensures
        lex_sorted(views(r@)),
        forall|x: Seq<u8>| #[trigger] count_in(views(r@), x) == count_in(views(v@), x),
        r@.len() == v@.len(),
{
    let mut out: Vec<Vec<u8>> = Vec::new();
    let mut k: usize = 0;
    while k < v.len()
        invariant
            k <= v@.len(),
            out@.len() == k,
            lex_sorted(views(out@)),
            forall|x: Seq<u8>| #[trigger] count_in(views(out@), x) == count_in(views(v@.subrange(0, k as int)), x),
        decreases v@.len() - k,
    {
        let mut pos: usize = 0;
        while pos < out.len() && bytes_le(&out[pos], &v[k])
            invariant
                k < v@.len(),
                pos <= out@.len(),
                forall|i: int| 0 <= i < pos ==> lex_le(#[trigger] out@[i]@, v@[k as int]@),
            decreases out@.len() - pos,
        {
            pos = pos + 1;
        }
        let ghost before = views(out@);
        let ghost x = v@[k as int]@;
        out.insert(pos, v[k].clone());
        proof {
            let now = views(out@);
            assert(now =~= before.subrange(0, pos as int).push(x) + before.subrange(pos as int, before.len() as int));
            assert(before =~= before.subrange(0, pos as int) + before.subrange(pos as int, before.len() as int));
            assert(views(v@.subrange(0, k + 1)) =~= views(v@.subrange(0, k as int)).push(x));
            assert forall|y: Seq<u8>| #[trigger] count_in(now, y) == count_in(views(v@.subrange(0, k + 1)), y) by {
                lemma_count_in_concat(before.subrange(0, pos as int).push(x), before.subrange(pos as int, before.len() as int), y);
                lemma_count_in_concat(before.subrange(0, pos as int), before.subrange(pos as int, before.len() as int), y);
                lemma_count_in_push(before.subrange(0, pos as int), x, y);
                lemma_count_in_push(views(v@.subrange(0, k as int)), x, y);
            }
            if pos < before.len() {
                lemma_lex_total(before[pos as int], x);
            }
            assert forall|i: int, j: int| 0 <= i < j < now.len() implies lex_le(now[i], now[j]) by {
                if j < pos {
                    assert(now[i] == before[i] && now[j] == before[j]);
                } else if j == pos {
                    assert(now[i] == before[i] && now[j] == x);
                    assert(out@[i]@ == before[i]);
                } else if i < pos {
                    assert(now[i] == before[i] && now[j] == before[j - 1]);
                } else if i == pos {
                    assert(now[i] == x && now[j] == before[j - 1]);
                    assert(lex_le(x, before[pos as int]));
                    if j - 1 > pos {
                        lemma_lex_trans(x, before[pos as int], before[j - 1]);
                    }
                } else {
                    assert(now[i] == before[i - 1] && now[j] == before[j - 1]);
                }
            }
        }
        k = k + 1;
    }
    assert(v@.subrange(0, v@.len() as int) =~= v@);
    out
}

pub proof fn lemma_intersect_counts(a: Seq<Seq<u8>>, b: Seq<Seq<u8>>, x: Seq<u8>)
    ensures
        count_in(intersect_spec(a, b), x) == if count_in(a, x) < count_in(b, x) {
            count_in(a, x)
        } else {
            count_in(b, x)
        },
    decreases a.len(),
{
    if a.len() > 0 {
        let q = a.drop_last();
        lemma_intersect_counts(q, b, x);
        lemma_count_in_push(q, a.last(), x);
        assert(q.push(a.last()) =~= a);
        let p = intersect_spec(q, b);
        if count_in(q, a.last()) < count_in(b, a.last()) {
            lemma_count_in_push(p, a.last(), x);
        }
    }
}

/// The multiset intersection of two sequences of byte strings, in
/// lexicographic order: each string occurs as many times as in the one of
/// `lhs` and `rhs` that holds it fewer times.
pub fn intersect(lhs: &[Vec<u8>], rhs: &[Vec<u8>]) -> (r: Vec<Vec<u8>>)
    ensures
        lex_sorted(views(r@)),
        forall|x: Seq<u8>| #[trigger] count_in(views(r@), x) == if count_in(views(lhs@), x) < count_in(views(rhs@), x) {
            count_in(views(lhs@), x)
        } else {
            count_in(views(rhs@), x)
        },
{
    let common = intersect_in_order(lhs, rhs);
    let r = sort_bytes(&common);
    proof {
        assert forall|x: Seq<u8>| #[trigger] count_in(views(r@), x) == if count_in(views(lhs@), x) < count_in(views(rhs@), x) {
            count_in(views(lhs@), x)
        } else {
            count_in(views(rhs@), x)
        } by {
            lemma_intersect_counts(views(lhs@), views(rhs@), x);
        }
    }
    r
}

/// The message that stands for the integer `x`: its four little-endian bytes.
pub fn i32_message(x: i32) -> (r: Vec<u8>)
    ensures
        r@ == vstd::bytes::spec_u32_to_le_bytes(x as u32),
        r@.len() == 4,
{
    vstd::bytes::u32_to_le_bytes(x as u32)
}

/// The integer that a four-byte message stands for; `None` for any other length.
pub fn message_i32(m: &Vec<u8>) -> (r: Option<i32>)
    ensures
        r is Some <==> m@.len() == 4,
        r matches Some(x) ==> vstd::bytes::spec_u32_to_le_bytes(x as u32) == m@,
{
    if m.len() != 4 {
        return None;
    }
    let v = vstd::bytes::u32_from_le_bytes(m.as_slice());
    proof {
        vstd::bytes::lemma_auto_spec_u32_to_from_le_bytes();
        assert((v as i32) as u32 == v) by (bit_vector);
    }
    Some(v as i32)
}
} // verus!
