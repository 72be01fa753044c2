//! Client-side tables keyed by message: each distinct message holds a list
//! of values, in the order in which they were added.

use crate::util::bytes_eq;
use vstd::prelude::*;

verus! {

/// The messages of `t` are pairwise distinct.
pub open spec fn table_keys_distinct<V>(t: Seq<(Vec<u8>, Vec<V>)>) -> bool {
    forall|i: int, j: int| 0 <= i < j < t.len() ==> t[i].0@ != t[j].0@
}

/// Some row of `t` holds the message `m`.
pub open spec fn table_has<V>(t: Seq<(Vec<u8>, Vec<V>)>, m: Seq<u8>) -> bool {
    exists|i: int| 0 <= i < t.len() && #[trigger] t[i].0@ == m
}

/// The values listed for `m` in `t`; empty when `m` has no row.
pub open spec fn lookup<V>(t: Seq<(Vec<u8>, Vec<V>)>, m: Seq<u8>) -> Seq<V> {
    if table_has(t, m) {
        t[choose|i: int| 0 <= i < t.len() && #[trigger] t[i].0@ == m].1@
    } else {
        Seq::empty()
    }
}

pub proof fn lemma_lookup_at<V>(t: Seq<(Vec<u8>, Vec<V>)>, i: int)
    requires
        table_keys_distinct(t),
        0 <= i < t.len(),
    ensures
        lookup(t, t[i].0@) == t[i].1@,
{
    assert(table_has(t, t[i].0@));
}

/// Finds the row of `m` in `t`.
pub fn find_row<V>(t: &Vec<(Vec<u8>, Vec<V>)>, m: &Vec<u8>) -> (r: Option<usize>)
    ensures
        r matches Some(i) ==> i < t@.len() && t@[i as int].0@ == m@,
        r is None ==> !table_has(t@, m@),
{
    let mut i: usize = 0;
    while i < t.len()
        invariant
            i <= t@.len(),
            forall|k: int| 0 <= k < i ==> t@[k].0@ != m@,
        decreases t@.len() - i,
    {
        if bytes_eq(&t[i].0, m) {
            return Some(i);
        }
        i = i + 1;
    }
    None
}

/// The values listed for `m`, or `None` when `m` has no row.
pub fn get_values<'a, V>(t: &'a Vec<(Vec<u8>, Vec<V>)>, m: &Vec<u8>) -> (r: Option<&'a Vec<V>>)
    requires
        table_keys_distinct(t@),
    ensures
        r is Some <==> table_has(t@, m@),
        r matches Some(v) ==> v@ == lookup(t@, m@),
{
    match find_row(t, m) {
        Some(i) => {
            proof {
                lemma_lookup_at(t@, i as int);
            }
            Some(&t[i].1)
        },
        None => None,
    }
}

/// Appends `v` to the values of `m`, adding a row for `m` if it has none.
pub fn add_value<V>(t: &mut Vec<(Vec<u8>, Vec<V>)>, m: &Vec<u8>, v: V)
    requires
        table_keys_distinct(old(t)@),
    ensures
        table_keys_distinct(final(t)@),
        table_has(final(t)@, m@),
        lookup(final(t)@, m@) == lookup(old(t)@, m@).push(v),
        forall|x: Seq<u8>| x != m@ ==> lookup(final(t)@, x) == lookup(old(t)@, x),
        forall|x: Seq<u8>| x != m@ ==> (table_has(final(t)@, x) == table_has(old(t)@, x)),
{
    let ghost t0 = t@;
    match find_row(t, m) {
        Some(i) => {
            proof {
                lemma_lookup_at(t0, i as int);
            }
            t[i].1.push(v);
            proof {
                assert(t@[i as int].0@ == m@);
                lemma_lookup_at(t@, i as int);
                assert forall|x: Seq<u8>| x != m@ implies lookup(t@, x) == lookup(t0, x)
                    && table_has(t@, x) == table_has(t0, x) by {
                    if table_has(t0, x) {
                        let j = choose|j: int| 0 <= j < t0.len() && #[trigger] t0[j].0@ == x;
                        lemma_lookup_at(t0, j);
                        lemma_lookup_at(t@, j);
                        assert(t@[j] == t0[j]);
                    }
                    if table_has(t@, x) {
                        let j = choose|j: int| 0 <= j < t@.len() && #[trigger] t@[j].0@ == x;
                        assert(t@[j] == t0[j]);
                    }
                }
            }
        },
        None => {
            let mut values: Vec<V> = Vec::new();
            values.push(v);
            t.push((m.clone(), values));
            proof {
                let last = t@.len() - 1;
                assert(t@[last].0@ == m@);
                lemma_lookup_at(t@, last);
                assert(lookup(t0, m@) =~= Seq::<V>::empty());
                assert(lookup(t@, m@) =~= lookup(t0, m@).push(v));
                assert forall|x: Seq<u8>| x != m@ implies lookup(t@, x) == lookup(t0, x)
                    && table_has(t@, x) == table_has(t0, x) by {
                    if table_has(t0, x) {
                        let j = choose|j: int| 0 <= j < t0.len() && #[trigger] t0[j].0@ == x;
                        lemma_lookup_at(t0, j);
                        assert(t@[j] == t0[j]);
                        lemma_lookup_at(t@, j);
                    }
                    if table_has(t@, x) {
                        let j = choose|j: int| 0 <= j < t@.len() && #[trigger] t@[j].0@ == x;
                        assert(j != last);
                        assert(t@[j] == t0[j]);
                    }
                }
            }
        },
    }
}

/// Whether the messages of `t` are pairwise distinct.
pub fn check_keys_distinct<V>(t: &Vec<(Vec<u8>, Vec<V>)>) -> (r: bool)
    ensures
        r == table_keys_distinct(t@),
{
    let mut i: usize = 0;
    while i < t.len()
        invariant
            i <= t@.len(),
            forall|a: int, b: int| 0 <= a < b < t@.len() && a < i ==> t@[a].0@ != t@[b].0@,
        decreases t@.len() - i,
    {
        let mut j: usize = i + 1;
        while j < t.len()
            invariant
                i < j <= t@.len(),
                forall|a: int, b: int| 0 <= a < b < t@.len() && a < i ==> t@[a].0@ != t@[b].0@,
                forall|b: int| i < b < j ==> t@[i as int].0@ != t@[b].0@,
            decreases t@.len() - j,
        {
            if bytes_eq(&t[i].0, &t[j].0) {
                return false;
            }
            j = j + 1;
        }
        i = i + 1;
    }
    true
}

/// The keys of an association list are pairwise distinct.
pub open spec fn assoc_keys_distinct<V>(t: Seq<(Vec<u8>, V)>) -> bool {
    forall|i: int, j: int| 0 <= i < j < t.len() ==> t[i].0@ != t[j].0@
}

/// Some pair of `t` has the key `m`.
pub open spec fn assoc_has<V>(t: Seq<(Vec<u8>, V)>, m: Seq<u8>) -> bool {
    exists|i: int| 0 <= i < t.len() && #[trigger] t[i].0@ == m
}

/// Finds the pair of `t` whose key is `m`.
pub fn find_key<V>(t: &Vec<(Vec<u8>, V)>, m: &Vec<u8>) -> (r: Option<usize>)
    ensures
        r matches Some(i) ==> i < t@.len() && t@[i as int].0@ == m@,
        r matches Some(i) ==> forall|j: int| 0 <= j < i ==> t@[j].0@ != m@,
        r is None ==> !assoc_has(t@, m@),
{
    let mut i: usize = 0;
    while i < t.len()
        invariant
            i <= t@.len(),
            forall|k: int| 0 <= k < i ==> t@[k].0@ != m@,
        decreases t@.len() - i,
    {
        if bytes_eq(&t[i].0, m) {
            return Some(i);
        }
        i = i + 1;
    }
    None
}

} // verus!
