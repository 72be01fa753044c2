//! What the schemes hand to a document store: documents holding one
//! ciphertext each, and search requests cut into bounded disjunctions.

use crate::util::views;
use vstd::prelude::*;

verus! {

/// Largest number of equality terms in one search request.
pub const MAX_DISJUNCTS: usize = 4096;

/// A stored document: one base64 ciphertext.
#[derive(Clone, Debug)]
pub struct Data {
    pub data: String,
}

/// The tokens of the chunks, one chunk after the other.
pub open spec fn flatten_chunks(c: Seq<Vec<Vec<u8>>>) -> Seq<Seq<u8>>
    decreases c.len(),
{
    if c.len() == 0 {
        Seq::empty()
    } else {
        flatten_chunks(c.drop_last()) + views(c.last()@)
    }
}

/// Cuts the search tokens into consecutive requests of at most
/// `MAX_DISJUNCTS` tokens each; every request but the last is full.
pub fn chunk_tokens(tokens: &Vec<Vec<u8>>) -> (r: Vec<Vec<Vec<u8>>>)
    ensures
        flatten_chunks(r@) == views(tokens@),
        forall|i: int| 0 <= i < r@.len() ==> 1 <= #[trigger] r@[i]@.len() <= MAX_DISJUNCTS,
        forall|i: int| 0 <= i < r@.len() - 1 ==> #[trigger] r@[i]@.len() == MAX_DISJUNCTS,
{
    let mut out: Vec<Vec<Vec<u8>>> = Vec::new();
    let mut i: usize = 0;
    while i < tokens.len()
        invariant
            i <= tokens@.len(),
            flatten_chunks(out@) == views(tokens@.subrange(0, i as int)),
            forall|k: int| 0 <= k < out@.len() ==> 1 <= #[trigger] out@[k]@.len() <= MAX_DISJUNCTS,
            forall|k: int|
                0 <= k < out@.len() && (k < out@.len() - 1 || i < tokens@.len()) ==> #[trigger] out@[k]@.len()
                    == MAX_DISJUNCTS,
        decreases tokens@.len() - i,
    {
        let end = if tokens.len() - i > MAX_DISJUNCTS {
            i + MAX_DISJUNCTS
        } else {
            tokens.len()
        };
        let mut chunk: Vec<Vec<u8>> = Vec::new();
        let mut t: usize = i;
        while t < end
            invariant
                i <= t <= end <= tokens@.len(),
                chunk@.len() == t - i,
                views(chunk@) == views(tokens@.subrange(i as int, t as int)),
            decreases end - t,
        {
            let ghost c0 = views(chunk@);
            chunk.push(tokens[t].clone());
            proof {
                assert(views(chunk@) =~= c0.push(tokens@[t as int]@));
                assert(views(tokens@.subrange(i as int, t + 1)) =~= views(tokens@.subrange(i as int, t as int)).push(
                    tokens@[t as int]@,
                ));
            }
            t = t + 1;
        }
        let ghost o0 = out@;
        out.push(chunk);
        proof {
            assert(out@.drop_last() =~= o0);
            assert(views(tokens@.subrange(0, end as int)) =~= views(tokens@.subrange(0, i as int)) + views(
                tokens@.subrange(i as int, end as int),
            ));
            assert forall|k: int| 0 <= k < out@.len() implies 1 <= #[trigger] out@[k]@.len() <= MAX_DISJUNCTS by {
                if k < o0.len() {
                    assert(out@[k] == o0[k]);
                }
            }
            assert forall|k: int|
                0 <= k < out@.len() && (k < out@.len() - 1 || end < tokens@.len()) implies #[trigger] out@[k]@.len()
                    == MAX_DISJUNCTS by {
                if k < o0.len() {
                    assert(out@[k] == o0[k]);
                }
            }
        }
        i = end;
    }
    assert(tokens@.subrange(0, tokens@.len() as int) =~= tokens@);
    out
}

} // verus!
