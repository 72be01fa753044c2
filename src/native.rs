//! The two baseline schemes: deterministic AES-GCM under the zero nonce
//! (DTE), and randomized AES-GCM under a fresh nonce per call (RND), whose
//! nonces are kept per message so that a search can re-derive them.

use crate::crypto::{
    key_generate, new_random_nonce, new_zero_nonce, open_token, seal_token, token_of, zero_nonce, KEY_LEN, NONCE_LEN,
    PLAIN_MAX,
};
use crate::table::{add_value, get_values, lookup, table_has, table_keys_distinct};
use crate::util::{bytes_eq, views};
use vstd::prelude::*;

verus! {

/// A context of the baseline schemes.
pub struct ContextNative {
    /// The AES-256 key.
    pub key: Vec<u8>,
    /// Whether each encryption draws a fresh nonce.
    pub rnd: bool,
    /// For each message, the nonces drawn for it (RND only).
    pub local_table: Vec<(Vec<u8>, Vec<Vec<u8>>)>,
}

/// Every nonce recorded in `t` is a nonce.
pub open spec fn nonces_wf(t: Seq<(Vec<u8>, Vec<Vec<u8>>)>) -> bool {
    &&& table_keys_distinct(t)
    &&& forall|x: Seq<u8>, j: int| 0 <= j < lookup(t, x).len() ==> #[trigger] lookup(t, x)[j]@.len() == NONCE_LEN
}

impl ContextNative {
    /// A context with no key and no recorded nonce.
    pub fn new(rnd: bool) -> (r: ContextNative)
        ensures
            r.rnd == rnd,
            r.key@.len() == 0,
            r.local_table@.len() == 0,
    {
        ContextNative { key: Vec::new(), rnd, local_table: Vec::new() }
    }

    /// Draws a fresh key.
    pub fn key_generate(&mut self)
        ensures
            final(self).key@.len() == KEY_LEN,
            final(self).rnd == old(self).rnd,
            final(self).local_table == old(self).local_table,
    {
        self.key = key_generate();
    }

    /// Seals `message` under the zero nonce (DTE) or under a fresh nonce,
    /// which is recorded for `message` (RND): a single ciphertext. `None`
    /// for a key that is not 32 bytes or a message too long to seal.
    pub fn encrypt(&mut self, message: &Vec<u8>) -> (r: Option<Vec<Vec<u8>>>)
        requires
            nonces_wf(old(self).local_table@),
        ensures
            nonces_wf(final(self).local_table@),
            final(self).key == old(self).key,
            final(self).rnd == old(self).rnd,
            r is Some <==> (old(self).key@.len() == KEY_LEN && message@.len() <= PLAIN_MAX),
            !old(self).rnd ==> (r matches Some(v) ==> v@.len() == 1 && v@[0]@ == token_of(
                old(self).key@,
                zero_nonce(),
                message@,
            )) && final(self).local_table == old(self).local_table,
            old(self).rnd ==> (r matches Some(v) ==> v@.len() == 1 && exists|nonce: Vec<u8>|
                nonce@.len() == NONCE_LEN && lookup(final(self).local_table@, message@) == lookup(
                    old(self).local_table@,
                    message@,
                ).push(nonce) && v@[0]@ == #[trigger] token_of(old(self).key@, nonce@, message@)),
            forall|x: Seq<u8>| x != message@ ==> #[trigger] lookup(final(self).local_table@, x) == lookup(old(self).local_table@, x),
            r is None ==> final(self).local_table == old(self).local_table,
    {
        if self.key.len() != KEY_LEN || message.len() as u64 > PLAIN_MAX {
            return None;
        }
        let nonce = if self.rnd {
            let n = new_random_nonce();
            let n2 = n.clone();
            assert(n2@ == n@);
            let ghost t0 = self.local_table@;
            add_value(&mut self.local_table, message, n2);
            proof {
                assert forall|x: Seq<u8>, j: int| 0 <= j < lookup(self.local_table@, x).len() implies #[trigger] lookup(
                    self.local_table@,
                    x,
                )[j]@.len() == NONCE_LEN by {
                    if x != message@ {
                        assert(lookup(self.local_table@, x) == lookup(t0, x));
                    } else if j < lookup(t0, x).len() {
                        assert(lookup(self.local_table@, x)[j] == lookup(t0, x)[j]);
                    }
                }
            }
            n
        } else {
            new_zero_nonce()
        };
        let c = match seal_token(&self.key, &nonce, message) {
            Some(c) => c,
            None => return None,
        };
        let mut out: Vec<Vec<u8>> = Vec::new();
        out.push(c);
        Some(out)
    }
}

/// `nonce` is one of the nonces recorded for the message `m`.
pub open spec fn recorded_for(t: Seq<(Vec<u8>, Vec<Vec<u8>>)>, m: Seq<u8>, nonce: Seq<u8>) -> bool {
    exists|j: int| 0 <= j < lookup(t, m).len() && #[trigger] lookup(t, m)[j]@ == nonce
}

/// No other message is sealed to `ct` under a nonce recorded for it.
pub open spec fn sealed_only_by(t: Seq<(Vec<u8>, Vec<Vec<u8>>)>, key: Seq<u8>, m: Seq<u8>, ct: Seq<u8>) -> bool {
    forall|x: Seq<u8>, n: Seq<u8>| x != m && recorded_for(t, x, n) ==> #[trigger] token_of(key, n, x) != ct
}

/// The ciphertexts of `message` under each of the nonces `ns`.
pub open spec fn tokens_under(key: Seq<u8>, ns: Seq<Vec<u8>>, message: Seq<u8>) -> Seq<Seq<u8>> {
    ns.map_values(|n: Vec<u8>| token_of(key, n@, message))
}

impl ContextNative {
    /// Decodes and opens a ciphertext: under the zero nonce (DTE), or (RND)
    /// under each nonce recorded for a message, in turn, until one opens it
    /// to that very message.
    pub fn decrypt(&self, ciphertext: &Vec<u8>) -> (r: Option<Vec<u8>>)
        requires
            nonces_wf(self.local_table@),
        ensures
            r is Some ==> self.key@.len() == KEY_LEN,
            !self.rnd ==> (r matches Some(p) ==> token_of(self.key@, zero_nonce(), p@) == ciphertext@),
            !self.rnd ==> forall|m: Seq<u8>|
                self.key@.len() == KEY_LEN && m.len() <= PLAIN_MAX && #[trigger] token_of(self.key@, zero_nonce(), m)
                    == ciphertext@ ==> r is Some && r->0@ == m,
            self.rnd ==> (r matches Some(p) ==> exists|nonce: Seq<u8>|
                recorded_for(self.local_table@, p@, nonce) && #[trigger] token_of(self.key@, nonce, p@) == ciphertext@),
            self.rnd ==> forall|m: Seq<u8>, nonce: Seq<u8>|
                self.key@.len() == KEY_LEN && m.len() <= PLAIN_MAX && recorded_for(self.local_table@, m, nonce)
                    && #[trigger] token_of(self.key@, nonce, m) == ciphertext@ ==> r is Some,
            self.rnd ==> forall|m: Seq<u8>, nonce: Seq<u8>|
                self.key@.len() == KEY_LEN && m.len() <= PLAIN_MAX && recorded_for(self.local_table@, m, nonce)
                    && #[trigger] token_of(self.key@, nonce, m) == ciphertext@ && sealed_only_by(
                    self.local_table@,
                    self.key@,
                    m,
                    ciphertext@,
                ) ==> r is Some && r->0@ == m,
    {
        if !self.rnd {
            let nonce = new_zero_nonce();
            return open_token(&self.key, &nonce, ciphertext);
        }
        let ghost t = self.local_table@;
        let mut i: usize = 0;
        while i < self.local_table.len()
            invariant
                self.rnd,
                t == self.local_table@,
                nonces_wf(t),
                i <= t.len(),
                forall|a: int, b: int|
                    0 <= a < i && 0 <= b < t[a].1@.len() && self.key@.len() == KEY_LEN && t[a].0@.len() <= PLAIN_MAX
                        ==> #[trigger] token_of(self.key@, t[a].1@[b]@, t[a].0@) != ciphertext@,
            decreases t.len() - i,
        {
            let nonces = &self.local_table[i].1;
            proof {
                crate::table::lemma_lookup_at(t, i as int);
            }
            let mut j: usize = 0;
            while j < nonces.len()
                invariant
                    self.rnd,
                    t == self.local_table@,
                    i < t.len(),
                    nonces@ == t[i as int].1@,
                    nonces_wf(t),
                    j <= nonces@.len(),
                    lookup(t, t[i as int].0@) == t[i as int].1@,
                    forall|b: int|
                        0 <= b < j && self.key@.len() == KEY_LEN && t[i as int].0@.len() <= PLAIN_MAX ==> #[trigger] token_of(
                            self.key@,
                            nonces@[b]@,
                            t[i as int].0@,
                        ) != ciphertext@,
                decreases nonces@.len() - j,
            {
                proof {
                    assert(lookup(t, t[i as int].0@)[j as int]@.len() == NONCE_LEN);
                }
                match open_token(&self.key, &nonces[j], ciphertext) {
                    Some(p) => {
                        if bytes_eq(&p, &self.local_table[i].0) {
                            proof {
                                assert(recorded_for(t, p@, nonces@[j as int]@));
                            }
                            return Some(p);
                        }
                    },
                    None => {},
                }
                j = j + 1;
            }
            i = i + 1;
        }
        proof {
            assert forall|m: Seq<u8>, nonce: Seq<u8>|
                self.key@.len() == KEY_LEN && m.len() <= PLAIN_MAX && recorded_for(t, m, nonce) && #[trigger] token_of(
                    self.key@,
                    nonce,
                    m,
                ) == ciphertext@ implies false by {
                let b = choose|b: int| 0 <= b < lookup(t, m).len() && #[trigger] lookup(t, m)[b]@ == nonce;
                assert(table_has(t, m));
                let a = choose|a: int| 0 <= a < t.len() && #[trigger] t[a].0@ == m;
                crate::table::lemma_lookup_at(t, a);
                assert(token_of(self.key@, t[a].1@[b]@, t[a].0@) != ciphertext@);
            }
        }
        None
    }

    /// The ciphertexts that a search for `message` asks the store for: its
    /// single deterministic ciphertext (DTE), or one ciphertext per recorded
    /// nonce (RND). `None` for a key that is not 32 bytes, a message too long
    /// to seal, or, under RND, a message never encrypted.
    pub fn search_tokens(&self, message: &Vec<u8>) -> (r: Option<Vec<Vec<u8>>>)
        requires
            nonces_wf(self.local_table@),
        ensures
            r is Some <==> (self.key@.len() == KEY_LEN && message@.len() <= PLAIN_MAX && (!self.rnd || table_has(
                self.local_table@,
                message@,
            ))),
            !self.rnd ==> (r matches Some(v) ==> views(v@) == seq![token_of(self.key@, zero_nonce(), message@)]),
            self.rnd ==> (r matches Some(v) ==> views(v@) == tokens_under(
                self.key@,
                lookup(self.local_table@, message@),
                message@,
            )),
    {
        if self.key.len() != KEY_LEN || message.len() as u64 > PLAIN_MAX {
            return None;
        }
        if !self.rnd {
            let nonce = new_zero_nonce();
            let c = match seal_token(&self.key, &nonce, message) {
                Some(c) => c,
                None => return None,
            };
            let mut out: Vec<Vec<u8>> = Vec::new();
            out.push(c);
            assert(views(out@) =~= seq![token_of(self.key@, zero_nonce(), message@)]);
            return Some(out);
        }
        let nonces = match get_values(&self.local_table, message) {
            Some(v) => v,
            None => return None,
        };
        let mut out: Vec<Vec<u8>> = Vec::new();
        let mut j: usize = 0;
        while j < nonces.len()
            invariant
                j <= nonces@.len(),
                nonces@ == lookup(self.local_table@, message@),
                nonces_wf(self.local_table@),
                self.key@.len() == KEY_LEN,
                message@.len() <= PLAIN_MAX,
                views(out@) == tokens_under(self.key@, nonces@.subrange(0, j as int), message@),
            decreases nonces@.len() - j,
        {
            proof {
                assert(lookup(self.local_table@, message@)[j as int]@.len() == NONCE_LEN);
            }
            let c = match seal_token(&self.key, &nonces[j], message) {
                Some(c) => c,
                None => return None,
            };
            let ghost o0 = views(out@);
            out.push(c);
            proof {
                assert(views(out@) =~= o0.push(c@));
                assert(nonces@.subrange(0, j + 1) =~= nonces@.subrange(0, j as int).push(nonces@[j as int]));
                assert(tokens_under(self.key@, nonces@.subrange(0, j + 1), message@) =~= tokens_under(
                    self.key@,
                    nonces@.subrange(0, j as int),
                    message@,
                ).push(token_of(self.key@, nonces@[j as int]@, message@)));
            }
            j = j + 1;
        }
        assert(nonces@.subrange(0, nonces@.len() as int) =~= nonces@);
        Some(out)
    }
}

} // verus!
