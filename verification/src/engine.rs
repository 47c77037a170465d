//! The trained model: unigram, bigram and trigram count tables, their total,
//! and the reverse character trie over the words the model knows. The trie is
//! not part of the persisted model; `init_trie` derives it from the counter
//! table after a load.
use crate::tables::{CountMap, TableThree, TableTwo};
use crate::trie::{Trie, is_prefix};
use crate::words::{chars_of, rev_chars};
use vstd::prelude::*;

verus! {

/// Additive-smoothing weight on every raw count.
pub const LAPLACE_RATIO: u64 = 1000;

/// Weight of the trigram term: any trigram evidence dominates.
pub const TRIPLE_RATIO: u64 = 1000000000;

/// Weight of the bigram term: bigram evidence dominates unigram evidence.
pub const DOUBLE_RATIO: u64 = 100;

/// `c` Laplace-smoothed: `c * LAPLACE_RATIO + 1`, exact in `u128`.
fn smooth(c: u64) -> (r: u128)
    ensures
        r == c * LAPLACE_RATIO + 1,
        r <= (u64::MAX as u128) * (LAPLACE_RATIO as u128) + 1,
{
    proof {
        assert((c as u128) * (LAPLACE_RATIO as u128) <= (u64::MAX as u128) * (
        LAPLACE_RATIO as u128)) by (nonlinear_arith)
            requires
                c as u128 <= u64::MAX as u128,
        ;
    }
    (c as u128) * (LAPLACE_RATIO as u128) + 1
}

/// `p` is a prefix of the reversal of one of the first `n` keys.
pub open spec fn covered_by(p: Seq<char>, keys: Seq<(String, u64)>, n: int) -> bool {
    exists|k: int| 0 <= k < n && is_prefix(p, (#[trigger] keys[k]).0@.reverse())
}

/// The statistical model.
pub struct Engine {
    pub three_gram: TableThree,
    pub two_gram: TableTwo,
    pub counter: CountMap,
    pub total: u64,
    pub trie: Trie,
}

impl Engine {
    pub open spec fn wf(self) -> bool {
        &&& self.three_gram.wf()
        &&& self.two_gram.wf()
        &&& self.counter.wf()
        &&& self.trie.wf()
    }

    /// The trie holds exactly the reversed words of `counter`, beyond
    /// whatever `base` paths it held before words were folded in.
    pub open spec fn trie_covers(self, base: Trie) -> bool {
        forall|p: Seq<char>|
            #[trigger] self.trie.has_path(p) <==> base.has_path(p) || covered_by(
                p,
                self.counter.entries@,
                self.counter.entries@.len() as int,
            )
    }

    /// An empty model: no counts, no total, no trie.
    pub fn new() -> (r: Engine)
        ensures
            r.wf(),
            r.counter.entries@.len() == 0,
            r.two_gram.entries@.len() == 0,
            r.three_gram.entries@.len() == 0,
            r.total == 0,
            forall|p: Seq<char>| r.trie.has_path(p) <==> p.len() == 0,
    {
        Engine {
            three_gram: TableThree::new(),
            two_gram: TableTwo::new(),
            counter: CountMap::new(),
            total: 0,
            trie: Trie::new(),
        }
    }

    /// The transfer score of candidate word `w` after context `(a, b)`:
    /// each raw count is Laplace-smoothed, and the three orders are summed
    /// with the trigram term weighted far above the bigram term, itself far
    /// above the unigram term. Always at least `1 + DOUBLE + TRIPLE`.
    pub open spec fn spec_score(self, a: Seq<char>, b: Seq<char>, w: Seq<char>) -> int {
        (self.counter.spec_count(w) * LAPLACE_RATIO + 1) + (self.two_gram.spec_count(b, w)
            * LAPLACE_RATIO + 1) * DOUBLE_RATIO + (self.three_gram.spec_count(a, b, w)
            * LAPLACE_RATIO + 1) * TRIPLE_RATIO
    }

    /// Compute the transfer score exactly; it fits `u128` for any counts.
    #[verifier::spinoff_prover]
    #[verifier::rlimit(50)]
    pub fn get_transfer_count(&self, a: &String, b: &String, w: &String) -> (r: u128)
        ensures
            r == self.spec_score(a@, b@, w@),
    {
        let individual = smooth(self.counter.get(w));
        let double_raw = match self.two_gram.get(b) {
            Some(row) => row.get(w),
            None => 0,
        };
        let double = smooth(double_raw);
        let triple_raw = match self.three_gram.get(a) {
            Some(t2) => match t2.get(b) {
                Some(row) => row.get(w),
                None => 0,
            },
            None => 0,
        };
        let triple = smooth(triple_raw);
        proof {
            let cap = (u64::MAX as u128) * (LAPLACE_RATIO as u128) + 1;
            assert(cap == 18446744073709551615001);
            assert(double * (DOUBLE_RATIO as u128) <= cap * (DOUBLE_RATIO as u128))
                by (nonlinear_arith)
                requires
                    double <= cap,
            ;
            assert(triple * (TRIPLE_RATIO as u128) <= cap * (TRIPLE_RATIO as u128))
                by (nonlinear_arith)
                requires
                    triple <= cap,
            ;
            assert(double * (DOUBLE_RATIO as u128) <= 1844674407370955161500100);
            assert(triple * (TRIPLE_RATIO as u128) <= 18446744073709551615001000000000);
            assert(individual <= 18446744073709551615001);
        }
        individual + double * (DOUBLE_RATIO as u128) + triple * (TRIPLE_RATIO as u128)
    }

    /// Derive the reverse character trie: every word of `counter` is
    /// inserted with its characters reversed. The count tables and the
    /// total are left untouched.
    #[verifier::spinoff_prover]
    #[verifier::rlimit(50)]
    pub fn init_trie(&mut self)
        requires
            old(self).wf(),
        ensures
            final(self).wf(),
            final(self).counter == old(self).counter,
            final(self).two_gram == old(self).two_gram,
            final(self).three_gram == old(self).three_gram,
            final(self).total == old(self).total,
            final(self).trie_covers(old(self).trie),
    {
        let ghost keys = self.counter.entries@;
        let n = self.counter.entries.len();
        for i in 0..n
            invariant
                self.wf(),
                n == self.counter.entries@.len(),
                keys == self.counter.entries@,
                self.counter == old(self).counter,
                self.two_gram == old(self).two_gram,
                self.three_gram == old(self).three_gram,
                self.total == old(self).total,
                forall|p: Seq<char>|
                    #[trigger] self.trie.has_path(p) <==> old(self).trie.has_path(p)
                        || covered_by(p, keys, i as int),
        {
            let ghost before = self.trie;
            let cs = chars_of(self.counter.entries[i].0.as_str());
            let rev = rev_chars(&cs);
            proof {
                assert(rev@ == keys[i as int].0@.reverse());
            }
            self.trie.insert_path(&rev, 0);
            proof {
                assert(rev@.skip(0) =~= rev@);
                assert forall|p: Seq<char>|
                    #[trigger] self.trie.has_path(p) <==> old(self).trie.has_path(p)
                        || covered_by(p, keys, i + 1) by {
                    if self.trie.has_path(p) {
                        if before.has_path(p) {
                            if !old(self).trie.has_path(p) {
                                assert(covered_by(p, keys, i as int));
                                let k = choose|k: int|
                                    0 <= k < i && is_prefix(
                                        p,
                                        (#[trigger] keys[k]).0@.reverse(),
                                    );
                                assert(covered_by(p, keys, i + 1));
                            }
                        } else {
                            assert(is_prefix(p, rev@));
                            assert(is_prefix(p, keys[i as int].0@.reverse()));
                            assert(covered_by(p, keys, i + 1));
                        }
                    } else {
                        assert(!before.has_path(p));
                        assert(!old(self).trie.has_path(p));
                        assert(!is_prefix(p, rev@));
                        if covered_by(p, keys, i + 1) {
                            let k = choose|k: int|
                                0 <= k < i + 1 && is_prefix(
                                    p,
                                    (#[trigger] keys[k]).0@.reverse(),
                                );
                            if k < i {
                                assert(covered_by(p, keys, i as int));
                                assert(before.has_path(p));
                            } else {
                                assert(is_prefix(p, rev@));
                            }
                            assert(false);
                        }
                    }
                }
            }
        }
    }
}

} // verus!
