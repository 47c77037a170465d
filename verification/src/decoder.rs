//! The Viterbi decoder: a lattice over positions of the pinyin sequence,
//! each state mapping a context pair to a score and to the decoded text so
//! far. Contributions are gathered over every word length, entries are
//! rescaled each step, and the best final entry names the answer.
use crate::dict::{Dict, spec_build_words};
use crate::engine::Engine;
use vstd::prelude::*;

verus! {

/// One lattice entry of the Viterbi search: the context pair
/// `(prev, word)`, its score, and the decoded text that ends in `word`.
pub struct StateEntry {
    pub prev: String,
    pub word: String,
    pub score: u128,
    pub path: String,
}

/// A lattice entry over plain values.
pub ghost struct SEntry {
    pub prev: Seq<char>,
    pub word: Seq<char>,
    pub score: int,
    pub path: Seq<char>,
}

pub open spec fn entry_model(e: StateEntry) -> SEntry {
    SEntry { prev: e.prev@, word: e.word@, score: e.score as int, path: e.path@ }
}

pub open spec fn state_model(s: Seq<StateEntry>) -> Seq<SEntry> {
    s.map(|i: int, e: StateEntry| entry_model(e))
}

pub open spec fn states_models(ss: Seq<Vec<StateEntry>>) -> Seq<Seq<SEntry>> {
    ss.map(|i: int, v: Vec<StateEntry>| state_model(v@))
}

/// Scores saturate at the top of `u128` instead of overflowing; the
/// per-step rescaling keeps them far below it in practice.
pub open spec fn sat_cap(x: int) -> int {
    if x > u128::MAX as int {
        u128::MAX as int
    } else {
        x
    }
}

/// `a * b`, saturating at `u128::MAX`.
fn sat_mul(a: u128, b: u128) -> (r: u128)
    ensures
        r as int == sat_cap(a as int * b as int),
{
    if b == 0 {
        0
    } else if a > u128::MAX / b {
        proof {
            assert(a as int * b as int > u128::MAX as int) by (nonlinear_arith)
                requires
                    b as int > 0,
                    a as int > u128::MAX as int / b as int,
            ;
        }
        u128::MAX
    } else {
        proof {
            assert(a as int * b as int <= u128::MAX as int) by (nonlinear_arith)
                requires
                    b as int > 0,
                    a as int <= u128::MAX as int / b as int,
            ;
        }
        a * b
    }
}

/// The fold that picks a predecessor for candidate word `w`: walk the
/// source state front to back, score each entry by its stored score times
/// the transfer score of `w` after its context, and keep the last entry
/// that reaches the running maximum. `(-1, 0)` on an empty state.
pub open spec fn spec_best(eng: Engine, st: Seq<SEntry>, w: Seq<char>) -> (int, int)
    decreases st.len(),
{
    if st.len() == 0 {
        (-1 as int, 0 as int)
    } else {
        let r = spec_best(eng, st.drop_last(), w);
        let e = st.last();
        let cv = sat_cap(e.score * eng.spec_score(e.prev, e.word, w));
        if cv < r.1 {
            r
        } else {
            (st.len() - 1, cv)
        }
    }
}

/// The entries contributed by one candidate word list, in word order:
/// each word is tied to its best predecessor and extends that entry's path.
pub open spec fn spec_word_entries(eng: Engine, src: Seq<SEntry>, words: Seq<Seq<char>>) -> Seq<
    SEntry,
>
    decreases words.len(),
{
    if words.len() == 0 {
        Seq::empty()
    } else {
        let rest = spec_word_entries(eng, src, words.drop_last());
        let w = words.last();
        let b = spec_best(eng, src, w);
        let e = src[b.0];
        rest.push(SEntry { prev: e.word, word: w, score: b.1, path: e.path + w })
    }
}

/// The new entries for position `index + 1`, word lengths `0..=wl` in
/// order: length `l` draws its words from the window `segs[index-l ..= index]`
/// and its predecessors from the state after `index - l` syllables. An
/// empty source state contributes nothing.
pub open spec fn spec_collect(
    eng: Engine,
    d: Dict,
    segs: Seq<Seq<char>>,
    sts: Seq<Seq<SEntry>>,
    index: int,
    wl: int,
) -> Seq<SEntry>
    decreases wl + 1,
{
    if wl < 0 {
        Seq::empty()
    } else {
        let prevpart = spec_collect(eng, d, segs, sts, index, wl - 1);
        let src = sts[index - wl];
        if src.len() == 0 {
            prevpart
        } else {
            prevpart + spec_word_entries(
                eng,
                src,
                spec_build_words(d, segs, eng.trie, index - wl, index + 1),
            )
        }
    }
}

/// The largest score in a state; `0` for an empty one.
pub open spec fn spec_max_score(st: Seq<SEntry>) -> int
    decreases st.len(),
{
    if st.len() == 0 {
        0
    } else {
        let m = spec_max_score(st.drop_last());
        if st.last().score > m {
            st.last().score
        } else {
            m
        }
    }
}

/// Rescaling granularity of the per-step normalization.
pub const NORM_SCALE: u128 = 0x100000000;

/// Divide every score by the same divisor, chosen so the largest lands
/// just under `NORM_SCALE`: a uniform rescale, so the running argmax is
/// kept while magnitudes stay bounded across long inputs.
pub open spec fn spec_normalize(st: Seq<SEntry>) -> Seq<SEntry> {
    if st.len() == 0 {
        st
    } else {
        let d = spec_max_score(st) / (NORM_SCALE as int) + 1;
        st.map(|i: int, e: SEntry| SEntry { score: e.score / d, ..e })
    }
}

/// The Viterbi lattice: states `0..=i`. State `0` holds the lone start
/// entry; state `k + 1` collects contributions over all word lengths and
/// is then rescaled.
pub open spec fn spec_states_upto(
    eng: Engine,
    d: Dict,
    segs: Seq<Seq<char>>,
    i: int,
) -> Seq<Seq<SEntry>>
    decreases i,
{
    if i <= 0 {
        seq![seq![init_entry()]]
    } else {
        let prev = spec_states_upto(eng, d, segs, i - 1);
        prev.push(spec_normalize(spec_collect(eng, d, segs, prev, i - 1, i - 1)))
    }
}

/// The start of every search: empty context, unit score, empty text.
pub open spec fn init_entry() -> SEntry {
    SEntry { prev: Seq::empty(), word: Seq::empty(), score: 1, path: Seq::empty() }
}

/// The final pick: walk the last state front to back and keep the last
/// entry reaching the running maximum score. `(-1, 0)` on an empty state.
pub open spec fn spec_final_best(st: Seq<SEntry>) -> (int, int)
    decreases st.len(),
{
    if st.len() == 0 {
        (-1 as int, 0 as int)
    } else {
        let r = spec_final_best(st.drop_last());
        let cv = st.last().score;
        if r.1 > cv {
            r
        } else {
            (st.len() - 1, cv)
        }
    }
}

/// What `Engine::query` returns: the decoded text of the best entry of
/// the final state, or the empty text when no path survived.
pub open spec fn spec_query(eng: Engine, d: Dict, segs: Seq<Seq<char>>) -> Seq<char> {
    let sts = spec_states_upto(eng, d, segs, segs.len() as int);
    let fin = sts.last();
    let b = spec_final_best(fin);
    if b.0 < 0 {
        Seq::empty()
    } else {
        fin[b.0].path
    }
}

impl Engine {
    /// The best predecessor in `src` for candidate word `w`, mirroring
    /// `spec_best`: the last entry reaching the running maximum wins.
    fn best_of(&self, src: &Vec<StateEntry>, w: &String) -> (r: (usize, u128))
        requires
            src@.len() > 0,
        ensures
            ({
                let b = spec_best(*self, state_model(src@), w@);
                &&& r.0 as int == b.0
                &&& r.1 as int == b.1
                &&& r.0 < src@.len()
            }),
    {
        let ghost sm = state_model(src@);
        let n = src.len();
        let mut bi: usize = 0;
        let mut bv: u128 = 0;
        let mut k: usize = 0;
        while k < n
            invariant
                n == src@.len(),
                sm == state_model(src@),
                k <= n,
                k == 0 ==> bv == 0,
                k > 0 ==> (bi as int, bv as int) == spec_best(*self, sm.take(k as int), w@)
                    && bi < k,
            decreases n - k,
        {
            let e = &src[k];
            let t = self.get_transfer_count(&e.prev, &e.word, w);
            let cv = sat_mul(e.score, t);
            proof {
                assert(sm.take(k + 1).drop_last() =~= sm.take(k as int));
                assert(sm.take(k + 1).last() == sm[k as int]);
                assert(sm[k as int] == entry_model(src@[k as int]));
                if k == 0 {
                    assert(spec_best(*self, sm.take(0), w@) == (-1 as int, 0 as int));
                }
            }
            if !(cv < bv) {
                bi = k;
                bv = cv;
            }
            k += 1;
        }
        proof {
            assert(sm.take(n as int) =~= sm);
        }
        (bi, bv)
    }

    /// Decode a pinyin sequence: the most likely character string under
    /// this model, or the empty string when no path through the lattice
    /// survives (an unknown syllable, or no candidate at some position).
    pub fn query(&self, segs: &Vec<String>, dict: &Dict) -> (r: String)
        ensures
            r@ == spec_query(*self, *dict, segs.deep_view()),
    {
        let ghost dv = segs.deep_view();
        proof {
            assert(dv.len() == segs@.len());
        }
        let n = segs.len();
        let mut states: Vec<Vec<StateEntry>> = Vec::new();
        let mut init: Vec<StateEntry> = Vec::new();
        init.push(
            StateEntry {
                prev: String::new(),
                word: String::new(),
                score: 1,
                path: String::new(),
            },
        );
        proof {
            assert(state_model(init@) =~= seq![init_entry()]);
        }
        states.push(init);
        proof {
            assert(states_models(states@) =~= seq![seq![init_entry()]]);
            assert(states_models(states@) == spec_states_upto(*self, *dict, dv, 0));
        }
        for index in 0..n
            invariant
                n == segs@.len(),
                dv == segs.deep_view(),
                dv.len() == n,
                states@.len() == index + 1,
                states_models(states@) == spec_states_upto(*self, *dict, dv, index as int),
        {
            let ghost stsm = states_models(states@);
            let mut new_state: Vec<StateEntry> = Vec::new();
            proof {
                assert(state_model(new_state@) =~= Seq::<SEntry>::empty());
                assert(spec_collect(*self, *dict, dv, stsm, index as int, -1)
                    == Seq::<SEntry>::empty());
            }
            for wordlen in 0..(index + 1)
                invariant
                    n == segs@.len(),
                    dv == segs.deep_view(),
                    dv.len() == n,
                    index < n,
                    states@.len() == index + 1,
                    stsm == states_models(states@),
                    state_model(new_state@) == spec_collect(
                        *self,
                        *dict,
                        dv,
                        stsm,
                        index as int,
                        wordlen as int - 1,
                    ),
            {
                let lo = index - wordlen;
                let src = &states[lo];
                let ghost srcm = state_model(src@);
                proof {
                    assert(stsm[lo as int] == state_model(states@[lo as int]@));
                }
                if src.len() > 0 {
                    let words = dict.build_words(segs, lo, index + 1, &self.trie);
                    let ghost wdv = words.deep_view();
                    proof {
                        assert(wdv == crate::dict::spec_build_words(
                            *dict,
                            dv,
                            self.trie,
                            lo as int,
                            index + 1,
                        ));
                        assert(wdv.take(0) =~= Seq::<Seq<char>>::empty());
                        assert(spec_word_entries(*self, srcm, wdv.take(0))
                            == Seq::<SEntry>::empty());
                    }
                    let ghost base = state_model(new_state@);
                    let wn = words.len();
                    for wi in 0..wn
                        invariant
                            wn == words@.len(),
                            wdv == words.deep_view(),
                            srcm == state_model(src@),
                            srcm.len() == src@.len(),
                            src@.len() > 0,
                            base + spec_word_entries(*self, srcm, wdv.take(wi as int))
                                == state_model(new_state@),
                    {
                        let w = &words[wi];
                        proof {
                            assert(words@[wi as int].deep_view() == wdv[wi as int]);
                            assert(w@ == wdv[wi as int]);
                        }
                        let b = self.best_of(src, w);
                        let bi = b.0;
                        let bv = b.1;
                        let mut np = src[bi].path.clone();
                        np.append(w.as_str());
                        let ghost oldm = state_model(new_state@);
                        new_state.push(
                            StateEntry {
                                prev: src[bi].word.clone(),
                                word: w.clone(),
                                score: bv,
                                path: np,
                            },
                        );
                        proof {
                            let sb = spec_best(*self, srcm, w@);
                            assert(sb.0 == bi as int && sb.1 == bv as int);
                            assert(srcm[bi as int] == entry_model(src@[bi as int]));
                            let pushed = entry_model(new_state@.last());
                            assert(pushed == SEntry {
                                prev: srcm[bi as int].word,
                                word: wdv[wi as int],
                                score: bv as int,
                                path: srcm[bi as int].path + wdv[wi as int],
                            });
                            assert(forall|j: int|
                                0 <= j < oldm.len() ==> entry_model(#[trigger] new_state@[j])
                                    == oldm[j]);
                            assert(state_model(new_state@) =~= oldm.push(pushed));
                            assert(wdv.take(wi + 1).drop_last() =~= wdv.take(wi as int));
                            assert(wdv.take(wi + 1).last() == wdv[wi as int]);
                            assert(base + spec_word_entries(*self, srcm, wdv.take(wi + 1))
                                =~= state_model(new_state@));
                        }
                    }
                    proof {
                        assert(wdv.take(wn as int) =~= wdv);
                        assert(state_model(new_state@) == spec_collect(
                            *self,
                            *dict,
                            dv,
                            stsm,
                            index as int,
                            wordlen as int,
                        ));
                    }
                } else {
                    proof {
                        assert(srcm.len() == 0);
                        assert(state_model(new_state@) == spec_collect(
                            *self,
                            *dict,
                            dv,
                            stsm,
                            index as int,
                            wordlen as int,
                        ));
                    }
                }
            }
            let ghost collected = state_model(new_state@);
            proof {
                assert(collected == spec_collect(
                    *self,
                    *dict,
                    dv,
                    stsm,
                    index as int,
                    index as int,
                ));
            }
            // Rescale so the largest score lands just under NORM_SCALE.
            if new_state.len() > 0 {
                let mut m: u128 = 0;
                let cn = new_state.len();
                let mut k: usize = 0;
                while k < cn
                    invariant
                        cn == new_state@.len(),
                        collected == state_model(new_state@),
                        k <= cn,
                        m as int == spec_max_score(collected.take(k as int)),
                    decreases cn - k,
                {
                    proof {
                        assert(collected.take(k + 1).drop_last() =~= collected.take(
                            k as int,
                        ));
                        assert(collected.take(k + 1).last() == collected[k as int]);
                        assert(collected[k as int] == entry_model(new_state@[k as int]));
                    }
                    if new_state[k].score > m {
                        m = new_state[k].score;
                    }
                    k += 1;
                }
                proof {
                    assert(collected.take(cn as int) =~= collected);
                    assert(m as int == spec_max_score(collected));
                    assert(m / NORM_SCALE < u128::MAX) by (nonlinear_arith)
                        requires
                            m <= u128::MAX,
                    ;
                }
                let d = m / NORM_SCALE + 1;
                let mut normed: Vec<StateEntry> = Vec::new();
                let mut k2: usize = 0;
                while k2 < cn
                    invariant
                        cn == new_state@.len(),
                        collected == state_model(new_state@),
                        collected.len() > 0,
                        k2 <= cn,
                        d as int == spec_max_score(collected) / (NORM_SCALE as int) + 1,
                        d >= 1,
                        state_model(normed@) == spec_normalize(collected).take(k2 as int),
                    decreases cn - k2,
                {
                    let e = &new_state[k2];
                    let ghost oldm = state_model(normed@);
                    normed.push(
                        StateEntry {
                            prev: e.prev.clone(),
                            word: e.word.clone(),
                            score: e.score / d,
                            path: e.path.clone(),
                        },
                    );
                    proof {
                        assert(collected[k2 as int] == entry_model(new_state@[k2 as int]));
                        let pushed = entry_model(normed@.last());
                        assert(pushed == SEntry {
                            score: collected[k2 as int].score / (d as int),
                            ..collected[k2 as int]
                        });
                        assert(spec_normalize(collected)[k2 as int] == pushed);
                        assert(forall|j: int|
                            0 <= j < oldm.len() ==> entry_model(#[trigger] normed@[j])
                                == oldm[j]);
                        assert(state_model(normed@) =~= oldm.push(pushed));
                        assert(state_model(normed@) =~= spec_normalize(collected).take(
                            k2 + 1,
                        ));
                    }
                    k2 += 1;
                }
                proof {
                    assert(spec_normalize(collected).take(cn as int) =~= spec_normalize(
                        collected,
                    ));
                }
                new_state = normed;
            } else {
                proof {
                    assert(spec_normalize(collected) == collected);
                }
            }
            let ghost nm = state_model(new_state@);
            proof {
                assert(nm == spec_normalize(collected));
            }
            states.push(new_state);
            proof {
                assert(forall|j: int|
                    0 <= j < stsm.len() ==> state_model((#[trigger] states@[j])@)
                        == stsm[j]);
                assert(states_models(states@) =~= stsm.push(nm));
                assert(spec_states_upto(*self, *dict, dv, index + 1) == stsm.push(
                    spec_normalize(
                        spec_collect(*self, *dict, dv, stsm, index as int, index as int),
                    ),
                ));
            }
        }
        // The final pick over the last state.
        let fin = &states[n];
        let ghost fm = state_model(fin@);
        proof {
            assert(states_models(states@)[n as int] == state_model(states@[n as int]@));
            assert(fm == spec_states_upto(*self, *dict, dv, n as int).last());
        }
        if fin.len() == 0 {
            proof {
                assert(spec_final_best(fm) == (-1 as int, 0 as int));
            }
            return String::new();
        }
        let fn_ = fin.len();
        let mut bi: usize = 0;
        let mut bv: u128 = 0;
        let mut k: usize = 0;
        while k < fn_
            invariant
                fn_ == fin@.len(),
                fm == state_model(fin@),
                k <= fn_,
                k == 0 ==> bv == 0,
                k > 0 ==> (bi as int, bv as int) == spec_final_best(fm.take(k as int))
                    && bi < k,
            decreases fn_ - k,
        {
            proof {
                assert(fm.take(k + 1).drop_last() =~= fm.take(k as int));
                assert(fm.take(k + 1).last() == fm[k as int]);
                assert(fm[k as int] == entry_model(fin@[k as int]));
                if k == 0 {
                    assert(spec_final_best(fm.take(0)) == (-1 as int, 0 as int));
                }
            }
            let cv = fin[k].score;
            if !(bv > cv) {
                bi = k;
                bv = cv;
            }
            k += 1;
        }
        proof {
            assert(fm.take(fn_ as int) =~= fm);
        }
        fin[bi].path.clone()
    }
}

} // verus!
