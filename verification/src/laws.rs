//! Properties of the library stated on their own, each proved from the
//! public contracts and definitions: positivity and monotonicity of the
//! transfer score, idempotence of trie derivation, determinism of the
//! decoder, and what the training rollup guarantees about its tables.
use crate::dict::{
    Dict, cand_list, model_has, spec_build_words, spec_expand, spec_extend_all, spec_extend_one,
    spec_seed, spec_singles,
};
use crate::engine::{DOUBLE_RATIO, Engine, LAPLACE_RATIO, TRIPLE_RATIO};
use crate::decoder::{
    SEntry, init_entry, spec_best, spec_collect, spec_final_best, spec_max_score, spec_normalize,
    spec_query, spec_states_upto, spec_word_entries,
};
use crate::store::{TModel, tri_total, uni_total};
use crate::trie::Trie;
use vstd::prelude::*;

verus! {

/// Every word of the seed is one character long.
proof fn lemma_seed_words_len(cs: Seq<char>, t: Trie)
    ensures
        forall|j: int|
            0 <= j < spec_seed(cs, t).len() ==> (#[trigger] spec_seed(cs, t)[j]).len() == 1,
    decreases cs.len(),
{
    if cs.len() > 0 {
        lemma_seed_words_len(cs.drop_last(), t);
        let whole = spec_seed(cs, t);
        let rest = spec_seed(cs.drop_last(), t);
        assert forall|j: int| 0 <= j < whole.len() implies (#[trigger] whole[j]).len()
            == 1 by {
            if t.has_path(seq![cs.last()]) {
                assert(whole == rest.push(seq![cs.last()]));
                if j < rest.len() {
                    assert(whole[j] == rest[j]);
                } else {
                    assert(whole[j] == seq![cs.last()]);
                }
            } else {
                assert(whole[j] == rest[j]);
            }
        }
    }
}

/// Extending partials of length `l` leftward gives words of length `l + 1`.
proof fn lemma_extend_one_words_len(s: Seq<char>, cs: Seq<char>, t: Trie, l: int)
    requires
        s.len() == l,
    ensures
        forall|j: int|
            0 <= j < spec_extend_one(s, cs, t).len() ==> (#[trigger] spec_extend_one(
                s,
                cs,
                t,
            )[j]).len() == l + 1,
    decreases cs.len(),
{
    if cs.len() > 0 {
        lemma_extend_one_words_len(s, cs.drop_last(), t, l);
        let whole = spec_extend_one(s, cs, t);
        let rest = spec_extend_one(s, cs.drop_last(), t);
        let w = seq![cs.last()] + s;
        assert(w.len() == l + 1);
        assert forall|j: int| 0 <= j < whole.len() implies (#[trigger] whole[j]).len() == l
            + 1 by {
            if t.has_path(w.reverse()) {
                assert(whole == rest.push(w));
                if j < rest.len() {
                    assert(whole[j] == rest[j]);
                } else {
                    assert(whole[j] == w);
                }
            } else {
                assert(whole[j] == rest[j]);
            }
        }
    }
}

proof fn lemma_extend_all_words_len(partials: Seq<Seq<char>>, cs: Seq<char>, t: Trie, l: int)
    requires
        forall|j: int| 0 <= j < partials.len() ==> (#[trigger] partials[j]).len() == l,
    ensures
        forall|j: int|
            0 <= j < spec_extend_all(partials, cs, t).len() ==> (
            #[trigger] spec_extend_all(partials, cs, t)[j]).len() == l + 1,
    decreases partials.len(),
{
    if partials.len() > 0 {
        assert(forall|j: int|
            0 <= j < partials.drop_last().len() ==> (#[trigger] partials.drop_last()[j]).len()
                == l);
        lemma_extend_all_words_len(partials.drop_last(), cs, t, l);
        lemma_extend_one_words_len(partials.last(), cs, t, l);
        let whole = spec_extend_all(partials, cs, t);
        let left = spec_extend_all(partials.drop_last(), cs, t);
        let right = spec_extend_one(partials.last(), cs, t);
        assert forall|j: int| 0 <= j < whole.len() implies (#[trigger] whole[j]).len() == l
            + 1 by {
            if j < left.len() {
                assert(whole[j] == left[j]);
            } else {
                assert(whole[j] == right[j - left.len()]);
            }
        }
    }
}

/// Every candidate word of a window spans exactly the window.
proof fn lemma_expand_words_len(d: Dict, segs: Seq<Seq<char>>, t: Trie, lo: int, hi: int)
    requires
        lo < hi,
    ensures
        forall|j: int|
            0 <= j < spec_expand(d, segs, t, lo, hi).len() ==> (#[trigger] spec_expand(
                d,
                segs,
                t,
                lo,
                hi,
            )[j]).len() == hi - lo,
    decreases hi - lo,
{
    if hi - lo <= 1 {
        lemma_seed_words_len(cand_list(d, segs[hi - 1]), t);
    } else {
        lemma_expand_words_len(d, segs, t, lo + 1, hi);
        lemma_extend_all_words_len(
            spec_expand(d, segs, t, lo + 1, hi),
            cand_list(d, segs[lo]),
            t,
            hi - lo - 1,
        );
    }
}

/// Every candidate word of `spec_build_words` spans exactly the window.
pub proof fn lemma_build_words_len(d: Dict, segs: Seq<Seq<char>>, t: Trie, lo: int, hi: int)
    requires
        lo < hi,
    ensures
        forall|j: int|
            0 <= j < spec_build_words(d, segs, t, lo, hi).len() ==> (
            #[trigger] spec_build_words(d, segs, t, lo, hi)[j]).len() == hi - lo,
{
    if hi - lo == 1 {
        assert(forall|j: int|
            0 <= j < spec_singles(cand_list(d, segs[lo])).len() ==> (
            #[trigger] spec_singles(cand_list(d, segs[lo]))[j]).len() == 1);
    } else {
        lemma_expand_words_len(d, segs, t, lo, hi);
    }
}

/// What holds of every entry of a lattice state after `pos` syllables:
/// a nonnegative score and a decoded text of exactly `pos` characters.
pub open spec fn entries_ok(st: Seq<SEntry>, pos: int) -> bool {
    forall|k: int|
        0 <= k < st.len() ==> (#[trigger] st[k]).score >= 0 && st[k].path.len() == pos
}

/// On a non-empty state of nonnegative scores the predecessor fold picks
/// a real entry, with a nonnegative value.
proof fn lemma_best_in_range(e: Engine, st: Seq<SEntry>, w: Seq<char>)
    requires
        st.len() > 0,
        forall|k: int| 0 <= k < st.len() ==> (#[trigger] st[k]).score >= 0,
    ensures
        0 <= spec_best(e, st, w).0 < st.len(),
        spec_best(e, st, w).1 >= 0,
    decreases st.len(),
{
    let last = st.last();
    lemma_score_positive(e, last.prev, last.word, w);
    assert(last.score * e.spec_score(last.prev, last.word, w) >= 0) by (nonlinear_arith)
        requires
            last.score >= 0,
            e.spec_score(last.prev, last.word, w) >= 0,
    ;
    if st.len() > 1 {
        assert(forall|k: int|
            0 <= k < st.drop_last().len() ==> (#[trigger] st.drop_last()[k]).score >= 0);
        lemma_best_in_range(e, st.drop_last(), w);
    } else {
        assert(st.drop_last().len() == 0);
        assert(spec_best(e, st.drop_last(), w) == (-1 as int, 0 as int));
    }
}

/// Contributions of one word list: one entry per word, each with the
/// right text length and a nonnegative score.
proof fn lemma_word_entries_ok(e: Engine, src: Seq<SEntry>, words: Seq<Seq<char>>, p: int, l: int)
    requires
        src.len() > 0,
        entries_ok(src, p),
        forall|j: int| 0 <= j < words.len() ==> (#[trigger] words[j]).len() == l,
    ensures
        spec_word_entries(e, src, words).len() == words.len(),
        entries_ok(spec_word_entries(e, src, words), p + l),
    decreases words.len(),
{
    if words.len() > 0 {
        assert(forall|j: int|
            0 <= j < words.drop_last().len() ==> (#[trigger] words.drop_last()[j]).len()
                == l);
        lemma_word_entries_ok(e, src, words.drop_last(), p, l);
        lemma_best_in_range(e, src, words.last());
        let whole = spec_word_entries(e, src, words);
        let rest = spec_word_entries(e, src, words.drop_last());
        let b = spec_best(e, src, words.last());
        assert(src[b.0].path.len() == p);
        assert forall|k: int|
            0 <= k < whole.len() implies (#[trigger] whole[k]).score >= 0
                && whole[k].path.len() == p + l by {
            if k < rest.len() {
                assert(whole[k] == rest[k]);
            } else {
                assert(whole[k] == whole.last());
            }
        }
    }
}

/// Every gathered contribution for position `index + 1` has the right
/// text length and a nonnegative score.
proof fn lemma_collect_ok(
    e: Engine,
    d: Dict,
    segs: Seq<Seq<char>>,
    sts: Seq<Seq<SEntry>>,
    index: int,
    wl: int,
)
    requires
        0 <= index < segs.len(),
        wl <= index,
        sts.len() == index + 1,
        forall|k: int| 0 <= k <= index ==> entries_ok(#[trigger] sts[k], k),
    ensures
        entries_ok(spec_collect(e, d, segs, sts, index, wl), index + 1),
    decreases wl + 1,
{
    if wl >= 0 {
        lemma_collect_ok(e, d, segs, sts, index, wl - 1);
        let prevpart = spec_collect(e, d, segs, sts, index, wl - 1);
        let src = sts[index - wl];
        if src.len() > 0 {
            let words = spec_build_words(d, segs, e.trie, index - wl, index + 1);
            lemma_build_words_len(d, segs, e.trie, index - wl, index + 1);
            assert(entries_ok(src, index - wl));
            lemma_word_entries_ok(e, src, words, index - wl, wl + 1);
            let added = spec_word_entries(e, src, words);
            let whole = prevpart + added;
            assert forall|k: int|
                0 <= k < whole.len() implies (#[trigger] whole[k]).score >= 0
                    && whole[k].path.len() == index + 1 by {
                if k < prevpart.len() {
                    assert(whole[k] == prevpart[k]);
                } else {
                    assert(whole[k] == added[k - prevpart.len()]);
                }
            }
        }
    }
}

proof fn lemma_max_score_nonneg(st: Seq<SEntry>)
    ensures
        spec_max_score(st) >= 0,
    decreases st.len(),
{
    if st.len() > 0 {
        lemma_max_score_nonneg(st.drop_last());
    }
}

/// Rescaling keeps the state's shape: same length, same texts, scores
/// still nonnegative.
proof fn lemma_normalize_ok(st: Seq<SEntry>, pos: int)
    requires
        entries_ok(st, pos),
    ensures
        spec_normalize(st).len() == st.len(),
        entries_ok(spec_normalize(st), pos),
        forall|k: int|
            0 <= k < st.len() ==> (#[trigger] spec_normalize(st)[k]).path == st[k].path,
{
    if st.len() > 0 {
        lemma_max_score_nonneg(st);
        let dd = spec_max_score(st) / (crate::decoder::NORM_SCALE as int) + 1;
        assert(dd >= 1);
        assert forall|k: int|
            0 <= k < st.len() implies (#[trigger] spec_normalize(st)[k]).score >= 0
                && spec_normalize(st)[k].path == st[k].path by {
            assert(st[k].score >= 0);
            assert(st[k].score / dd >= 0) by (nonlinear_arith)
                requires
                    st[k].score >= 0,
                    dd >= 1,
            ;
        }
    }
}

/// The lattice invariant: after the syllables consumed so far, every
/// state holds entries of exactly that text length with nonnegative
/// scores.
pub proof fn lemma_states_ok(e: Engine, d: Dict, segs: Seq<Seq<char>>, i: int)
    requires
        0 <= i <= segs.len(),
    ensures
        spec_states_upto(e, d, segs, i).len() == i + 1,
        forall|k: int|
            0 <= k <= i ==> entries_ok(#[trigger] spec_states_upto(e, d, segs, i)[k], k),
    decreases i,
{
    let sts = spec_states_upto(e, d, segs, i);
    if i <= 0 {
        assert(sts == seq![seq![init_entry()]]);
        assert(sts[0] == seq![init_entry()]);
        assert(entries_ok(sts[0], 0)) by {
            assert(sts[0][0] == init_entry());
        }
    } else {
        lemma_states_ok(e, d, segs, i - 1);
        let prev = spec_states_upto(e, d, segs, i - 1);
        lemma_collect_ok(e, d, segs, prev, i - 1, i - 1);
        let coll = spec_collect(e, d, segs, prev, i - 1, i - 1);
        lemma_normalize_ok(coll, i);
        assert(sts == prev.push(spec_normalize(coll)));
        assert forall|k: int| 0 <= k <= i implies entries_ok(#[trigger] sts[k], k) by {
            if k < i {
                assert(sts[k] == prev[k]);
            } else {
                assert(sts[k] == spec_normalize(coll));
            }
        }
    }
}

/// On a non-empty final state of nonnegative scores the last fold picks
/// a real entry.
proof fn lemma_final_best_in_range(st: Seq<SEntry>)
    requires
        st.len() > 0,
        forall|k: int| 0 <= k < st.len() ==> (#[trigger] st[k]).score >= 0,
    ensures
        0 <= spec_final_best(st).0 < st.len(),
        spec_final_best(st).1 >= 0,
    decreases st.len(),
{
    if st.len() > 1 {
        assert(forall|k: int|
            0 <= k < st.drop_last().len() ==> (#[trigger] st.drop_last()[k]).score >= 0);
        lemma_final_best_in_range(st.drop_last());
    } else {
        assert(st.drop_last().len() == 0);
        assert(spec_final_best(st.drop_last()) == (-1 as int, 0 as int));
    }
}

/// With every syllable answered by at least one candidate, every state
/// stays inhabited: the one-syllable words alone carry a path through.
proof fn lemma_collect_nonempty(
    e: Engine,
    d: Dict,
    segs: Seq<Seq<char>>,
    sts: Seq<Seq<SEntry>>,
    index: int,
    wl: int,
)
    requires
        0 <= index < segs.len(),
        0 <= wl <= index,
        sts.len() == index + 1,
        forall|k: int| 0 <= k <= index ==> entries_ok(#[trigger] sts[k], k),
        sts[index].len() > 0,
        cand_list(d, segs[index]).len() > 0,
    ensures
        spec_collect(e, d, segs, sts, index, wl).len() > 0,
    decreases wl,
{
    if wl == 0 {
        let src = sts[index];
        let words = spec_build_words(d, segs, e.trie, index, index + 1);
        assert(words == spec_singles(cand_list(d, segs[index])));
        assert(words.len() > 0);
        lemma_build_words_len(d, segs, e.trie, index, index + 1);
        lemma_word_entries_ok(e, src, words, index, 1);
    } else {
        lemma_collect_nonempty(e, d, segs, sts, index, wl - 1);
    }
}

/// Every state of the lattice is inhabited when every syllable has a
/// candidate.
proof fn lemma_states_nonempty(e: Engine, d: Dict, segs: Seq<Seq<char>>, i: int)
    requires
        0 <= i <= segs.len(),
        forall|j: int| 0 <= j < segs.len() ==> cand_list(d, #[trigger] segs[j]).len() > 0,
    ensures
        spec_states_upto(e, d, segs, i).len() == i + 1,
        forall|k: int|
            0 <= k <= i ==> (#[trigger] spec_states_upto(e, d, segs, i)[k]).len() > 0,
    decreases i,
{
    let sts = spec_states_upto(e, d, segs, i);
    lemma_states_ok(e, d, segs, i);
    if i <= 0 {
        assert(sts == seq![seq![init_entry()]]);
        assert(sts[0] == seq![init_entry()]);
    } else {
        lemma_states_nonempty(e, d, segs, i - 1);
        let prev = spec_states_upto(e, d, segs, i - 1);
        lemma_states_ok(e, d, segs, i - 1);
        lemma_collect_nonempty(e, d, segs, prev, i - 1, i - 1);
        let coll = spec_collect(e, d, segs, prev, i - 1, i - 1);
        lemma_collect_ok(e, d, segs, prev, i - 1, i - 1);
        lemma_normalize_ok(coll, i);
        assert(sts == prev.push(spec_normalize(coll)));
        assert forall|k: int| 0 <= k <= i implies (#[trigger] sts[k]).len() > 0 by {
            if k < i {
                assert(sts[k] == prev[k]);
            } else {
                assert(sts[k] == spec_normalize(coll));
            }
        }
    }
}

/// When every syllable of a non-empty sequence has at least one candidate
/// character, the decoded string spans the whole input: one character per
/// syllable.
pub proof fn lemma_full_candidates_full_length(e: Engine, d: Dict, segs: Seq<Seq<char>>)
    requires
        forall|j: int| 0 <= j < segs.len() ==> cand_list(d, #[trigger] segs[j]).len() > 0,
    ensures
        spec_query(e, d, segs).len() == segs.len(),
{
    let n = segs.len() as int;
    lemma_states_ok(e, d, segs, n);
    lemma_states_nonempty(e, d, segs, n);
    let sts = spec_states_upto(e, d, segs, n);
    let fin = sts.last();
    assert(fin == sts[n]);
    assert(fin.len() > 0);
    assert(entries_ok(fin, n));
    lemma_final_best_in_range(fin);
}

/// No candidates to extend by: the expansion dies at this level.
proof fn lemma_extend_all_empty_cs(partials: Seq<Seq<char>>, t: Trie)
    ensures
        spec_extend_all(partials, Seq::<char>::empty(), t).len() == 0,
    decreases partials.len(),
{
    if partials.len() > 0 {
        lemma_extend_all_empty_cs(partials.drop_last(), t);
        assert(spec_extend_one(partials.last(), Seq::<char>::empty(), t).len() == 0);
    }
}

/// A window covering a syllable without candidates yields no words.
proof fn lemma_expand_empty(d: Dict, segs: Seq<Seq<char>>, t: Trie, lo: int, hi: int, i0: int)
    requires
        lo <= i0 < hi,
        cand_list(d, segs[i0]).len() == 0,
    ensures
        spec_expand(d, segs, t, lo, hi).len() == 0,
    decreases hi - lo,
{
    if hi - lo <= 1 {
        assert(i0 == hi - 1);
        assert(cand_list(d, segs[hi - 1]) =~= Seq::<char>::empty());
    } else if lo == i0 {
        assert(cand_list(d, segs[lo]) =~= Seq::<char>::empty());
        lemma_extend_all_empty_cs(spec_expand(d, segs, t, lo + 1, hi), t);
    } else {
        lemma_expand_empty(d, segs, t, lo + 1, hi, i0);
        assert(spec_expand(d, segs, t, lo + 1, hi).len() == 0);
    }
}

proof fn lemma_build_words_empty(d: Dict, segs: Seq<Seq<char>>, t: Trie, lo: int, hi: int, i0: int)
    requires
        lo <= i0 < hi,
        cand_list(d, segs[i0]).len() == 0,
    ensures
        spec_build_words(d, segs, t, lo, hi).len() == 0,
{
    if hi - lo == 1 {
        assert(spec_singles(cand_list(d, segs[lo])).len() == 0);
    } else {
        lemma_expand_empty(d, segs, t, lo, hi, i0);
    }
}

/// Nothing reaches position `index + 1` once some syllable at or before
/// it has no candidates and every state after that syllable is empty.
proof fn lemma_collect_empty(
    e: Engine,
    d: Dict,
    segs: Seq<Seq<char>>,
    sts: Seq<Seq<SEntry>>,
    index: int,
    wl: int,
    i0: int,
)
    requires
        0 <= i0 <= index < segs.len(),
        wl <= index,
        sts.len() == index + 1,
        forall|k: int| i0 < k <= index ==> (#[trigger] sts[k]).len() == 0,
        cand_list(d, segs[i0]).len() == 0,
    ensures
        spec_collect(e, d, segs, sts, index, wl).len() == 0,
    decreases wl + 1,
{
    if wl >= 0 {
        lemma_collect_empty(e, d, segs, sts, index, wl - 1, i0);
        let src = sts[index - wl];
        if src.len() > 0 {
            assert(!(i0 < index - wl));
            assert(index - wl <= i0 < index + 1);
            lemma_build_words_empty(d, segs, e.trie, index - wl, index + 1, i0);
            assert(spec_word_entries(
                e,
                src,
                spec_build_words(d, segs, e.trie, index - wl, index + 1),
            ).len() == 0);
        }
    }
}

/// Past a syllable without candidates, every state of the lattice is
/// empty: no segmentation can cross it.
proof fn lemma_states_empty_after(e: Engine, d: Dict, segs: Seq<Seq<char>>, i: int, i0: int)
    requires
        0 <= i0 < segs.len(),
        i0 < i <= segs.len(),
        cand_list(d, segs[i0]).len() == 0,
    ensures
        spec_states_upto(e, d, segs, i).len() == i + 1,
        forall|k: int|
            i0 < k <= i ==> (#[trigger] spec_states_upto(e, d, segs, i)[k]).len() == 0,
    decreases i,
{
    let sts = spec_states_upto(e, d, segs, i);
    lemma_states_ok(e, d, segs, i);
    let prev = spec_states_upto(e, d, segs, i - 1);
    lemma_states_ok(e, d, segs, i - 1);
    if i == i0 + 1 {
        lemma_collect_empty(e, d, segs, prev, i - 1, i - 1, i0);
    } else {
        lemma_states_empty_after(e, d, segs, i - 1, i0);
        lemma_collect_empty(e, d, segs, prev, i - 1, i - 1, i0);
    }
    let coll = spec_collect(e, d, segs, prev, i - 1, i - 1);
    assert(coll.len() == 0);
    assert(spec_normalize(coll).len() == 0);
    assert(sts == prev.push(spec_normalize(coll)));
    assert forall|k: int| i0 < k <= i implies (#[trigger] sts[k]).len() == 0 by {
        if k < i {
            assert(sts[k] == prev[k]);
        } else {
            assert(sts[k] == spec_normalize(coll));
        }
    }
}

/// A pinyin the dictionary does not know, anywhere in the input, decodes
/// the whole sequence to the empty string.
pub proof fn lemma_unknown_syllable_empty_output(e: Engine, d: Dict, segs: Seq<Seq<char>>, i0: int)
    requires
        0 <= i0 < segs.len(),
        !model_has(d.model(), segs[i0]),
    ensures
        spec_query(e, d, segs) == Seq::<char>::empty(),
{
    let n = segs.len() as int;
    assert(cand_list(d, segs[i0]).len() == 0);
    lemma_states_empty_after(e, d, segs, n, i0);
    let sts = spec_states_upto(e, d, segs, n);
    let fin = sts.last();
    assert(fin == sts[n]);
    assert(fin.len() == 0);
    assert(spec_final_best(fin) == (-1 as int, 0 as int));
}

/// One syllable with one candidate character decodes to that character,
/// whatever the model holds.
pub proof fn lemma_single_candidate(e: Engine, d: Dict, s: Seq<char>, c: char)
    requires
        cand_list(d, s) == seq![c],
    ensures
        spec_query(e, d, seq![s]) == seq![c],
{
    let segs = seq![s];
    assert(segs[0] == s);
    let sts0 = spec_states_upto(e, d, segs, 0);
    assert(sts0 == seq![seq![init_entry()]]);
    let src = sts0[0];
    assert(src == seq![init_entry()]);
    assert(src.len() == 1);
    // The one-syllable window offers exactly the one candidate word.
    let words = spec_build_words(d, segs, e.trie, 0, 1);
    assert(words =~= seq![seq![c]]) by {
        assert(words == spec_singles(cand_list(d, s)));
        assert(words.len() == 1);
        assert(words[0] == seq![cand_list(d, s)[0]]);
        assert(cand_list(d, s)[0] == c);
        assert(seq![c][0] == c);
        assert(words[0] =~= seq![c]);
    }
    // Its one predecessor is the start entry.
    let w = seq![c];
    let b = spec_best(e, src, w);
    let sc = e.spec_score(init_entry().prev, init_entry().word, w);
    lemma_score_positive(e, init_entry().prev, init_entry().word, w);
    lemma_score_bounded(e, init_entry().prev, init_entry().word, w);
    assert(b == (0 as int, sc)) by {
        assert(src.drop_last().len() == 0);
        assert(spec_best(e, src.drop_last(), w) == (-1 as int, 0 as int));
        assert(src.last() == init_entry());
        assert(init_entry().score * sc == sc);
        assert(crate::decoder::sat_cap(sc) == sc);
    }
    let coll = spec_collect(e, d, segs, sts0, 0, 0);
    let entry = SEntry { prev: Seq::empty(), word: w, score: sc, path: w };
    assert(coll =~= seq![entry]) by {
        assert(spec_collect(e, d, segs, sts0, 0, -1) == Seq::<SEntry>::empty());
        let we = spec_word_entries(e, src, words);
        assert(words.drop_last().len() == 0);
        assert(spec_word_entries(e, src, words.drop_last()) == Seq::<SEntry>::empty());
        assert(words.last() == w);
        assert(src[0] == init_entry());
        assert(init_entry().path + w =~= w);
        assert(we =~= seq![entry]);
        assert(coll == Seq::<SEntry>::empty() + we);
        assert(Seq::<SEntry>::empty() + we =~= we);
    }
    // Rescaling keeps the text; the final fold picks the only entry.
    let nst = spec_normalize(coll);
    assert(entries_ok(coll, 1)) by {
        assert(coll[0] == entry);
    }
    lemma_normalize_ok(coll, 1);
    assert(nst.len() == 1);
    assert(nst[0].path == w);
    assert(nst[0].score >= 0);
    let sts1 = spec_states_upto(e, d, segs, 1);
    assert(sts1 == sts0.push(nst));
    assert(sts1.last() == nst);
    assert(spec_final_best(nst) == (0 as int, nst[0].score)) by {
        assert(nst.drop_last().len() == 0);
        assert(spec_final_best(nst.drop_last()) == (-1 as int, 0 as int));
        assert(nst.last() == nst[0]);
    }
    assert(spec_query(e, d, segs) == nst[0].path);
}

/// The transfer score is strictly positive on every input: Laplace
/// smoothing gives each of the three terms at least one count's worth.
pub proof fn lemma_score_positive(e: Engine, a: Seq<char>, b: Seq<char>, w: Seq<char>)
    ensures
        e.spec_score(a, b, w) >= 1 + DOUBLE_RATIO + TRIPLE_RATIO,
        e.spec_score(a, b, w) >= 1,
{
    assert(e.counter.spec_count(w) >= 0);
    assert(e.two_gram.spec_count(b, w) >= 0);
    assert(e.three_gram.spec_count(a, b, w) >= 0);
}

/// The transfer score never outgrows `u128`: the saturating product in
/// the decoder can only saturate on the running path score, not here.
pub proof fn lemma_score_bounded(e: Engine, a: Seq<char>, b: Seq<char>, w: Seq<char>)
    ensures
        e.spec_score(a, b, w) <= ((u64::MAX * LAPLACE_RATIO + 1) * (1 + DOUBLE_RATIO
            + TRIPLE_RATIO)) < u128::MAX,
{
    let cap = u64::MAX * LAPLACE_RATIO + 1;
    assert(e.counter.spec_count(w) * LAPLACE_RATIO + 1 <= cap);
    assert((e.two_gram.spec_count(b, w) * LAPLACE_RATIO + 1) * DOUBLE_RATIO <= cap
        * DOUBLE_RATIO) by (nonlinear_arith)
        requires
            e.two_gram.spec_count(b, w) * LAPLACE_RATIO + 1 <= cap,
            cap > 0,
    ;
    assert((e.three_gram.spec_count(a, b, w) * LAPLACE_RATIO + 1) * TRIPLE_RATIO <= cap
        * TRIPLE_RATIO) by (nonlinear_arith)
        requires
            e.three_gram.spec_count(a, b, w) * LAPLACE_RATIO + 1 <= cap,
            cap > 0,
    ;
    assert(cap + cap * DOUBLE_RATIO + cap * TRIPLE_RATIO == cap * (1 + DOUBLE_RATIO
        + TRIPLE_RATIO)) by (nonlinear_arith);
}

/// The transfer score is monotone: raising any of the three raw counts,
/// none falling, never lowers the score.
pub proof fn lemma_score_monotone(e1: Engine, e2: Engine, a: Seq<char>, b: Seq<char>, w: Seq<char>)
    requires
        e1.counter.spec_count(w) <= e2.counter.spec_count(w),
        e1.two_gram.spec_count(b, w) <= e2.two_gram.spec_count(b, w),
        e1.three_gram.spec_count(a, b, w) <= e2.three_gram.spec_count(a, b, w),
    ensures
        e1.spec_score(a, b, w) <= e2.spec_score(a, b, w),
{
    assert(e1.counter.spec_count(w) * LAPLACE_RATIO <= e2.counter.spec_count(w)
        * LAPLACE_RATIO);
    assert(e1.two_gram.spec_count(b, w) * LAPLACE_RATIO <= e2.two_gram.spec_count(b, w)
        * LAPLACE_RATIO);
    assert(e1.three_gram.spec_count(a, b, w) * LAPLACE_RATIO <= e2.three_gram.spec_count(
        a,
        b,
        w,
    ) * LAPLACE_RATIO);
}

/// In a context the training never saw — both its bigram and trigram
/// counts are zero — candidates are ordered by their unigram counts
/// alone: the smoothing constants cancel.
pub proof fn lemma_unseen_context_unigram_order(
    e: Engine,
    a: Seq<char>,
    b: Seq<char>,
    w1: Seq<char>,
    w2: Seq<char>,
)
    requires
        e.two_gram.spec_count(b, w1) == 0,
        e.two_gram.spec_count(b, w2) == 0,
        e.three_gram.spec_count(a, b, w1) == 0,
        e.three_gram.spec_count(a, b, w2) == 0,
    ensures
        (e.spec_score(a, b, w1) <= e.spec_score(a, b, w2)) <==> (e.counter.spec_count(w1)
            <= e.counter.spec_count(w2)),
{
}

/// Deriving the trie is idempotent: a second derivation from the same
/// counter, with nothing mutated in between, leaves the path set as the
/// first derivation built it.
pub proof fn lemma_init_trie_idempotent(e0: Engine, e1: Engine, e2: Engine)
    requires
        e1.counter == e0.counter,
        e1.trie_covers(e0.trie),
        e2.counter == e1.counter,
        e2.trie_covers(e1.trie),
    ensures
        forall|p: Seq<char>| #[trigger] e2.trie.has_path(p) <==> e1.trie.has_path(p),
{
}

/// The trie is a function of the counter's keys alone: a model rebuilt
/// from equal word keys — eagerly after training, or lazily after a load —
/// carries the same path set, when each derivation started from a trie
/// holding only the empty path.
pub proof fn lemma_trie_from_counter_keys(e1: Engine, e2: Engine, base1: Engine, base2: Engine)
    requires
        e1.counter.entries@.len() == e2.counter.entries@.len(),
        forall|i: int|
            0 <= i < e1.counter.entries@.len() ==> (#[trigger] e1.counter.entries@[i]).0@
                == (#[trigger] e2.counter.entries@[i]).0@,
        e1.counter == base1.counter,
        e2.counter == base2.counter,
        forall|p: Seq<char>| #[trigger] base1.trie.has_path(p) <==> p.len() == 0,
        forall|p: Seq<char>| #[trigger] base2.trie.has_path(p) <==> p.len() == 0,
        e1.trie_covers(base1.trie),
        e2.trie_covers(base2.trie),
    ensures
        forall|p: Seq<char>| #[trigger] e1.trie.has_path(p) <==> e2.trie.has_path(p),
{
    assert forall|p: Seq<char>| #[trigger] e1.trie.has_path(p) <==> e2.trie.has_path(
        p,
    ) by {
        if crate::engine::covered_by(p, e1.counter.entries@, e1.counter.entries@.len() as int) {
            let k = choose|k: int|
                0 <= k < e1.counter.entries@.len() && crate::trie::is_prefix(
                    p,
                    (#[trigger] e1.counter.entries@[k]).0@.reverse(),
                );
            assert(crate::trie::is_prefix(p, e2.counter.entries@[k].0@.reverse()));
            assert(crate::engine::covered_by(
                p,
                e2.counter.entries@,
                e2.counter.entries@.len() as int,
            ));
        }
        if crate::engine::covered_by(p, e2.counter.entries@, e2.counter.entries@.len() as int) {
            let k = choose|k: int|
                0 <= k < e2.counter.entries@.len() && crate::trie::is_prefix(
                    p,
                    (#[trigger] e2.counter.entries@[k]).0@.reverse(),
                );
            assert(crate::trie::is_prefix(p, e1.counter.entries@[k].0@.reverse()));
            assert(crate::engine::covered_by(
                p,
                e1.counter.entries@,
                e1.counter.entries@.len() as int,
            ));
        }
    }
}

/// The decoder is a pure function of the model, the dictionary and the
/// input: its contract pins the result to `spec_query` of their views, so
/// equal views decode to the same text.
pub proof fn lemma_query_deterministic(
    e1: Engine,
    d1: Dict,
    s1: Seq<Seq<char>>,
    e2: Engine,
    d2: Dict,
    s2: Seq<Seq<char>>,
)
    requires
        e1 == e2,
        d1 == d2,
        s1 == s2,
    ensures
        spec_query(e1, d1, s1) == spec_query(e2, d2, s2),
{
}

/// An empty pinyin sequence decodes to the empty string: the lattice
/// holds only the start entry, whose decoded text is empty.
pub proof fn lemma_empty_input_empty_output(e: Engine, d: Dict)
    ensures
        spec_query(e, d, Seq::<Seq<char>>::empty()) == Seq::<char>::empty(),
{
    let sts = crate::decoder::spec_states_upto(e, d, Seq::<Seq<char>>::empty(), 0);
    assert(sts == seq![seq![crate::decoder::init_entry()]]);
    let fin = sts.last();
    assert(fin == seq![crate::decoder::init_entry()]);
    assert(fin.drop_last() =~= Seq::<crate::decoder::SEntry>::empty());
    assert(crate::decoder::spec_final_best(fin.drop_last()) == (-1 as int, 0 as int));
    assert(fin.last() == crate::decoder::init_entry());
    assert(crate::decoder::spec_final_best(fin) == (0 as int, 1 as int));
}

/// Every trigram mass lands on its middle word's counter: a word with
/// trigram evidence is always a word the counter knows. (The counter
/// tallies the middle word of each kept trigram — the word used as the
/// immediate predictor context — not the predicted word.)
pub proof fn lemma_trigram_middle_counted(m: TModel, a: Seq<char>, b: Seq<char>, c: Seq<char>)
    ensures
        tri_total(m, a, b, c) <= uni_total(m, b),
        tri_total(m, a, b, c) > 0 ==> uni_total(m, b) > 0,
    decreases m.len(),
{
    if m.len() > 0 {
        lemma_trigram_middle_counted(m.drop_last(), a, b, c);
    }
}

/// A predicted word of the trigram table also stands in the counter
/// whenever it was itself reused as a predictor — the middle word of some
/// recorded trigram. Without that reuse the counter owes it nothing: the
/// rollup tallies middle words only, so the last word of a line, never
/// followed, stays out of the counter.
pub proof fn lemma_predicted_word_counted_when_reused(
    m: TModel,
    a: Seq<char>,
    b: Seq<char>,
    c: Seq<char>,
    x: Seq<char>,
    z: Seq<char>,
)
    requires
        tri_total(m, a, b, c) > 0,
        tri_total(m, x, c, z) > 0,
    ensures
        uni_total(m, c) > 0,
{
    lemma_trigram_middle_counted(m, x, c, z);
}

} // verus!
