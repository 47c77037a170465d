//! The pronunciation dictionary: each pinyin syllable maps to the characters
//! that may be read that way, in the order the dictionary file first named
//! them. That order is part of the contracts: candidate expansion walks it,
//! and the decoder's tie-breaking follows it.
use crate::tables::{has_key, key_index, keys_unique, lemma_key_index};
use crate::trie::Trie;
use crate::words::{chars_of, rev_chars, string_of};
use vstd::prelude::*;

verus! {

/// What a dictionary holds, written over plain character sequences:
/// pairs of a pinyin key and its candidate characters.
pub type DictModel = Seq<(Seq<char>, Seq<char>)>;

/// The first position in the model whose key is `k`; `m.len()` when none is.
pub open spec fn model_index(m: DictModel, k: Seq<char>) -> int
    decreases m.len(),
{
    if m.len() == 0 {
        0
    } else if m[0].0 == k {
        0
    } else {
        1 + model_index(m.drop_first(), k)
    }
}

pub open spec fn model_has(m: DictModel, k: Seq<char>) -> bool {
    model_index(m, k) < m.len()
}

/// The candidate characters under `k` (meaningful only when `model_has`).
pub open spec fn model_cands(m: DictModel, k: Seq<char>) -> Seq<char> {
    m[model_index(m, k)].1
}

pub proof fn lemma_model_index(m: DictModel, k: Seq<char>)
    ensures
        0 <= model_index(m, k) <= m.len(),
        model_has(m, k) ==> (m[model_index(m, k)]).0 == k,
        forall|i: int| 0 <= i < model_index(m, k) ==> (#[trigger] m[i]).0 != k,
    decreases m.len(),
{
    if m.len() > 0 && m[0].0 != k {
        lemma_model_index(m.drop_first(), k);
        assert(forall|i: int|
            0 <= i < m.drop_first().len() ==> #[trigger] m.drop_first()[i] == m[i + 1]);
        assert forall|i: int| 1 <= i < m.len() implies (#[trigger] m[i]) == m.drop_first()[i
            - 1] by {
            assert(m.drop_first()[i - 1] == m[i]);
        }
    }
}

/// Where the first space stands in `s`; `s.len()` when `s` has none.
pub open spec fn first_space(s: Seq<char>) -> nat
    decreases s.len(),
{
    if s.len() == 0 {
        0
    } else if s[0] == ' ' {
        0
    } else {
        1 + first_space(s.drop_first())
    }
}

pub proof fn lemma_first_space(s: Seq<char>)
    ensures
        first_space(s) <= s.len(),
        first_space(s) < s.len() ==> s[first_space(s) as int] == ' ',
        forall|i: int| 0 <= i < first_space(s) ==> s[i] != ' ',
    decreases s.len(),
{
    if s.len() > 0 && s[0] != ' ' {
        lemma_first_space(s.drop_first());
        assert(forall|i: int|
            0 <= i < s.drop_first().len() ==> #[trigger] s.drop_first()[i] == s[i + 1]);
        assert forall|i: int| 1 <= i < s.len() implies s[i] == s.drop_first()[i - 1] by {
            assert(s.drop_first()[i - 1] == s[i]);
        }
        if first_space(s.drop_first()) < s.drop_first().len() {
            assert(s[first_space(s) as int] == s.drop_first()[first_space(
                s.drop_first(),
            ) as int]);
        }
    }
}

/// `s` split on single spaces, empty pieces kept, as `str::split(' ')`
/// hands them out.
pub open spec fn split_tokens(s: Seq<char>) -> Seq<Seq<char>>
    decreases s.len(),
{
    let k = first_space(s);
    if k >= s.len() {
        seq![s]
    } else {
        seq![s.take(k as int)] + split_tokens(s.skip(k + 1 as int))
    }
}

/// One candidate character filed under `key`: appended to the key's
/// candidates unless already present; a new key is seated last.
pub open spec fn model_insert(m: DictModel, key: Seq<char>, c: char) -> DictModel {
    if model_has(m, key) {
        let j = model_index(m, key);
        if m[j].1.contains(c) {
            m
        } else {
            m.update(j, (key, m[j].1.push(c)))
        }
    } else {
        m.push((key, seq![c]))
    }
}

/// One dictionary line folded in: the first token keys the line, and the
/// first character of each later non-empty token becomes a candidate.
pub open spec fn model_add_line(m: DictModel, line: Seq<char>) -> DictModel {
    let toks = split_tokens(line);
    model_add_cands(m, toks[0], toks, 1)
}

pub open spec fn model_add_cands(m: DictModel, key: Seq<char>, toks: Seq<Seq<char>>, i: int) -> DictModel
    decreases toks.len() - i,
{
    if i < 0 || i >= toks.len() {
        m
    } else {
        let m2 = if toks[i].len() > 0 {
            model_insert(m, key, toks[i][0])
        } else {
            m
        };
        model_add_cands(m2, key, toks, i + 1)
    }
}

/// A dictionary file folded in, line by line.
pub open spec fn model_of_lines(lines: Seq<Seq<char>>) -> DictModel
    decreases lines.len(),
{
    if lines.len() == 0 {
        Seq::empty()
    } else {
        model_add_line(model_of_lines(lines.drop_last()), lines.last())
    }
}

/// The pinyin dictionary.
pub struct Dict {
    pub entries: Vec<(String, Vec<char>)>,
}

impl Dict {
    /// Keys unique; within one key the candidates unique.
    pub open spec fn wf(self) -> bool {
        &&& keys_unique(self.entries@)
        &&& (forall|i: int, a: int, b: int|
            0 <= i < self.entries@.len() && 0 <= a < b < self.entries@[i].1@.len() ==> (
            #[trigger] self.entries@[i].1@[a]) != (#[trigger] self.entries@[i].1@[b]))
    }

    /// The dictionary, written over plain character sequences.
    pub open spec fn model(self) -> DictModel {
        self.entries@.map(|i: int, e: (String, Vec<char>)| (e.0@, e.1@))
    }

    pub fn new() -> (r: Dict)
        ensures
            r.wf(),
            r.model() =~= Seq::<(Seq<char>, Seq<char>)>::empty(),
    {
        Dict { entries: Vec::new() }
    }

    fn find(&self, k: &String) -> (r: Option<usize>)
        ensures
            match r {
                Some(j) => j == key_index(self.entries@, k@) && j < self.entries@.len(),
                None => !has_key(self.entries@, k@),
            },
    {
        let n = self.entries.len();
        assert(self.entries@.skip(0) =~~= self.entries@);
        for j in 0..n
            invariant
                n == self.entries@.len(),
                key_index(self.entries@, k@) == j + key_index(
                    self.entries@.skip(j as int),
                    k@,
                ),
        {
            proof {
                assert(self.entries@.skip(j as int)[0] == self.entries@[j as int]);
                assert(self.entries@.skip(j as int).drop_first() =~~= self.entries@.skip(
                    j + 1,
                ));
                lemma_key_index(self.entries@.skip(j + 1), k@);
            }
            if self.entries[j].0 == *k {
                return Some(j);
            }
        }
        proof {
            assert(self.entries@.skip(n as int).len() == 0);
        }
        None
    }

    /// The candidate characters of one pinyin syllable, if it is known.
    pub fn query(&self, seg: &String) -> (r: Option<&Vec<char>>)
        ensures
            match r {
                Some(v) => model_has(self.model(), seg@) && v@ == model_cands(
                    self.model(),
                    seg@,
                ),
                None => !model_has(self.model(), seg@),
            },
    {
        proof {
            self.lemma_model_mirror(seg@);
        }
        match self.find(seg) {
            Some(j) => {
                proof {
                    lemma_key_index(self.entries@, seg@);
                }
                Some(&self.entries[j].1)
            },
            None => None,
        }
    }

    /// `model_index` over the model agrees with `key_index` over the entries.
    proof fn lemma_model_mirror(self, k: Seq<char>)
        ensures
            model_index(self.model(), k) == key_index(self.entries@, k),
        decreases self.entries@.len(),
    {
        let m = self.model();
        if self.entries@.len() > 0 && self.entries@[0].0@ != k {
            let tail = Dict { entries: self.entries };
            assert(m[0].0 == self.entries@[0].0@);
            let sub = self.entries@.drop_first();
            let subm = m.drop_first();
            assert(subm =~= sub.map(|i: int, e: (String, Vec<char>)| (e.0@, e.1@)));
            lemma_model_index_tail(sub, k);
        } else if self.entries@.len() > 0 {
            assert(m[0].0 == self.entries@[0].0@);
        }
    }

    /// File one candidate character under `key`, as `model_insert` says.
    fn insert_cand(&mut self, key: &String, c: char)
        requires
            old(self).wf(),
        ensures
            final(self).wf(),
            final(self).model() == model_insert(old(self).model(), key@, c),
    {
        proof {
            self.lemma_model_mirror(key@);
            lemma_key_index(self.entries@, key@);
            lemma_model_index(self.model(), key@);
        }
        let ghost m0 = self.model();
        let ghost pre = self.entries@;
        match self.find(key) {
            Some(j) => {
                let ghost kept = (self.entries@[j as int]).0;
                let ghost cands0 = (self.entries@[j as int]).1@;
                assert(m0[j as int] == (kept@, cands0));
                if crate::words::contains_char(&self.entries[j].1, c) {
                    proof {
                        assert(self.model() =~= model_insert(m0, key@, c));
                    }
                } else {
                    self.entries[j].1.push(c);
                    proof {
                        let post = self.entries@;
                        assert(post =~~= pre.update(
                            j as int,
                            (kept, (post[j as int]).1),
                        ));
                        assert((post[j as int]).1@ == cands0.push(c));
                        assert(self.model() =~= m0.update(j as int, (key@, cands0.push(c))));
                        assert(self.wf()) by {
                            assert(forall|i: int|
                                0 <= i < pre.len() && i != j ==> #[trigger] post[i] == pre[i]);
                            assert(forall|i: int|
                                0 <= i < pre.len() ==> (#[trigger] post[i]).0@ == (pre[i]).0@);
                            assert(forall|a: int|
                                0 <= a < cands0.len() ==> #[trigger] cands0.push(c)[a]
                                    == cands0[a]);
                            assert(cands0.push(c)[cands0.len() as int] == c);
                            assert(!cands0.contains(c));
                        }
                    }
                }
            },
            None => {
                let key_clone = key.clone();
                let mut single: Vec<char> = Vec::new();
                single.push(c);
                self.entries.push((key_clone, single));
                proof {
                    let post = self.entries@;
                    assert((post[pre.len() as int]).0@ == key@);
                    assert((post[pre.len() as int]).1@ =~= seq![c]);
                    assert(self.model() =~= m0.push((key@, seq![c])));
                    assert(self.wf()) by {
                        assert(forall|i: int|
                            0 <= i < pre.len() ==> #[trigger] post[i] == pre[i]);
                    }
                }
            },
        }
    }

    /// Build the dictionary from the lines of a dictionary file: on each
    /// line the first token is the pinyin key, and the first character of
    /// every later non-empty token joins that key's candidates. A key never
    /// named beside a candidate stays out, so every stored candidate list
    /// is non-empty.
    pub fn from_lines(lines: &Vec<String>) -> (d: Dict)
        ensures
            d.wf(),
            d.model() == model_of_lines(lines.deep_view()),
    {
        let mut d = Dict::new();
        let ghost dv = lines.deep_view();
        let n = lines.len();
        assert(dv.take(0) =~= Seq::<Seq<char>>::empty());
        for li in 0..n
            invariant
                n == lines@.len(),
                dv == lines.deep_view(),
                d.wf(),
                d.model() == model_of_lines(dv.take(li as int)),
        {
            let ghost m0 = d.model();
            let cs = chars_of(lines[li].as_str());
            let toks = split_line(&cs);
            let ghost toksdv = toks.deep_view();
            proof {
                assert(dv[li as int] == lines@[li as int]@);
                assert(toksdv == split_tokens(cs@));
                assert(toksdv.len() >= 1) by {
                    lemma_first_space(cs@);
                }
            }
            let key = string_of(&toks[0]);
            proof {
                assert(toks@[0].deep_view() == toksdv[0]);
                assert(key@ == toksdv[0]);
            }
            let tn = toks.len();
            for t in 1..tn
                invariant
                    tn == toks@.len(),
                    toksdv == toks.deep_view(),
                    key@ == toksdv[0],
                    d.wf(),
                    model_add_cands(d.model(), key@, toksdv, t as int) == model_add_cands(
                        m0,
                        key@,
                        toksdv,
                        1,
                    ),
            {
                proof {
                    assert(toks@[t as int].deep_view() == toksdv[t as int]);
                }
                if toks[t].len() > 0 {
                    proof {
                        assert(toks@[t as int]@[0] == toksdv[t as int][0]);
                    }
                    d.insert_cand(&key, toks[t][0]);
                }
            }
            proof {
                assert(model_add_cands(d.model(), key@, toksdv, tn as int) == d.model());
                assert(d.model() == model_add_line(m0, dv[li as int]));
                assert(dv.take(li + 1).drop_last() =~= dv.take(li as int));
                assert(dv.take(li + 1).last() == dv[li as int]);
            }
        }
        proof {
            assert(dv.take(n as int) =~= dv);
        }
        d
    }

    /// Every candidate word over the pinyin window `segs[lo..hi]`, in
    /// expansion order: all words of `hi - lo` characters whose every
    /// character voices its syllable and which, beyond one character, the
    /// reverse trie knows. A window of one syllable skips the trie.
    pub fn build_words(&self, segs: &Vec<String>, lo: usize, hi: usize, rev: &Trie) -> (r: Vec<
        String,
    >)
        requires
            lo < hi <= segs@.len(),
        ensures
            r.deep_view() == spec_build_words(
                *self,
                segs.deep_view(),
                *rev,
                lo as int,
                hi as int,
            ),
    {
        let ghost dv = segs.deep_view();
        proof {
            assert(dv.len() == segs@.len());
            assert(forall|k: int| 0 <= k < segs@.len() ==> dv[k] == (#[trigger] segs@[k])@);
        }
        let empty_cands: Vec<char> = Vec::new();
        if hi - lo == 1 {
            let cands: &Vec<char> = match self.query(&segs[lo]) {
                Some(v) => v,
                None => &empty_cands,
            };
            proof {
                assert(cands@ =~= cand_list(*self, dv[lo as int]));
            }
            let mut out: Vec<String> = Vec::new();
            let cn = cands.len();
            for ci in 0..cn
                invariant
                    cn == cands@.len(),
                    out.deep_view() =~= spec_singles(cands@).take(ci as int),
            {
                let ghost olddv = out.deep_view();
                let mut single: Vec<char> = Vec::new();
                single.push(cands[ci]);
                out.push(string_of(&single));
                proof {
                    assert(out@.last()@ =~= seq![cands@[ci as int]]);
                    assert(forall|k: int|
                        0 <= k < olddv.len() ==> (#[trigger] out@[k]).deep_view()
                            == olddv[k]);
                    assert(out.deep_view() =~= olddv.push(seq![cands@[ci as int]]));
                    assert(out.deep_view() =~= spec_singles(cands@).take(ci + 1));
                }
            }
            proof {
                assert(spec_singles(cands@).take(cn as int) =~= spec_singles(cands@));
            }
            return out;
        }
        // Seed from the rightmost syllable.
        let cands0: &Vec<char> = match self.query(&segs[hi - 1]) {
            Some(v) => v,
            None => &empty_cands,
        };
        proof {
            assert(cands0@ =~= cand_list(*self, dv[hi - 1]));
        }
        let mut partials: Vec<Vec<char>> = Vec::new();
        let c0n = cands0.len();
        for ci in 0..c0n
            invariant
                c0n == cands0@.len(),
                partials.deep_view() =~= spec_seed(cands0@.take(ci as int), *rev),
        {
            let ghost olddv = partials.deep_view();
            let mut single: Vec<char> = Vec::new();
            single.push(cands0[ci]);
            proof {
                assert(cands0@.take(ci + 1).drop_last() =~= cands0@.take(ci as int));
                assert(cands0@.take(ci + 1).last() == cands0@[ci as int]);
            }
            if rev.contains_path(&single) {
                partials.push(single);
                proof {
                    assert(partials@.last()@ =~= seq![cands0@[ci as int]]);
                    assert(partials@.last().deep_view() =~= partials@.last()@);
                    assert(forall|k: int|
                        0 <= k < olddv.len() ==> (#[trigger] partials@[k]).deep_view()
                            == olddv[k]);
                    assert(partials.deep_view() =~= olddv.push(seq![cands0@[ci as int]]));
                }
            }
            proof {
                assert(partials.deep_view() =~= spec_seed(cands0@.take(ci + 1), *rev));
            }
        }
        proof {
            assert(cands0@.take(c0n as int) =~= cands0@);
            assert(partials.deep_view() =~= spec_expand(*self, dv, *rev, hi - 1, hi as int));
        }
        // Grow leftward, one syllable at a time.
        let mut cur = hi - 1;
        while cur > lo
            invariant
                lo <= cur <= hi - 1,
                hi <= segs@.len(),
                dv == segs.deep_view(),
                dv.len() == segs@.len(),
                empty_cands@.len() == 0,
                partials.deep_view() =~= spec_expand(
                    *self,
                    dv,
                    *rev,
                    cur as int,
                    hi as int,
                ),
            decreases cur,
        {
            cur -= 1;
            proof {
                assert(forall|k: int|
                    0 <= k < segs@.len() ==> dv[k] == (#[trigger] segs@[k])@);
                assert(dv[cur as int] == segs@[cur as int]@);
            }
            let cands: &Vec<char> = match self.query(&segs[cur]) {
                Some(v) => {
                    proof {
                        assert(v@ =~= cand_list(*self, dv[cur as int]));
                    }
                    v
                },
                None => {
                    proof {
                        assert(empty_cands@.len() == 0);
                        assert(!model_has(self.model(), segs@[cur as int]@));
                        assert(!model_has(self.model(), dv[cur as int]));
                        assert(cand_list(*self, dv[cur as int]) =~= Seq::<char>::empty());
                        assert(empty_cands@ =~= cand_list(*self, dv[cur as int]));
                    }
                    &empty_cands
                },
            };
            assert(cands@ =~= cand_list(*self, dv[cur as int]));
            let ghost pdv = partials.deep_view();
            let mut newp: Vec<Vec<char>> = Vec::new();
            let pn = partials.len();
            assert(pdv.take(0) =~= Seq::<Seq<char>>::empty());
            for pi in 0..pn
                invariant
                    pn == partials@.len(),
                    pdv == partials.deep_view(),
                    cands@ =~= cand_list(*self, dv[cur as int]),
                    newp.deep_view() =~= spec_extend_all(pdv.take(pi as int), cands@, *rev),
            {
                let cn = cands.len();
                let ghost basedv = newp.deep_view();
                for ci in 0..cn
                    invariant
                        pn == partials@.len(),
                        pi < pn,
                        cn == cands@.len(),
                        pdv == partials.deep_view(),
                        basedv == spec_extend_all(pdv.take(pi as int), cands@, *rev),
                        newp.deep_view() =~= basedv + spec_extend_one(
                            pdv[pi as int],
                            cands@.take(ci as int),
                            *rev,
                        ),
                {
                    let w = crate::words::cons_char(cands[ci], &partials[pi]);
                    let rw = rev_chars(&w);
                    proof {
                        assert(partials@[pi as int].deep_view() == pdv[pi as int]);
                        assert(w@ == seq![cands@[ci as int]] + pdv[pi as int]);
                        assert(rw@ == w@.reverse());
                        assert(cands@.take(ci + 1).drop_last() =~= cands@.take(ci as int));
                        assert(cands@.take(ci + 1).last() == cands@[ci as int]);
                    }
                    let ghost olddv = newp.deep_view();
                    if rev.contains_path(&rw) {
                        newp.push(w);
                        proof {
                            assert(newp@.last()@ == seq![cands@[ci as int]] + pdv[pi as int]);
                            assert(newp@.last().deep_view() =~= newp@.last()@);
                            assert(forall|k: int|
                                0 <= k < olddv.len() ==> (
                                #[trigger] newp@[k]).deep_view() == olddv[k]);
                            assert(newp.deep_view() =~= olddv.push(
                                seq![cands@[ci as int]] + pdv[pi as int],
                            ));
                        }
                    }
                    proof {
                        assert(newp.deep_view() =~= basedv + spec_extend_one(
                            pdv[pi as int],
                            cands@.take(ci + 1),
                            *rev,
                        ));
                    }
                }
                proof {
                    assert(cands@.take(cn as int) =~= cands@);
                    assert(pdv.take(pi + 1).drop_last() =~= pdv.take(pi as int));
                    assert(pdv.take(pi + 1).last() == pdv[pi as int]);
                    assert(newp.deep_view() =~= spec_extend_all(
                        pdv.take(pi + 1),
                        cands@,
                        *rev,
                    ));
                }
            }
            partials = newp;
            proof {
                assert(pdv.take(pn as int) =~= pdv);
                assert(partials.deep_view() =~= spec_extend_all(pdv, cands@, *rev));
                assert(partials.deep_view() =~= spec_expand(
                    *self,
                    dv,
                    *rev,
                    cur as int,
                    hi as int,
                ));
            }
        }
        // Partial words cover the whole window; hand them out as strings.
        let mut out: Vec<String> = Vec::new();
        let fn_ = partials.len();
        for i in 0..fn_
            invariant
                fn_ == partials@.len(),
                out.deep_view() =~= partials.deep_view().take(i as int),
        {
            let ghost olddv = out.deep_view();
            out.push(string_of(&partials[i]));
            proof {
                assert(out@.last()@ == partials@[i as int]@);
                assert(partials@[i as int].deep_view() == partials@[i as int]@);
                assert(forall|k: int|
                    0 <= k < olddv.len() ==> (#[trigger] out@[k]).deep_view() == olddv[k]);
                assert(out.deep_view() =~= olddv.push(partials.deep_view()[i as int]));
                assert(out.deep_view() =~= partials.deep_view().take(i + 1));
            }
        }
        proof {
            assert(partials.deep_view().take(fn_ as int) =~= partials.deep_view());
        }
        out
    }
}

/// The candidate characters of `seg`, empty when `seg` is unknown.
pub open spec fn cand_list(d: Dict, seg: Seq<char>) -> Seq<char> {
    if model_has(d.model(), seg) {
        model_cands(d.model(), seg)
    } else {
        Seq::empty()
    }
}

/// Every candidate as a one-character word, dictionary order kept, with no
/// trie filtering: a single syllable may voice any character it can voice.
pub open spec fn spec_singles(cs: Seq<char>) -> Seq<Seq<char>> {
    Seq::new(cs.len(), |i: int| seq![cs[i]])
}

/// The seed of the right-to-left expansion: one-character partial words,
/// kept only where the character starts a reversed known word.
pub open spec fn spec_seed(cs: Seq<char>, t: Trie) -> Seq<Seq<char>>
    decreases cs.len(),
{
    if cs.len() == 0 {
        Seq::empty()
    } else {
        let rest = spec_seed(cs.drop_last(), t);
        if t.has_path(seq![cs.last()]) {
            rest.push(seq![cs.last()])
        } else {
            rest
        }
    }
}

/// One partial word `s` grown leftward by each candidate in turn, kept
/// where the reversed longer word still labels a trie path.
pub open spec fn spec_extend_one(s: Seq<char>, cs: Seq<char>, t: Trie) -> Seq<Seq<char>>
    decreases cs.len(),
{
    if cs.len() == 0 {
        Seq::empty()
    } else {
        let rest = spec_extend_one(s, cs.drop_last(), t);
        let w = seq![cs.last()] + s;
        if t.has_path(w.reverse()) {
            rest.push(w)
        } else {
            rest
        }
    }
}

/// Every partial word grown leftward, partials outermost: the expansion
/// order the decoder's tie-breaking sees.
pub open spec fn spec_extend_all(partials: Seq<Seq<char>>, cs: Seq<char>, t: Trie) -> Seq<
    Seq<char>,
>
    decreases partials.len(),
{
    if partials.len() == 0 {
        Seq::empty()
    } else {
        spec_extend_all(partials.drop_last(), cs, t) + spec_extend_one(
            partials.last(),
            cs,
            t,
        )
    }
}

/// The words of length `hi - lo` that voice `segs[lo..hi]` and, reversed,
/// label trie paths; built right to left.
pub open spec fn spec_expand(d: Dict, segs: Seq<Seq<char>>, t: Trie, lo: int, hi: int) -> Seq<
    Seq<char>,
>
    decreases hi - lo,
{
    if hi - lo <= 1 {
        spec_seed(cand_list(d, segs[hi - 1]), t)
    } else {
        spec_extend_all(spec_expand(d, segs, t, lo + 1, hi), cand_list(d, segs[lo]), t)
    }
}

/// The candidate words over the window `segs[lo..hi]`: every candidate
/// character when the window is one syllable wide, the trie-filtered
/// expansion otherwise.
pub open spec fn spec_build_words(d: Dict, segs: Seq<Seq<char>>, t: Trie, lo: int, hi: int) -> Seq<
    Seq<char>,
>
{
    if hi - lo == 1 {
        spec_singles(cand_list(d, segs[lo]))
    } else {
        spec_expand(d, segs, t, lo, hi)
    }
}

/// `line` split on single spaces, empty pieces kept.
fn split_line(chars: &Vec<char>) -> (r: Vec<Vec<char>>)
    ensures
        r.deep_view() == split_tokens(chars@),
{
    let n = chars.len();
    let mut r: Vec<Vec<char>> = Vec::new();
    let mut p: usize = 0;
    assert(chars@.skip(0) =~= chars@);
    loop
        invariant
            p <= n,
            n == chars@.len(),
            r.deep_view() + split_tokens(chars@.skip(p as int)) == split_tokens(chars@),
        ensures
            r.deep_view() == split_tokens(chars@),
        decreases n - p,
    {
        let ghost rem = chars@.skip(p as int);
        let mut q = p;
        while q < n && chars[q] != ' '
            invariant
                p <= q <= n,
                n == chars@.len(),
                forall|i: int| p <= i < q ==> chars@[i] != ' ',
            decreases n - q,
        {
            q += 1;
        }
        proof {
            lemma_first_space(rem);
            assert(forall|i: int| 0 <= i < rem.len() ==> rem[i] == chars@[p + i]);
            assert(first_space(rem) == q - p) by {
                if first_space(rem) < q - p {
                    assert(rem[first_space(rem) as int] == ' ');
                } else if first_space(rem) > q - p {
                    assert(q < n);
                    assert(rem[q - p] == ' ');
                }
            }
        }
        let mut tok: Vec<char> = Vec::new();
        let mut i = p;
        while i < q
            invariant
                p <= i <= q <= n,
                n == chars@.len(),
                tok@ == chars@.subrange(p as int, i as int),
            decreases q - i,
        {
            tok.push(chars[i]);
            proof {
                assert(chars@.subrange(p as int, i + 1) =~= chars@.subrange(
                    p as int,
                    i as int,
                ).push(chars@[i as int]));
            }
            i += 1;
        }
        let ghost olddv = r.deep_view();
        r.push(tok);
        proof {
            assert(tok.deep_view() =~= tok@);
            assert(r@.last() == tok);
            assert(forall|i: int| 0 <= i < olddv.len() ==> r@[i].deep_view() == olddv[i]);
            assert(r.deep_view() =~= olddv.push(tok@));
            assert(tok@ =~= rem.take(q - p));
        }
        if q == n {
            proof {
                assert(first_space(rem) >= rem.len());
                assert(split_tokens(rem) == seq![rem]);
                assert(tok@ =~= rem);
                assert(r.deep_view() =~= olddv.push(rem));
                assert(olddv.push(rem) =~= olddv + seq![rem]);
                assert(r.deep_view() =~= split_tokens(chars@));
            }
            return r;
        }
        proof {
            assert(split_tokens(rem) == seq![rem.take(q - p)] + split_tokens(
                rem.skip(q - p + 1),
            ));
            assert(rem.skip(q - p + 1) =~= chars@.skip(q + 1));
            assert(r.deep_view() + split_tokens(chars@.skip(q + 1)) =~= olddv + (seq![
                rem.take(q - p) ] + split_tokens(rem.skip(q - p + 1))));
            assert(olddv + split_tokens(rem) == split_tokens(chars@));
        }
        p = q + 1;
    }
}

/// Helper: `model_index` on a mapped tail equals `key_index` on the tail.
proof fn lemma_model_index_tail(entries: Seq<(String, Vec<char>)>, k: Seq<char>)
    ensures
        model_index(
            entries.map(|i: int, e: (String, Vec<char>)| (e.0@, e.1@)),
            k,
        ) == key_index(entries, k),
    decreases entries.len(),
{
    let m = entries.map(|i: int, e: (String, Vec<char>)| (e.0@, e.1@));
    if entries.len() > 0 {
        assert(m[0] == (entries[0].0@, entries[0].1@));
        if entries[0].0@ != k {
            assert(m.drop_first() =~= entries.drop_first().map(
                |i: int, e: (String, Vec<char>)| (e.0@, e.1@),
            ));
            lemma_model_index_tail(entries.drop_first(), k);
        }
    }
}

} // verus!
