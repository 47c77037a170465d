//! The training accumulator: occurrence counts of trigram keys
//! `(w2, w1, w0)`, fed by the sliding window over a segmented corpus and
//! consumed once by `extract`. The empty word stands for "no or unknown
//! predecessor" in either context slot.
use crate::engine::Engine;
use crate::tables::{
    lemma_count3_le_sum3, lemma_count2_le_sum2, lemma_count_le_sum, sum_counts, sum_counts2,
    sum_counts3,
};
use vstd::prelude::*;

verus! {

/// What the accumulator holds, over plain character sequences: trigram
/// keys with their counts, in first-insertion order.
pub type TModel = Seq<((Seq<char>, Seq<char>, Seq<char>), u64)>;

/// The first position in `m` keyed `(a, b, c)`; `m.len()` when none is.
pub open spec fn tindex(m: TModel, a: Seq<char>, b: Seq<char>, c: Seq<char>) -> int
    decreases m.len(),
{
    if m.len() == 0 {
        0
    } else if m[0].0 == (a, b, c) {
        0
    } else {
        1 + tindex(m.drop_first(), a, b, c)
    }
}

pub open spec fn thas(m: TModel, a: Seq<char>, b: Seq<char>, c: Seq<char>) -> bool {
    tindex(m, a, b, c) < m.len()
}

/// All counts of `m`, added up.
pub open spec fn tsum(m: TModel) -> int
    decreases m.len(),
{
    if m.len() == 0 {
        0
    } else {
        m[0].1 + tsum(m.drop_first())
    }
}

pub open spec fn tkeys_unique(m: TModel) -> bool {
    forall|i: int, j: int| 0 <= i < j < m.len() ==> (#[trigger] m[i]).0 != (#[trigger] m[j]).0
}

pub proof fn lemma_tindex(m: TModel, a: Seq<char>, b: Seq<char>, c: Seq<char>)
    ensures
        0 <= tindex(m, a, b, c) <= m.len(),
        thas(m, a, b, c) ==> (m[tindex(m, a, b, c)]).0 == (a, b, c),
        forall|i: int| 0 <= i < tindex(m, a, b, c) ==> (#[trigger] m[i]).0 != (a, b, c),
    decreases m.len(),
{
    if m.len() > 0 && m[0].0 != (a, b, c) {
        lemma_tindex(m.drop_first(), a, b, c);
        assert(forall|i: int|
            0 <= i < m.drop_first().len() ==> #[trigger] m.drop_first()[i] == m[i + 1]);
        assert forall|i: int| 1 <= i < m.len() implies (#[trigger] m[i]) == m.drop_first()[i
            - 1] by {
            assert(m.drop_first()[i - 1] == m[i]);
        }
    }
}

pub proof fn lemma_tsum_nonneg(m: TModel)
    ensures
        tsum(m) >= 0,
    decreases m.len(),
{
    if m.len() > 0 {
        lemma_tsum_nonneg(m.drop_first());
    }
}

pub proof fn lemma_tsum_push(m: TModel, k: (Seq<char>, Seq<char>, Seq<char>), v: u64)
    ensures
        tsum(m.push((k, v))) == tsum(m) + v,
    decreases m.len(),
{
    let pushed = m.push((k, v));
    if m.len() == 0 {
        assert(pushed[0] == (k, v));
        assert(pushed.drop_first() =~= Seq::<((Seq<char>, Seq<char>, Seq<char>), u64)>::empty());
        assert(tsum(pushed.drop_first()) == 0);
        assert(tsum(pushed) == pushed[0].1 + tsum(pushed.drop_first()));
    } else {
        assert(pushed[0] == m[0]);
        assert(pushed.drop_first() =~= m.drop_first().push((k, v)));
        lemma_tsum_push(m.drop_first(), k, v);
        assert(tsum(pushed) == pushed[0].1 + tsum(pushed.drop_first()));
        assert(tsum(m) == m[0].1 + tsum(m.drop_first()));
    }
}

pub proof fn lemma_tsum_update(m: TModel, j: int, v: u64)
    requires
        0 <= j < m.len(),
    ensures
        tsum(m.update(j, ((m[j]).0, v))) == tsum(m) + v - m[j].1,
    decreases m.len(),
{
    let upd = m.update(j, ((m[j]).0, v));
    if j == 0 {
        assert(upd[0] == ((m[0]).0, v));
        assert(upd.drop_first() =~= m.drop_first());
        assert(tsum(upd) == upd[0].1 + tsum(upd.drop_first()));
        assert(tsum(m) == m[0].1 + tsum(m.drop_first()));
    } else {
        assert(upd[0] == m[0]);
        assert(upd.drop_first() =~= m.drop_first().update(j - 1, ((m[j]).0, v)));
        assert(m.drop_first()[j - 1] == m[j]);
        lemma_tsum_update(m.drop_first(), j - 1, v);
        assert(tsum(upd) == upd[0].1 + tsum(upd.drop_first()));
        assert(tsum(m) == m[0].1 + tsum(m.drop_first()));
    }
}

/// The training accumulator.
pub struct TrainingStore {
    pub all_tuples: Vec<((String, String, String), u64)>,
}

/// The view of one stored entry.
pub open spec fn tentry_model(e: ((String, String, String), u64)) -> (
    (Seq<char>, Seq<char>, Seq<char>),
    u64,
) {
    ((e.0.0@, e.0.1@, e.0.2@), e.1)
}

/// The view of a whole entry list.
pub open spec fn tuples_model(entries: Seq<((String, String, String), u64)>) -> TModel {
    entries.map(|i: int, e: ((String, String, String), u64)| tentry_model(e))
}

/// The word carried by one optional window slot; an absent slot reads as
/// the empty word.
pub open spec fn slot_view(s: Option<&String>) -> Seq<char> {
    match s {
        Some(w) => w@,
        None => Seq::empty(),
    }
}

/// One window folded in, after normalization: nothing to record without a
/// current word; no trigram context without an immediate predecessor.
pub open spec fn spec_add_tuple(m: TModel, a: Seq<char>, b: Seq<char>, c: Seq<char>) -> TModel {
    if c.len() == 0 {
        m
    } else {
        let a2 = if b.len() == 0 {
            Seq::<char>::empty()
        } else {
            a
        };
        if thas(m, a2, b, c) {
            let j = tindex(m, a2, b, c);
            m.update(j, ((m[j]).0, (m[j].1 + 1) as u64))
        } else {
            m.push(((a2, b, c), 1))
        }
    }
}

impl TrainingStore {
    /// Keys unique, and the total mass fits `u64`.
    pub open spec fn wf(self) -> bool {
        &&& tkeys_unique(self.model())
        &&& tsum(self.model()) <= u64::MAX
    }

    pub open spec fn model(self) -> TModel {
        tuples_model(self.all_tuples@)
    }

    pub fn new() -> (r: TrainingStore)
        ensures
            r.wf(),
            r.model() =~= Seq::<((Seq<char>, Seq<char>, Seq<char>), u64)>::empty(),
    {
        TrainingStore { all_tuples: Vec::new() }
    }

    /// Where `(a, b, c)` stands among the entries, if anywhere.
    fn find(&self, a: &String, b: &String, c: &String) -> (r: Option<usize>)
        ensures
            match r {
                Some(j) => j == tindex(self.model(), a@, b@, c@) && j
                    < self.all_tuples@.len(),
                None => !thas(self.model(), a@, b@, c@),
            },
    {
        let ghost m = self.model();
        let n = self.all_tuples.len();
        proof {
            lemma_tindex(m, a@, b@, c@);
        }
        for j in 0..n
            invariant
                n == self.all_tuples@.len(),
                m == self.model(),
                m.len() == n,
                forall|i: int| 0 <= i < j ==> (#[trigger] m[i]).0 != (a@, b@, c@),
                tindex(m, a@, b@, c@) >= j,
        {
            proof {
                assert(m[j as int] == tentry_model(self.all_tuples@[j as int]));
                lemma_tindex(m, a@, b@, c@);
            }
            let e = &self.all_tuples[j];
            if e.0.0 == *a && e.0.1 == *b && e.0.2 == *c {
                proof {
                    assert(m[j as int].0 == (a@, b@, c@));
                    assert(tindex(m, a@, b@, c@) <= j) by {
                        lemma_tindex(m, a@, b@, c@);
                        if tindex(m, a@, b@, c@) > j {
                            assert((m[j as int]).0 != (a@, b@, c@));
                        }
                    }
                }
                return Some(j);
            }
            proof {
                assert(tindex(m, a@, b@, c@) >= j + 1) by {
                    lemma_tindex(m, a@, b@, c@);
                    if tindex(m, a@, b@, c@) == j {
                        assert((m[j as int]).0 == (a@, b@, c@));
                    }
                }
            }
        }
        proof {
            lemma_tindex(m, a@, b@, c@);
        }
        None
    }

    /// Record one sliding window. A window without a current word is
    /// discarded; one without an immediate predecessor loses its older
    /// context word as well. The kept key's count rises by one.
    pub fn add_tuple(&mut self, a: Option<&String>, b: Option<&String>, c: Option<&String>)
        requires
            old(self).wf(),
            tsum(old(self).model()) < u64::MAX,
        ensures
            final(self).wf(),
            final(self).model() == spec_add_tuple(
                old(self).model(),
                slot_view(a),
                slot_view(b),
                slot_view(c),
            ),
    {
        let ghost m0 = self.model();
        let cs: &String = match c {
            Some(s) => s,
            None => {
                proof {
                    assert(spec_add_tuple(m0, slot_view(a), slot_view(b), slot_view(c))
                        == m0);
                }
                return ;
            },
        };
        if cs.as_str().is_empty() {
            proof {
                assert(spec_add_tuple(m0, slot_view(a), slot_view(b), slot_view(c)) == m0);
            }
            return ;
        }
        let empty = String::new();
        let bs: &String = match b {
            Some(s) => s,
            None => &empty,
        };
        let as_: &String = if bs.as_str().is_empty() {
            &empty
        } else {
            match a {
                Some(s) => s,
                None => &empty,
            }
        };
        proof {
            assert(bs@ == slot_view(b));
            assert(cs@ == slot_view(c));
            assert(as_@ == if slot_view(b).len() == 0 {
                Seq::<char>::empty()
            } else {
                slot_view(a)
            });
        }
        let ghost pre = self.all_tuples@;
        match self.find(as_, bs, cs) {
            Some(j) => {
                proof {
                    lemma_tindex(m0, as_@, bs@, cs@);
                    assert(m0[j as int].1 == self.all_tuples@[j as int].1);
                    assert(m0[j as int].1 as int <= tsum(m0)) by {
                        lemma_tsum_at(m0, j as int);
                    }
                }
                let cnt = self.all_tuples[j].1;
                let k0 = self.all_tuples[j].0.0.clone();
                let k1 = self.all_tuples[j].0.1.clone();
                let k2 = self.all_tuples[j].0.2.clone();
                self.all_tuples[j] = ((k0, k1, k2), cnt + 1);
                proof {
                    let post = self.all_tuples@;
                    assert(post =~~= pre.update(
                        j as int,
                        ((pre[j as int].0.0, pre[j as int].0.1, pre[j as int].0.2), (cnt
                            + 1) as u64),
                    ));
                    assert(self.model() =~= m0.update(
                        j as int,
                        ((m0[j as int]).0, (m0[j as int].1 + 1) as u64),
                    ));
                    lemma_tsum_update(m0, j as int, (m0[j as int].1 + 1) as u64);
                    assert(tkeys_unique(self.model())) by {
                        assert(forall|i: int|
                            0 <= i < m0.len() ==> (#[trigger] self.model()[i]).0 == (
                            m0[i]).0);
                    }
                }
            },
            None => {
                let ka = as_.clone();
                let kb = bs.clone();
                let kc = cs.clone();
                self.all_tuples.push(((ka, kb, kc), 1));
                proof {
                    let post = self.all_tuples@;
                    assert(self.model() =~= m0.push(((as_@, bs@, cs@), 1)));
                    lemma_tsum_push(m0, (as_@, bs@, cs@), 1);
                    lemma_tindex(m0, as_@, bs@, cs@);
                    assert(tkeys_unique(self.model())) by {
                        assert(forall|i: int|
                            0 <= i < m0.len() ==> #[trigger] self.model()[i] == m0[i]);
                        assert(self.model()[m0.len() as int].0 == (as_@, bs@, cs@));
                    }
                }
            },
        }
    }
}

/// `w` itself when every character is allowed, the empty word otherwise:
/// out-of-vocabulary words become the unknown sentinel.
pub open spec fn spec_filter(w: Seq<char>, allowed: Seq<char>) -> Seq<char> {
    if forall|i: int| 0 <= i < w.len() ==> allowed.contains(#[trigger] w[i]) {
        w
    } else {
        Seq::empty()
    }
}

/// The sliding window run from position `i` with context `(a, b, c)`:
/// shift the filtered word in, record the window, move on.
pub open spec fn spec_ingest_from(
    m: TModel,
    allowed: Seq<char>,
    words: Seq<Seq<char>>,
    i: int,
    a: Seq<char>,
    b: Seq<char>,
    c: Seq<char>,
) -> TModel
    decreases words.len() - i + 1,
{
    if i < 0 || i >= words.len() {
        m
    } else {
        let w = spec_filter(words[i], allowed);
        spec_ingest_from(spec_add_tuple(m, b, c, w), allowed, words, i + 1, b, c, w)
    }
}

/// A whole segmented line folded in, the window starting empty.
pub open spec fn spec_ingest(m: TModel, allowed: Seq<char>, words: Seq<Seq<char>>) -> TModel {
    spec_ingest_from(
        m,
        allowed,
        words,
        0,
        Seq::empty(),
        Seq::empty(),
        Seq::empty(),
    )
}

/// Recording one window grows the mass by at most one.
pub proof fn lemma_tsum_add_tuple(m: TModel, a: Seq<char>, b: Seq<char>, c: Seq<char>)
    requires
        tsum(m) < u64::MAX,
    ensures
        tsum(m) <= tsum(spec_add_tuple(m, a, b, c)) <= tsum(m) + 1,
{
    if c.len() == 0 {
    } else {
        let a2 = if b.len() == 0 {
            Seq::<char>::empty()
        } else {
            a
        };
        if thas(m, a2, b, c) {
            let j = tindex(m, a2, b, c);
            lemma_tindex(m, a2, b, c);
            lemma_tsum_at(m, j);
            lemma_tsum_update(m, j, (m[j].1 + 1) as u64);
        } else {
            lemma_tsum_push(m, (a2, b, c), 1);
        }
    }
}

/// Whether every character of `w` belongs to the allowlist.
fn word_allowed(w: &String, allowed: &Vec<char>) -> (r: bool)
    ensures
        r == (forall|i: int| 0 <= i < w@.len() ==> allowed@.contains(#[trigger] w@[i])),
{
    let cs = crate::words::chars_of(w.as_str());
    let n = cs.len();
    for i in 0..n
        invariant
            n == cs@.len(),
            cs@ == w@,
            forall|k: int| 0 <= k < i ==> allowed@.contains(#[trigger] w@[k]),
    {
        if !crate::words::contains_char(allowed, cs[i]) {
            return false;
        }
    }
    true
}

impl TrainingStore {
    /// Feed one segmented line through the length-three sliding window:
    /// each word is shifted in (out-of-allowlist words as the unknown
    /// sentinel) and the window is recorded after every shift.
    pub fn ingest(&mut self, allowed: &Vec<char>, words: &Vec<String>)
        requires
            old(self).wf(),
            tsum(old(self).model()) + words@.len() <= u64::MAX,
        ensures
            final(self).wf(),
            final(self).model() == spec_ingest(
                old(self).model(),
                allowed@,
                words.deep_view(),
            ),
    {
        let ghost m0 = self.model();
        let ghost wv = words.deep_view();
        proof {
            assert(wv.len() == words@.len());
        }
        let mut wa = String::new();
        let mut wb = String::new();
        let mut wc = String::new();
        let n = words.len();
        for i in 0..n
            invariant
                n == words@.len(),
                wv == words.deep_view(),
                wv.len() == n,
                self.wf(),
                tsum(self.model()) <= tsum(m0) + i,
                tsum(m0) + n <= u64::MAX,
                spec_ingest_from(self.model(), allowed@, wv, i as int, wa@, wb@, wc@)
                    == spec_ingest(m0, allowed@, wv),
        {
            proof {
                assert(words@[i as int].deep_view() == wv[i as int]);
            }
            let w = if word_allowed(&words[i], allowed) {
                words[i].clone()
            } else {
                String::new()
            };
            proof {
                assert(w@ == spec_filter(wv[i as int], allowed@));
            }
            let ghost ga = wa@;
            let ghost gb = wb@;
            let ghost gc = wc@;
            wa = wb;
            wb = wc;
            wc = w;
            let ghost mpre = self.model();
            proof {
                lemma_tsum_nonneg(mpre);
            }
            self.add_tuple(Some(&wa), Some(&wb), Some(&wc));
            proof {
                lemma_tsum_add_tuple(mpre, gb, gc, wc@);
                assert(self.model() == spec_add_tuple(mpre, gb, gc, wc@));
                assert(spec_ingest_from(mpre, allowed@, wv, i as int, ga, gb, gc)
                    == spec_ingest_from(
                    spec_add_tuple(mpre, gb, gc, wc@),
                    allowed@,
                    wv,
                    i + 1,
                    gb,
                    gc,
                    wc@,
                ));
            }
        }
        proof {
            assert(spec_ingest_from(self.model(), allowed@, wv, n as int, wa@, wb@, wc@)
                == self.model());
        }
    }
}

/// Where a count `v` enters the descending sieve: before the first entry
/// whose count is strictly smaller, after every equal one (stable).
pub open spec fn insert_pos(m: TModel, v: u64) -> int
    decreases m.len(),
{
    if m.len() == 0 {
        0
    } else if m[0].1 < v {
        0
    } else {
        1 + insert_pos(m.drop_first(), v)
    }
}

pub proof fn lemma_insert_pos(m: TModel, v: u64)
    ensures
        0 <= insert_pos(m, v) <= m.len(),
        forall|q: int| 0 <= q < insert_pos(m, v) ==> (#[trigger] m[q]).1 >= v,
        insert_pos(m, v) < m.len() ==> m[insert_pos(m, v)].1 < v,
    decreases m.len(),
{
    if m.len() > 0 && m[0].1 >= v {
        lemma_insert_pos(m.drop_first(), v);
        assert(forall|i: int|
            0 <= i < m.drop_first().len() ==> #[trigger] m.drop_first()[i] == m[i + 1]);
        assert forall|i: int| 1 <= i < m.len() implies (#[trigger] m[i]) == m.drop_first()[i
            - 1] by {
            assert(m.drop_first()[i - 1] == m[i]);
        }
    }
}

/// One tuple sifted into the bounded sieve: seat it by count, then trim
/// the overflowing minimum off the end.
pub open spec fn spec_sift(acc: TModel, e: ((Seq<char>, Seq<char>, Seq<char>), u64), cap: int) -> TModel {
    let ins = acc.insert(insert_pos(acc, e.1), e);
    if ins.len() > cap {
        ins.take(cap)
    } else {
        ins
    }
}

/// The whole store sifted in order through a sieve of width `cap`: what
/// is left are `cap` of the most frequent tuples, descending by count,
/// earlier arrivals ahead of equal later ones.
pub open spec fn spec_sieve(m: TModel, cap: int) -> TModel
    decreases m.len(),
{
    if m.len() == 0 {
        Seq::empty()
    } else {
        spec_sift(spec_sieve(m.drop_last(), cap), m.last(), cap)
    }
}

/// What the bounded sieve keeps: never more than `cap` tuples, and no
/// more than were sifted through it.
pub proof fn lemma_sieve_len(m: TModel, cap: int)
    requires
        cap >= 0,
    ensures
        spec_sieve(m, cap).len() == if m.len() <= cap {
            m.len() as int
        } else {
            cap
        },
    decreases m.len(),
{
    if m.len() > 0 {
        lemma_sieve_len(m.drop_last(), cap);
        let acc = spec_sieve(m.drop_last(), cap);
        lemma_insert_pos(acc, m.last().1);
    }
}

/// The sieve stays sorted: counts never rise from front to back, so the
/// trimmed end is always a minimum.
pub proof fn lemma_sieve_sorted(m: TModel, cap: int)
    requires
        cap >= 0,
    ensures
        forall|a: int, b: int|
            0 <= a < b < spec_sieve(m, cap).len() ==> (#[trigger] spec_sieve(m, cap)[a]).1
                >= (#[trigger] spec_sieve(m, cap)[b]).1,
    decreases m.len(),
{
    if m.len() > 0 {
        lemma_sieve_sorted(m.drop_last(), cap);
        let acc = spec_sieve(m.drop_last(), cap);
        let e = m.last();
        lemma_insert_pos(acc, e.1);
        let p = insert_pos(acc, e.1);
        let ins = acc.insert(p, e);
        assert forall|a: int, b: int|
            0 <= a < b < ins.len() implies (#[trigger] ins[a]).1 >= (
        #[trigger] ins[b]).1 by {
            if a < p {
                assert(ins[a] == acc[a]);
            } else if a == p {
                assert(ins[a] == e);
            } else {
                assert(ins[a] == acc[a - 1]);
            }
            if b < p {
                assert(ins[b] == acc[b]);
            } else if b == p {
                assert(ins[b] == e);
            } else {
                assert(ins[b] == acc[b - 1]);
            }
        }
        let whole = spec_sieve(m, cap);
        assert forall|a: int, b: int|
            0 <= a < b < whole.len() implies (#[trigger] whole[a]).1 >= (
        #[trigger] whole[b]).1 by {
            if ins.len() > cap {
                assert(whole[a] == ins[a]);
                assert(whole[b] == ins[b]);
            }
        }
    }
}

/// Sums split over concatenation.
pub proof fn lemma_tsum_concat(x: TModel, y: TModel)
    ensures
        tsum(x + y) == tsum(x) + tsum(y),
    decreases x.len(),
{
    if x.len() == 0 {
        assert(x + y =~= y);
    } else {
        assert((x + y)[0] == x[0]);
        assert((x + y).drop_first() =~= x.drop_first() + y);
        lemma_tsum_concat(x.drop_first(), y);
    }
}

/// Seating one tuple adds its count to the sum.
pub proof fn lemma_tsum_insert(m: TModel, p: int, e: ((Seq<char>, Seq<char>, Seq<char>), u64))
    requires
        0 <= p <= m.len(),
    ensures
        tsum(m.insert(p, e)) == tsum(m) + e.1,
{
    let ins = m.insert(p, e);
    assert(ins =~= m.take(p) + (seq![e] + m.skip(p)));
    lemma_tsum_concat(m.take(p), seq![e] + m.skip(p));
    lemma_tsum_concat(seq![e], m.skip(p));
    assert(tsum(seq![e]) == e.1 as int) by {
        assert(seq![e][0] == e);
        assert(seq![e].drop_first() =~= Seq::<((Seq<char>, Seq<char>, Seq<char>), u64)>::empty());
        assert(tsum(seq![e].drop_first()) == 0);
    }
    assert(m =~= m.take(p) + m.skip(p));
    lemma_tsum_concat(m.take(p), m.skip(p));
}

/// The sieve never holds more mass than what was sifted through it.
pub proof fn lemma_tsum_sieve(m: TModel, cap: int)
    requires
        cap >= 0,
    ensures
        0 <= tsum(spec_sieve(m, cap)) <= tsum(m),
    decreases m.len(),
{
    lemma_tsum_nonneg(spec_sieve(m, cap));
    if m.len() > 0 {
        lemma_tsum_sieve(m.drop_last(), cap);
        let acc = spec_sieve(m.drop_last(), cap);
        let e = m.last();
        lemma_insert_pos(acc, e.1);
        lemma_tsum_insert(acc, insert_pos(acc, e.1), e);
        let ins = acc.insert(insert_pos(acc, e.1), e);
        if ins.len() > cap {
            assert(ins =~= ins.take(cap) + ins.skip(cap));
            lemma_tsum_concat(ins.take(cap), ins.skip(cap));
            lemma_tsum_nonneg(ins.skip(cap));
        }
        assert(m =~= m.drop_last().push(m.last()));
        lemma_tsum_push(m.drop_last(), m.last().0, m.last().1);
        lemma_tsum_nonneg(m.drop_last());
    }
}

/// Stepping a prefix sum: one more entry, its count added.
pub proof fn lemma_tsum_take_step(m: TModel, i: int)
    requires
        0 <= i < m.len(),
    ensures
        tsum(m.take(i + 1)) == tsum(m.take(i)) + m[i].1,
{
    assert(m.take(i + 1) =~= m.take(i).push(m[i]));
    lemma_tsum_push(m.take(i), m[i].0, m[i].1);
}

/// How much of the counts of `m` sit under trigram key `(a, b, c)`.
pub open spec fn tri_total(m: TModel, a: Seq<char>, b: Seq<char>, c: Seq<char>) -> int
    decreases m.len(),
{
    if m.len() == 0 {
        0
    } else {
        tri_total(m.drop_last(), a, b, c) + if m.last().0 == (a, b, c) {
            m.last().1 as int
        } else {
            0
        }
    }
}

/// How much sits under bigram key `(b, c)`: the middle and last words.
pub open spec fn bi_total(m: TModel, b: Seq<char>, c: Seq<char>) -> int
    decreases m.len(),
{
    if m.len() == 0 {
        0
    } else {
        bi_total(m.drop_last(), b, c) + if m.last().0.1 == b && m.last().0.2 == c {
            m.last().1 as int
        } else {
            0
        }
    }
}

/// How much sits under the middle word `b` alone: the word the unigram
/// counter tallies.
pub open spec fn uni_total(m: TModel, b: Seq<char>) -> int
    decreases m.len(),
{
    if m.len() == 0 {
        0
    } else {
        uni_total(m.drop_last(), b) + if m.last().0.1 == b {
            m.last().1 as int
        } else {
            0
        }
    }
}

impl TrainingStore {
    /// Sieve the accumulator down to the `sample_size` most frequent
    /// trigrams, then roll them up into a model: each kept
    /// `((w2, w1, w0), v)` sets the trigram count, and adds `v` onto the
    /// bigram count of `(w1, w0)`, onto the counter of the middle word
    /// `w1`, and onto the total. The trie stays empty until `init_trie`.
    pub fn extract(self, sample_size: usize) -> (eng: Engine)
        requires
            self.wf(),
        ensures
            eng.wf(),
            ({
                let kept = spec_sieve(self.model(), sample_size as int);
                &&& eng.total as int == tsum(kept)
                &&& sum_counts(eng.counter.entries@) == tsum(kept)
                &&& (forall|a: Seq<char>, b: Seq<char>, c: Seq<char>|
                    (#[trigger] eng.three_gram.spec_count(a, b, c)) as int == tri_total(
                        kept,
                        a,
                        b,
                        c,
                    ))
                &&& (forall|b: Seq<char>, c: Seq<char>|
                    (#[trigger] eng.two_gram.spec_count(b, c)) as int == bi_total(
                        kept,
                        b,
                        c,
                    ))
                &&& (forall|b: Seq<char>|
                    (#[trigger] eng.counter.spec_count(b)) as int == uni_total(kept, b))
            }),
            forall|p: Seq<char>| eng.trie.has_path(p) <==> p.len() == 0,
    {
        let ghost m0 = self.model();
        let cap = sample_size;
        let mut kept: Vec<((String, String, String), u64)> = Vec::new();
        let n = self.all_tuples.len();
        proof {
            assert(m0.take(0) =~= Seq::<((Seq<char>, Seq<char>, Seq<char>), u64)>::empty());
            assert(tuples_model(kept@) =~= spec_sieve(m0.take(0), cap as int));
        }
        for i in 0..n
            invariant
                n == self.all_tuples@.len(),
                m0 == self.model(),
                m0.len() == n,
                kept@.len() <= cap,
                tuples_model(kept@) == spec_sieve(m0.take(i as int), cap as int),
        {
            let ghost km = tuples_model(kept@);
            let v = self.all_tuples[i].1;
            proof {
                assert(m0[i as int] == tentry_model(self.all_tuples@[i as int]));
                lemma_insert_pos(km, v);
            }
            let kn = kept.len();
            let mut p: usize = 0;
            while p < kn && !(kept[p].1 < v)
                invariant
                    kn == kept@.len(),
                    km == tuples_model(kept@),
                    km.len() == kn,
                    p <= kn,
                    forall|q: int| 0 <= q < p ==> (#[trigger] km[q]).1 >= v,
                decreases kn - p,
            {
                proof {
                    assert(km[p as int] == tentry_model(kept@[p as int]));
                }
                p += 1;
            }
            proof {
                if p < kn {
                    assert(km[p as int] == tentry_model(kept@[p as int]));
                    assert(km[p as int].1 < v);
                }
                assert(insert_pos(km, v) == p) by {
                    lemma_insert_pos(km, v);
                    if insert_pos(km, v) < p {
                        assert(km[insert_pos(km, v)].1 >= v);
                        assert(km[insert_pos(km, v)].1 < v);
                    } else if insert_pos(km, v) > p {
                        assert(p < kn);
                        assert(km[p as int].1 >= v);
                    }
                }
            }
            let ks = &self.all_tuples[i].0;
            let ke = ((ks.0.clone(), ks.1.clone(), ks.2.clone()), v);
            kept.insert(p, ke);
            proof {
                assert(forall|q: int|
                    0 <= q < kept@.len() ==> #[trigger] tuples_model(kept@)[q]
                        == tentry_model(kept@[q]));
                assert(tuples_model(kept@) =~= km.insert(p as int, m0[i as int]));
            }
            if kept.len() > cap {
                let ghost before = tuples_model(kept@);
                let ghost bentries = kept@;
                kept.pop();
                proof {
                    assert(kept@ =~~= bentries.drop_last());
                    assert(forall|q: int|
                        0 <= q < kept@.len() ==> #[trigger] tuples_model(kept@)[q]
                            == tentry_model(kept@[q]));
                    assert(tuples_model(kept@) =~= before.take(cap as int));
                }
            }
            proof {
                assert(m0.take(i + 1).drop_last() =~= m0.take(i as int));
                assert(m0.take(i + 1).last() == m0[i as int]);
                assert(tuples_model(kept@) =~= spec_sift(km, m0[i as int], cap as int));
            }
        }
        proof {
            assert(m0.take(n as int) =~= m0);
        }
        let ghost keptm = tuples_model(kept@);
        proof {
            lemma_tsum_sieve(m0, cap as int);
            assert(tsum(keptm) <= u64::MAX);
            assert(keptm.take(0) =~= Seq::<((Seq<char>, Seq<char>, Seq<char>), u64)>::empty());
            assert(keptm.skip(0) =~= keptm);
        }
        let mut eng = Engine::new();
        let kn = kept.len();
        for j in 0..kn
            invariant
                kn == kept@.len(),
                keptm == tuples_model(kept@),
                keptm.len() == kn,
                eng.wf(),
                forall|p: Seq<char>| #[trigger] eng.trie.has_path(p) <==> p.len() == 0,
                eng.total as int == tsum(keptm.take(j as int)),
                sum_counts(eng.counter.entries@) == tsum(keptm.take(j as int)),
                sum_counts2(eng.two_gram.entries@) == tsum(keptm.take(j as int)),
                sum_counts3(eng.three_gram.entries@) == tsum(keptm.take(j as int)),
                tsum(keptm.take(j as int)) + tsum(keptm.skip(j as int)) == tsum(keptm),
                tsum(keptm) <= u64::MAX,
                forall|a: Seq<char>, b: Seq<char>, c: Seq<char>|
                    (#[trigger] eng.three_gram.spec_count(a, b, c)) as int == tri_total(
                        keptm.take(j as int),
                        a,
                        b,
                        c,
                    ),
                forall|b: Seq<char>, c: Seq<char>|
                    (#[trigger] eng.two_gram.spec_count(b, c)) as int == bi_total(
                        keptm.take(j as int),
                        b,
                        c,
                    ),
                forall|b: Seq<char>|
                    (#[trigger] eng.counter.spec_count(b)) as int == uni_total(
                        keptm.take(j as int),
                        b,
                    ),
        {
            let v = kept[j].1;
            let ghost e = keptm[j as int];
            proof {
                assert(keptm[j as int] == tentry_model(kept@[j as int]));
                assert(keptm.skip(j as int)[0] == keptm[j as int]);
                assert(keptm.skip(j as int).drop_first() =~= keptm.skip(j + 1));
                lemma_tsum_nonneg(keptm.skip(j + 1));
                assert(v <= tsum(keptm.skip(j as int)));
                lemma_count3_le_sum3(eng.three_gram, e.0.0, e.0.1, e.0.2);
                lemma_count2_le_sum2(eng.two_gram, e.0.1, e.0.2);
                lemma_count_le_sum(eng.counter, e.0.1);
                lemma_tsum_take_step(keptm, j as int);
            }
            let k0 = &kept[j].0.0;
            let k1 = &kept[j].0.1;
            let k2 = &kept[j].0.2;
            eng.three_gram.add(k0, k1, k2, v);
            eng.two_gram.add(k1, k2, v);
            eng.counter.add(k1, v);
            eng.total = eng.total + v;
            proof {
                assert(keptm.take(j + 1).drop_last() =~= keptm.take(j as int));
                assert(keptm.take(j + 1).last() == keptm[j as int]);
            }
        }
        proof {
            assert(keptm.take(kn as int) =~= keptm);
        }
        eng
    }
}

/// Each count sits inside the total.
pub proof fn lemma_tsum_at(m: TModel, i: int)
    requires
        0 <= i < m.len(),
    ensures
        m[i].1 <= tsum(m),
    decreases m.len(),
{
    lemma_tsum_nonneg(m.drop_first());
    if i > 0 {
        lemma_tsum_at(m.drop_first(), i - 1);
        assert(m.drop_first()[i - 1] == m[i]);
        assert(m[0].1 >= 0);
    }
}

} // verus!
