//! Word-keyed count tables. Each table is an association list in first-insertion
//! order: iteration order is therefore part of every contract, which the
//! decoder's first-encountered-wins tie-breaking and the model writer rely on.
use vstd::prelude::*;

verus! {

/// The first position in `entries` whose key reads `k`; `entries.len()`
/// when no key does.
pub open spec fn key_index<V>(entries: Seq<(String, V)>, k: Seq<char>) -> int
    decreases entries.len(),
{
    if entries.len() == 0 {
        0
    } else if entries[0].0@ == k {
        0
    } else {
        1 + key_index(entries.drop_first(), k)
    }
}

/// Some entry of `entries` has key `k`.
pub open spec fn has_key<V>(entries: Seq<(String, V)>, k: Seq<char>) -> bool {
    key_index(entries, k) < entries.len()
}

/// The value stored under `k` (meaningful only when `has_key`).
pub open spec fn val_of<V>(entries: Seq<(String, V)>, k: Seq<char>) -> V {
    entries[key_index(entries, k)].1
}

/// No key reads the same as a later one.
pub open spec fn keys_unique<V>(entries: Seq<(String, V)>) -> bool {
    forall|i: int, j: int|
        0 <= i < j < entries.len() ==> (#[trigger] entries[i]).0@ != (
        #[trigger] entries[j]).0@
}

/// Where `key_index` points and what stands left of it.
pub proof fn lemma_key_index<V>(entries: Seq<(String, V)>, k: Seq<char>)
    ensures
        0 <= key_index(entries, k) <= entries.len(),
        has_key(entries, k) ==> (entries[key_index(entries, k)]).0@ == k,
        forall|i: int| 0 <= i < key_index(entries, k) ==> (#[trigger] entries[i]).0@ != k,
    decreases entries.len(),
{
    if entries.len() > 0 && entries[0].0@ != k {
        lemma_key_index(entries.drop_first(), k);
        assert(forall|i: int|
            0 <= i < entries.drop_first().len() ==> #[trigger] entries.drop_first()[i]
                == entries[i + 1]);
        assert forall|i: int| 1 <= i < entries.len() implies (#[trigger] entries[i])
            == entries.drop_first()[i - 1] by {
            assert(entries.drop_first()[i - 1] == entries[i]);
        }
    }
}

/// `key_index` reads the keys alone: tables with equal key columns agree.
pub proof fn lemma_key_index_same_keys<V, W>(a: Seq<(String, V)>, b: Seq<(String, W)>, k: Seq<char>)
    requires
        a.len() == b.len(),
        forall|i: int| 0 <= i < a.len() ==> (#[trigger] a[i]).0@ == (#[trigger] b[i]).0@,
    ensures
        key_index(a, k) == key_index(b, k),
    decreases a.len(),
{
    if a.len() > 0 && a[0].0@ != k {
        assert(forall|i: int|
            0 <= i < a.drop_first().len() ==> (#[trigger] a.drop_first()[i]) == a[i + 1]
                && (#[trigger] b.drop_first()[i]) == b[i + 1]);
        lemma_key_index_same_keys(a.drop_first(), b.drop_first(), k);
    }
}

/// Appending a fresh key: old keys keep their place, the new one stands last,
/// and every other key stays absent.
pub proof fn lemma_key_index_push<V>(entries: Seq<(String, V)>, s: String, v: V, d: Seq<char>)
    ensures
        key_index(entries.push((s, v)), d) == if has_key(entries, d) {
            key_index(entries, d)
        } else if s@ == d {
            entries.len() as int
        } else {
            entries.len() + 1 as int
        },
    decreases entries.len(),
{
    let pushed = entries.push((s, v));
    lemma_key_index(entries, d);
    if entries.len() == 0 {
        assert(pushed[0] == (s, v));
        if s@ == d {
            assert(key_index(pushed, d) == 0);
        } else {
            assert(pushed.drop_first() =~~= Seq::<(String, V)>::empty());
            assert(key_index(pushed.drop_first(), d) == 0);
            assert(key_index(pushed, d) == 1);
        }
    } else {
        assert(pushed[0] == entries[0]);
        if entries[0].0@ == d {
            assert(key_index(pushed, d) == 0);
            assert(key_index(entries, d) == 0);
        } else {
            assert(pushed.drop_first() =~~= entries.drop_first().push((s, v)));
            lemma_key_index_push(entries.drop_first(), s, v, d);
            lemma_key_index(entries.drop_first(), d);
            assert(key_index(pushed, d) == 1 + key_index(pushed.drop_first(), d));
            assert(key_index(pushed.drop_first(), d) == key_index(
                entries.drop_first().push((s, v)),
                d,
            ));
            assert(key_index(entries, d) == 1 + key_index(entries.drop_first(), d));
        }
    }
}

/// Updating the value under one slot moves no key.
pub proof fn lemma_key_index_update<V>(entries: Seq<(String, V)>, j: int, v: V, d: Seq<char>)
    requires
        0 <= j < entries.len(),
    ensures
        key_index(entries.update(j, ((entries[j]).0, v)), d) == key_index(entries, d),
    decreases entries.len(),
{
    let upd = entries.update(j, ((entries[j]).0, v));
    assert(forall|i: int|
        0 <= i < entries.len() ==> ((#[trigger] upd[i]).0@ == (entries[i]).0@));
    lemma_key_index_same_keys(upd, entries, d);
}

/// A table from a word to how often it was seen.
pub struct CountMap {
    pub entries: Vec<(String, u64)>,
}

/// The counts of `entries`, added up.
pub open spec fn sum_counts(entries: Seq<(String, u64)>) -> int
    decreases entries.len(),
{
    if entries.len() == 0 {
        0
    } else {
        entries[0].1 + sum_counts(entries.drop_first())
    }
}

/// Every count sits inside the sum, when no count is negative (they are
/// `u64`, so none is).
pub proof fn lemma_sum_counts_bound(entries: Seq<(String, u64)>, i: int)
    requires
        0 <= i < entries.len(),
    ensures
        entries[i].1 <= sum_counts(entries),
        sum_counts(entries) >= 0,
    decreases entries.len(),
{
    lemma_sum_counts_nonneg(entries);
    if i == 0 {
        lemma_sum_counts_nonneg(entries.drop_first());
    } else {
        lemma_sum_counts_bound(entries.drop_first(), i - 1);
        assert(entries.drop_first()[i - 1] == entries[i]);
    }
}

pub proof fn lemma_sum_counts_nonneg(entries: Seq<(String, u64)>)
    ensures
        sum_counts(entries) >= 0,
    decreases entries.len(),
{
    if entries.len() > 0 {
        lemma_sum_counts_nonneg(entries.drop_first());
    }
}

/// Appending grows the sum by the new count.
pub proof fn lemma_sum_counts_push(entries: Seq<(String, u64)>, s: String, v: u64)
    ensures
        sum_counts(entries.push((s, v))) == sum_counts(entries) + v,
    decreases entries.len(),
{
    let pushed = entries.push((s, v));
    if entries.len() == 0 {
        assert(pushed[0] == (s, v));
        assert(pushed.drop_first() =~~= Seq::<(String, u64)>::empty());
        assert(sum_counts(pushed.drop_first()) == 0);
        assert(sum_counts(pushed) == pushed[0].1 + sum_counts(pushed.drop_first()));
    } else {
        assert(pushed[0] == entries[0]);
        assert(pushed.drop_first() =~~= entries.drop_first().push((s, v)));
        lemma_sum_counts_push(entries.drop_first(), s, v);
        assert(sum_counts(pushed.drop_first()) == sum_counts(entries.drop_first()) + v);
        assert(sum_counts(pushed) == pushed[0].1 + sum_counts(pushed.drop_first()));
        assert(sum_counts(entries) == entries[0].1 + sum_counts(entries.drop_first()));
    }
}

/// Raising one count raises the sum by the difference.
pub proof fn lemma_sum_counts_update(entries: Seq<(String, u64)>, j: int, v: u64)
    requires
        0 <= j < entries.len(),
    ensures
        sum_counts(entries.update(j, ((entries[j]).0, v))) == sum_counts(entries) + v
            - entries[j].1,
    decreases entries.len(),
{
    let upd = entries.update(j, ((entries[j]).0, v));
    if j == 0 {
        assert(upd[0] == ((entries[0]).0, v));
        assert(upd.drop_first() =~~= entries.drop_first());
    } else {
        assert(upd[0] == entries[0]);
        assert(upd.drop_first() =~~= entries.drop_first().update(j - 1, ((entries[j]).0, v)));
        assert(entries.drop_first()[j - 1] == entries[j]);
        lemma_sum_counts_update(entries.drop_first(), j - 1, v);
    }
}

impl CountMap {
    pub open spec fn wf(self) -> bool {
        keys_unique(self.entries@)
    }

    /// The count under `k`, `0` when `k` is unknown: missing lookups read
    /// as zero everywhere in the scorer.
    pub open spec fn spec_count(self, k: Seq<char>) -> u64 {
        if has_key(self.entries@, k) {
            val_of(self.entries@, k)
        } else {
            0
        }
    }

    pub fn new() -> (r: CountMap)
        ensures
            r.wf(),
            r.entries@.len() == 0,
    {
        CountMap { entries: Vec::new() }
    }

    /// Where `k` stands among the entries, if anywhere.
    fn find(&self, k: &String) -> (r: Option<usize>)
        ensures
            match r {
                Some(j) => j == key_index(self.entries@, k@) && j < self.entries@.len(),
                None => !has_key(self.entries@, k@),
            },
    {
        let n = self.entries.len();
        assert(self.entries@.skip(0) =~~= self.entries@);
        for j in 0..n
            invariant
                n == self.entries@.len(),
                key_index(self.entries@, k@) == j + key_index(
                    self.entries@.skip(j as int),
                    k@,
                ),
        {
            proof {
                assert(self.entries@.skip(j as int)[0] == self.entries@[j as int]);
                assert(self.entries@.skip(j as int).drop_first() =~~= self.entries@.skip(
                    j + 1,
                ));
                lemma_key_index(self.entries@.skip(j + 1), k@);
            }
            if self.entries[j].0 == *k {
                return Some(j);
            }
        }
        proof {
            assert(self.entries@.skip(n as int).len() == 0);
        }
        None
    }

    /// The stored count of `k`, zero when absent.
    pub fn get(&self, k: &String) -> (r: u64)
        ensures
            r == self.spec_count(k@),
    {
        match self.find(k) {
            Some(j) => {
                proof {
                    lemma_key_index(self.entries@, k@);
                }
                self.entries[j].1
            },
            None => 0,
        }
    }

    /// Add `v` onto the count of `k`, seating `k` last when new.
    pub fn add(&mut self, k: &String, v: u64)
        requires
            old(self).wf(),
            old(self).spec_count(k@) + v <= u64::MAX,
        ensures
            final(self).wf(),
            final(self).entries@ == if has_key(old(self).entries@, k@) {
                old(self).entries@.update(
                    key_index(old(self).entries@, k@),
                    ((old(self).entries@[key_index(old(self).entries@, k@)]).0, (
                    old(self).spec_count(k@) + v) as u64),
                )
            } else {
                old(self).entries@.push((*k, v))
            },
            forall|d: Seq<char>|
                #[trigger] final(self).spec_count(d) == if d == k@ {
                    (old(self).spec_count(k@) + v) as u64
                } else {
                    old(self).spec_count(d)
                },
            sum_counts(final(self).entries@) == sum_counts(old(self).entries@) + v,
            final(self).entries@.len() >= old(self).entries@.len(),
    {
        let ghost pre = self.entries@;
        match self.find(k) {
            Some(j) => {
                proof {
                    lemma_key_index(pre, k@);
                }
                let c = self.entries[j].1;
                let ghost kept = (self.entries@[j as int]).0;
                let newc = c + v;
                let key_clone = self.entries[j].0.clone();
                self.entries[j] = (key_clone, newc);
                proof {
                    assert(self.entries@ =~~= pre.update(j as int, (kept, newc)));
                    assert(self.wf()) by {
                        assert(forall|i: int|
                            0 <= i < pre.len() ==> (#[trigger] self.entries@[i]).0@ == (
                            pre[i]).0@);
                    }
                    lemma_sum_counts_update(pre, j as int, newc);
                    assert forall|d: Seq<char>|
                        #[trigger] self.spec_count(d) == if d == k@ {
                            (old(self).spec_count(k@) + v) as u64
                        } else {
                            old(self).spec_count(d)
                        } by {
                        lemma_key_index_update(pre, j as int, newc, d);
                        lemma_key_index(self.entries@, d);
                        lemma_key_index(pre, d);
                    }
                }
            },
            None => {
                let key_clone = k.clone();
                self.entries.push((key_clone, v));
                proof {
                    assert(self.entries@ =~~= pre.push((*k, v)));
                    lemma_sum_counts_push(pre, *k, v);
                    assert forall|d: Seq<char>|
                        #[trigger] self.spec_count(d) == if d == k@ {
                            (old(self).spec_count(k@) + v) as u64
                        } else {
                            old(self).spec_count(d)
                        } by {
                        lemma_key_index_push(pre, *k, v, d);
                        lemma_key_index(self.entries@, d);
                        lemma_key_index(pre, d);
                    }
                    assert(self.wf()) by {
                        lemma_key_index(pre, k@);
                        assert(forall|i: int|
                            0 <= i < pre.len() ==> #[trigger] self.entries@[i] == pre[i]);
                    }
                }
            },
        }
    }
}

/// A two-level table: the count of word `b` following word `a`.
pub struct TableTwo {
    pub entries: Vec<(String, CountMap)>,
}

/// All counts of a two-level table, added up.
pub open spec fn sum_counts2(entries: Seq<(String, CountMap)>) -> int
    decreases entries.len(),
{
    if entries.len() == 0 {
        0
    } else {
        sum_counts(entries[0].1.entries@) + sum_counts2(entries.drop_first())
    }
}

pub proof fn lemma_sum_counts2_nonneg(entries: Seq<(String, CountMap)>)
    ensures
        sum_counts2(entries) >= 0,
    decreases entries.len(),
{
    if entries.len() > 0 {
        lemma_sum_counts_nonneg(entries[0].1.entries@);
        lemma_sum_counts2_nonneg(entries.drop_first());
    }
}

/// Each row's sum sits inside the table's sum.
pub proof fn lemma_sum_counts2_bound(entries: Seq<(String, CountMap)>, i: int)
    requires
        0 <= i < entries.len(),
    ensures
        sum_counts(entries[i].1.entries@) <= sum_counts2(entries),
    decreases entries.len(),
{
    lemma_sum_counts_nonneg(entries[0].1.entries@);
    lemma_sum_counts2_nonneg(entries.drop_first());
    if i > 0 {
        lemma_sum_counts2_bound(entries.drop_first(), i - 1);
        assert(entries.drop_first()[i - 1] == entries[i]);
    }
}

pub proof fn lemma_sum_counts2_push(entries: Seq<(String, CountMap)>, s: String, m: CountMap)
    ensures
        sum_counts2(entries.push((s, m))) == sum_counts2(entries) + sum_counts(m.entries@),
    decreases entries.len(),
{
    let pushed = entries.push((s, m));
    if entries.len() == 0 {
        assert(pushed[0] == (s, m));
        assert(pushed.drop_first() =~~= Seq::<(String, CountMap)>::empty());
        assert(sum_counts2(pushed.drop_first()) == 0);
        assert(sum_counts2(pushed) == sum_counts(m.entries@) + sum_counts2(
            pushed.drop_first(),
        ));
    } else {
        assert(pushed[0] == entries[0]);
        assert(pushed.drop_first() =~~= entries.drop_first().push((s, m)));
        lemma_sum_counts2_push(entries.drop_first(), s, m);
        assert(sum_counts2(pushed) == sum_counts(entries[0].1.entries@) + sum_counts2(
            pushed.drop_first(),
        ));
        assert(sum_counts2(entries) == sum_counts(entries[0].1.entries@) + sum_counts2(
            entries.drop_first(),
        ));
    }
}

pub proof fn lemma_sum_counts2_update(entries: Seq<(String, CountMap)>, j: int, m: CountMap)
    requires
        0 <= j < entries.len(),
    ensures
        sum_counts2(entries.update(j, ((entries[j]).0, m))) == sum_counts2(entries)
            + sum_counts(m.entries@) - sum_counts(entries[j].1.entries@),
    decreases entries.len(),
{
    let upd = entries.update(j, ((entries[j]).0, m));
    if j == 0 {
        assert(upd[0] == ((entries[0]).0, m));
        assert(upd.drop_first() =~~= entries.drop_first());
        assert(sum_counts2(upd) == sum_counts(m.entries@) + sum_counts2(upd.drop_first()));
        assert(sum_counts2(entries) == sum_counts(entries[0].1.entries@) + sum_counts2(
            entries.drop_first(),
        ));
    } else {
        assert(upd[0] == entries[0]);
        assert(upd.drop_first() =~~= entries.drop_first().update(j - 1, ((entries[j]).0, m)));
        assert(entries.drop_first()[j - 1] == entries[j]);
        lemma_sum_counts2_update(entries.drop_first(), j - 1, m);
        assert(sum_counts2(upd) == sum_counts(entries[0].1.entries@) + sum_counts2(
            upd.drop_first(),
        ));
        assert(sum_counts2(entries) == sum_counts(entries[0].1.entries@) + sum_counts2(
            entries.drop_first(),
        ));
    }
}

impl TableTwo {
    pub open spec fn wf(self) -> bool {
        &&& keys_unique(self.entries@)
        &&& (forall|i: int|
            0 <= i < self.entries@.len() ==> (#[trigger] self.entries@[i]).1.wf())
    }

    /// The row of counts under first word `a`, if it exists.
    pub open spec fn spec_row(self, a: Seq<char>) -> Option<CountMap> {
        if has_key(self.entries@, a) {
            Some(val_of(self.entries@, a))
        } else {
            None
        }
    }

    /// The count of `b` after `a`; zero where nothing was recorded.
    pub open spec fn spec_count(self, a: Seq<char>, b: Seq<char>) -> u64 {
        match self.spec_row(a) {
            Some(m) => m.spec_count(b),
            None => 0,
        }
    }

    pub fn new() -> (r: TableTwo)
        ensures
            r.wf(),
            r.entries@.len() == 0,
            forall|a: Seq<char>, b: Seq<char>| #[trigger] r.spec_count(a, b) == 0,
            sum_counts2(r.entries@) == 0,
    {
        let r = TableTwo { entries: Vec::new() };
        assert forall|a: Seq<char>, b: Seq<char>| #[trigger] r.spec_count(a, b) == 0 by {
            assert(key_index(r.entries@, a) == 0);
        }
        r
    }

    fn find(&self, k: &String) -> (r: Option<usize>)
        ensures
            match r {
                Some(j) => j == key_index(self.entries@, k@) && j < self.entries@.len(),
                None => !has_key(self.entries@, k@),
            },
    {
        let n = self.entries.len();
        assert(self.entries@.skip(0) =~~= self.entries@);
        for j in 0..n
            invariant
                n == self.entries@.len(),
                key_index(self.entries@, k@) == j + key_index(
                    self.entries@.skip(j as int),
                    k@,
                ),
        {
            proof {
                assert(self.entries@.skip(j as int)[0] == self.entries@[j as int]);
                assert(self.entries@.skip(j as int).drop_first() =~~= self.entries@.skip(
                    j + 1,
                ));
                lemma_key_index(self.entries@.skip(j + 1), k@);
            }
            if self.entries[j].0 == *k {
                return Some(j);
            }
        }
        proof {
            assert(self.entries@.skip(n as int).len() == 0);
        }
        None
    }

    /// The row under `a`, if any.
    pub fn get(&self, a: &String) -> (r: Option<&CountMap>)
        ensures
            match r {
                Some(m) => self.spec_row(a@) == Some(*m),
                None => self.spec_row(a@) is None,
            },
    {
        match self.find(a) {
            Some(j) => {
                proof {
                    lemma_key_index(self.entries@, a@);
                }
                Some(&self.entries[j].1)
            },
            None => None,
        }
    }

    /// Add `v` onto the count of `b` after `a`.
    pub fn add(&mut self, a: &String, b: &String, v: u64)
        requires
            old(self).wf(),
            old(self).spec_count(a@, b@) + v <= u64::MAX,
        ensures
            final(self).wf(),
            forall|x: Seq<char>, y: Seq<char>|
                #[trigger] final(self).spec_count(x, y) == if x == a@ && y == b@ {
                    (old(self).spec_count(a@, b@) + v) as u64
                } else {
                    old(self).spec_count(x, y)
                },
            sum_counts2(final(self).entries@) == sum_counts2(old(self).entries@) + v,
    {
        let ghost pre = self.entries@;
        let j = match self.find(a) {
            Some(j) => j,
            None => {
                let key_clone = a.clone();
                self.entries.push((key_clone, CountMap::new()));
                self.entries.len() - 1
            },
        };
        let ghost mid = self.entries@;
        let ghost row = (self.entries@[j as int]).1;
        proof {
            lemma_key_index(pre, a@);
            if has_key(pre, a@) {
                assert(mid == pre);
                assert(j == key_index(pre, a@));
                assert((mid[j as int]).0@ == a@);
            } else {
                assert(mid =~~= pre.push((*a, row)));
                assert(row.entries@.len() == 0);
                assert((mid[j as int]).0@ == a@);
                assert forall|d: Seq<char>| true implies key_index(mid, d) == if has_key(
                    pre,
                    d,
                ) {
                    key_index(pre, d)
                } else if d == a@ {
                    pre.len() as int
                } else {
                    pre.len() + 1 as int
                } by {
                    lemma_key_index_push(pre, *a, row, d);
                }
                assert(keys_unique(mid)) by {
                    assert(forall|i: int| 0 <= i < pre.len() ==> #[trigger] mid[i] == pre[i]);
                }
                lemma_sum_counts2_push(pre, *a, row);
            }
            assert(row.wf());
            assert(row.spec_count(b@) == old(self).spec_count(a@, b@)) by {
                if !has_key(pre, a@) {
                    assert(key_index(row.entries@, b@) == 0);
                }
            }
        }
        self.entries[j].1.add(b, v);
        proof {
            let post = self.entries@;
            let row2 = (post[j as int]).1;
            assert(post =~~= mid.update(j as int, ((mid[j as int]).0, row2)));
            assert forall|d: Seq<char>| true implies key_index(post, d) == key_index(
                mid,
                d,
            ) by {
                lemma_key_index_update(mid, j as int, row2, d);
            }
            lemma_sum_counts2_update(mid, j as int, row2);
            assert(keys_unique(post)) by {
                assert(forall|i: int|
                    0 <= i < mid.len() ==> (#[trigger] post[i]).0@ == (mid[i]).0@);
            }
            assert(final(self).wf()) by {
                assert(forall|i: int|
                    0 <= i < mid.len() && i != j ==> #[trigger] post[i] == mid[i]);
            }
            assert forall|x: Seq<char>, y: Seq<char>|
                #[trigger] self.spec_count(x, y) == if x == a@ && y == b@ {
                    (old(self).spec_count(a@, b@) + v) as u64
                } else {
                    old(self).spec_count(x, y)
                } by {
                lemma_key_index(post, x);
                lemma_key_index(mid, x);
                lemma_key_index(pre, x);
                if x == a@ {
                    assert(key_index(post, x) == j);
                    assert((post[j as int]).1 == row2);
                } else {
                    if has_key(post, x) {
                        assert(key_index(post, x) != j);
                        assert(post[key_index(post, x)] == mid[key_index(mid, x)]);
                        if !has_key(pre, a@) {
                            assert(key_index(mid, x) < pre.len());
                            assert(mid[key_index(mid, x)] == pre[key_index(pre, x)]);
                        }
                    } else {
                        if !has_key(pre, a@) {
                            assert(!has_key(pre, x));
                        }
                    }
                }
            }
        }
    }
}

/// A stored count never exceeds the table's sum.
pub proof fn lemma_count_le_sum(cm: CountMap, k: Seq<char>)
    ensures
        0 <= cm.spec_count(k) <= sum_counts(cm.entries@),
{
    lemma_sum_counts_nonneg(cm.entries@);
    if has_key(cm.entries@, k) {
        lemma_key_index(cm.entries@, k);
        lemma_sum_counts_bound(cm.entries@, key_index(cm.entries@, k));
    }
}

/// A stored count never exceeds the two-level table's sum.
pub proof fn lemma_count2_le_sum2(t: TableTwo, a: Seq<char>, b: Seq<char>)
    ensures
        0 <= t.spec_count(a, b) <= sum_counts2(t.entries@),
{
    lemma_sum_counts2_nonneg(t.entries@);
    if has_key(t.entries@, a) {
        lemma_key_index(t.entries@, a);
        let j = key_index(t.entries@, a);
        lemma_count_le_sum(t.entries@[j].1, b);
        lemma_sum_counts2_bound(t.entries@, j);
    }
}

/// A three-level table: the count of word `c` after the pair `(a, b)`.
pub struct TableThree {
    pub entries: Vec<(String, TableTwo)>,
}

/// All counts of a three-level table, added up.
pub open spec fn sum_counts3(entries: Seq<(String, TableTwo)>) -> int
    decreases entries.len(),
{
    if entries.len() == 0 {
        0
    } else {
        sum_counts2(entries[0].1.entries@) + sum_counts3(entries.drop_first())
    }
}

pub proof fn lemma_sum_counts3_nonneg(entries: Seq<(String, TableTwo)>)
    ensures
        sum_counts3(entries) >= 0,
    decreases entries.len(),
{
    if entries.len() > 0 {
        lemma_sum_counts2_nonneg(entries[0].1.entries@);
        lemma_sum_counts3_nonneg(entries.drop_first());
    }
}

pub proof fn lemma_sum_counts3_push(entries: Seq<(String, TableTwo)>, s: String, m: TableTwo)
    ensures
        sum_counts3(entries.push((s, m))) == sum_counts3(entries) + sum_counts2(m.entries@),
    decreases entries.len(),
{
    let pushed = entries.push((s, m));
    if entries.len() == 0 {
        assert(pushed[0] == (s, m));
        assert(pushed.drop_first() =~~= Seq::<(String, TableTwo)>::empty());
        assert(sum_counts3(pushed.drop_first()) == 0);
        assert(sum_counts3(pushed) == sum_counts2(m.entries@) + sum_counts3(
            pushed.drop_first(),
        ));
    } else {
        assert(pushed[0] == entries[0]);
        assert(pushed.drop_first() =~~= entries.drop_first().push((s, m)));
        lemma_sum_counts3_push(entries.drop_first(), s, m);
        assert(sum_counts3(pushed) == sum_counts2(entries[0].1.entries@) + sum_counts3(
            pushed.drop_first(),
        ));
        assert(sum_counts3(entries) == sum_counts2(entries[0].1.entries@) + sum_counts3(
            entries.drop_first(),
        ));
    }
}

pub proof fn lemma_sum_counts3_update(entries: Seq<(String, TableTwo)>, j: int, m: TableTwo)
    requires
        0 <= j < entries.len(),
    ensures
        sum_counts3(entries.update(j, ((entries[j]).0, m))) == sum_counts3(entries)
            + sum_counts2(m.entries@) - sum_counts2(entries[j].1.entries@),
    decreases entries.len(),
{
    let upd = entries.update(j, ((entries[j]).0, m));
    if j == 0 {
        assert(upd[0] == ((entries[0]).0, m));
        assert(upd.drop_first() =~~= entries.drop_first());
        assert(sum_counts3(upd) == sum_counts2(m.entries@) + sum_counts3(upd.drop_first()));
        assert(sum_counts3(entries) == sum_counts2(entries[0].1.entries@) + sum_counts3(
            entries.drop_first(),
        ));
    } else {
        assert(upd[0] == entries[0]);
        assert(upd.drop_first() =~~= entries.drop_first().update(j - 1, ((entries[j]).0, m)));
        assert(entries.drop_first()[j - 1] == entries[j]);
        lemma_sum_counts3_update(entries.drop_first(), j - 1, m);
        assert(sum_counts3(upd) == sum_counts2(entries[0].1.entries@) + sum_counts3(
            upd.drop_first(),
        ));
        assert(sum_counts3(entries) == sum_counts2(entries[0].1.entries@) + sum_counts3(
            entries.drop_first(),
        ));
    }
}

/// Each row's sum sits inside the three-level table's sum.
pub proof fn lemma_sum_counts3_bound(entries: Seq<(String, TableTwo)>, i: int)
    requires
        0 <= i < entries.len(),
    ensures
        sum_counts2(entries[i].1.entries@) <= sum_counts3(entries),
    decreases entries.len(),
{
    lemma_sum_counts2_nonneg(entries[0].1.entries@);
    lemma_sum_counts3_nonneg(entries.drop_first());
    if i > 0 {
        lemma_sum_counts3_bound(entries.drop_first(), i - 1);
        assert(entries.drop_first()[i - 1] == entries[i]);
    }
}

/// A stored count never exceeds the three-level table's sum.
pub proof fn lemma_count3_le_sum3(t: TableThree, a: Seq<char>, b: Seq<char>, c: Seq<char>)
    ensures
        0 <= t.spec_count(a, b, c) <= sum_counts3(t.entries@),
{
    lemma_sum_counts3_nonneg(t.entries@);
    if has_key(t.entries@, a) {
        lemma_key_index(t.entries@, a);
        let j = key_index(t.entries@, a);
        lemma_count2_le_sum2(t.entries@[j].1, b, c);
        lemma_sum_counts3_bound(t.entries@, j);
    }
}

impl TableThree {
    pub open spec fn wf(self) -> bool {
        &&& keys_unique(self.entries@)
        &&& (forall|i: int|
            0 <= i < self.entries@.len() ==> (#[trigger] self.entries@[i]).1.wf())
    }

    /// The two-level table under first word `a`, if it exists.
    pub open spec fn spec_row(self, a: Seq<char>) -> Option<TableTwo> {
        if has_key(self.entries@, a) {
            Some(val_of(self.entries@, a))
        } else {
            None
        }
    }

    /// The count of `c` after the pair `(a, b)`; zero where nothing was
    /// recorded.
    pub open spec fn spec_count(self, a: Seq<char>, b: Seq<char>, c: Seq<char>) -> u64 {
        match self.spec_row(a) {
            Some(m) => m.spec_count(b, c),
            None => 0,
        }
    }

    pub fn new() -> (r: TableThree)
        ensures
            r.wf(),
            r.entries@.len() == 0,
            forall|a: Seq<char>, b: Seq<char>, c: Seq<char>| #[trigger] r.spec_count(a, b, c)
                == 0,
            sum_counts3(r.entries@) == 0,
    {
        let r = TableThree { entries: Vec::new() };
        assert forall|a: Seq<char>, b: Seq<char>, c: Seq<char>| #[trigger] r.spec_count(
            a,
            b,
            c,
        ) == 0 by {
            assert(key_index(r.entries@, a) == 0);
        }
        r
    }

    fn find(&self, k: &String) -> (r: Option<usize>)
        ensures
            match r {
                Some(j) => j == key_index(self.entries@, k@) && j < self.entries@.len(),
                None => !has_key(self.entries@, k@),
            },
    {
        let n = self.entries.len();
        assert(self.entries@.skip(0) =~~= self.entries@);
        for j in 0..n
            invariant
                n == self.entries@.len(),
                key_index(self.entries@, k@) == j + key_index(
                    self.entries@.skip(j as int),
                    k@,
                ),
        {
            proof {
                assert(self.entries@.skip(j as int)[0] == self.entries@[j as int]);
                assert(self.entries@.skip(j as int).drop_first() =~~= self.entries@.skip(
                    j + 1,
                ));
                lemma_key_index(self.entries@.skip(j + 1), k@);
            }
            if self.entries[j].0 == *k {
                return Some(j);
            }
        }
        proof {
            assert(self.entries@.skip(n as int).len() == 0);
        }
        None
    }

    /// The two-level table under `a`, if any.
    pub fn get(&self, a: &String) -> (r: Option<&TableTwo>)
        ensures
            match r {
                Some(m) => self.spec_row(a@) == Some(*m),
                None => self.spec_row(a@) is None,
            },
    {
        match self.find(a) {
            Some(j) => {
                proof {
                    lemma_key_index(self.entries@, a@);
                }
                Some(&self.entries[j].1)
            },
            None => None,
        }
    }

    /// Add `v` onto the count of `c` after `(a, b)`.
    pub fn add(&mut self, a: &String, b: &String, c: &String, v: u64)
        requires
            old(self).wf(),
            old(self).spec_count(a@, b@, c@) + v <= u64::MAX,
        ensures
            final(self).wf(),
            forall|x: Seq<char>, y: Seq<char>, z: Seq<char>|
                #[trigger] final(self).spec_count(x, y, z) == if x == a@ && y == b@ && z
                    == c@ {
                    (old(self).spec_count(a@, b@, c@) + v) as u64
                } else {
                    old(self).spec_count(x, y, z)
                },
            sum_counts3(final(self).entries@) == sum_counts3(old(self).entries@) + v,
    {
        let ghost pre = self.entries@;
        let j = match self.find(a) {
            Some(j) => j,
            None => {
                let key_clone = a.clone();
                self.entries.push((key_clone, TableTwo::new()));
                self.entries.len() - 1
            },
        };
        let ghost mid = self.entries@;
        let ghost row = (self.entries@[j as int]).1;
        proof {
            lemma_key_index(pre, a@);
            if has_key(pre, a@) {
                assert(mid == pre);
                assert(j == key_index(pre, a@));
                assert((mid[j as int]).0@ == a@);
            } else {
                assert(mid =~~= pre.push((*a, row)));
                assert(row.entries@.len() == 0);
                assert((mid[j as int]).0@ == a@);
                assert forall|d: Seq<char>| true implies key_index(mid, d) == if has_key(
                    pre,
                    d,
                ) {
                    key_index(pre, d)
                } else if d == a@ {
                    pre.len() as int
                } else {
                    pre.len() + 1 as int
                } by {
                    lemma_key_index_push(pre, *a, row, d);
                }
                assert(keys_unique(mid)) by {
                    assert(forall|i: int| 0 <= i < pre.len() ==> #[trigger] mid[i] == pre[i]);
                }
                lemma_sum_counts3_push(pre, *a, row);
            }
            assert(row.wf());
            assert(row.spec_count(b@, c@) == old(self).spec_count(a@, b@, c@)) by {
                if !has_key(pre, a@) {
                    assert(key_index(row.entries@, b@) == 0);
                }
            }
        }
        self.entries[j].1.add(b, c, v);
        proof {
            let post = self.entries@;
            let row2 = (post[j as int]).1;
            assert(post =~~= mid.update(j as int, ((mid[j as int]).0, row2)));
            assert forall|d: Seq<char>| true implies key_index(post, d) == key_index(
                mid,
                d,
            ) by {
                lemma_key_index_update(mid, j as int, row2, d);
            }
            lemma_sum_counts3_update(mid, j as int, row2);
            assert(keys_unique(post)) by {
                assert(forall|i: int|
                    0 <= i < mid.len() ==> (#[trigger] post[i]).0@ == (mid[i]).0@);
            }
            assert(final(self).wf()) by {
                assert(forall|i: int|
                    0 <= i < mid.len() && i != j ==> #[trigger] post[i] == mid[i]);
            }
            assert forall|x: Seq<char>, y: Seq<char>, z: Seq<char>|
                #[trigger] self.spec_count(x, y, z) == if x == a@ && y == b@ && z == c@ {
                    (old(self).spec_count(a@, b@, c@) + v) as u64
                } else {
                    old(self).spec_count(x, y, z)
                } by {
                lemma_key_index(post, x);
                lemma_key_index(mid, x);
                lemma_key_index(pre, x);
                if x == a@ {
                    assert(key_index(post, x) == j);
                    assert((post[j as int]).1 == row2);
                } else {
                    if has_key(post, x) {
                        assert(key_index(post, x) != j);
                        assert(post[key_index(post, x)] == mid[key_index(mid, x)]);
                        if !has_key(pre, a@) {
                            assert(key_index(mid, x) < pre.len());
                            assert(mid[key_index(mid, x)] == pre[key_index(pre, x)]);
                        }
                    } else {
                        if !has_key(pre, a@) {
                            assert(!has_key(pre, x));
                        }
                    }
                }
            }
        }
    }
}

} // verus!
