//! The reverse character trie: words known to the model are inserted with
//! their characters reversed, so a root path spells a word right to left.
//! Candidate expansion asks one question of it: does this reversed prefix
//! belong to some known word?
use vstd::prelude::*;

verus! {

/// One trie node; `kids` maps a character to the child node reached by it.
pub struct Trie {
    pub kids: Vec<(char, Trie)>,
}

/// The child of `kids` labelled `c`, searching front to back.
pub open spec fn child_at(kids: Seq<(char, Trie)>, c: char) -> Option<Trie>
    decreases kids.len(),
{
    if kids.len() == 0 {
        None
    } else if kids[0].0 == c {
        Some(kids[0].1)
    } else {
        child_at(kids.drop_first(), c)
    }
}

/// `p` is a prefix of `q`.
pub open spec fn is_prefix(p: Seq<char>, q: Seq<char>) -> bool {
    p.len() <= q.len() && p == q.take(p.len() as int)
}

/// `child_at` misses `c` exactly when no entry carries that label.
proof fn lemma_child_at_none(kids: Seq<(char, Trie)>, c: char)
    ensures
        child_at(kids, c) is None <==> forall|i: int| 0 <= i < kids.len() ==> (
        #[trigger] kids[i]).0 != c,
    decreases kids.len(),
{
    if kids.len() > 0 {
        lemma_child_at_none(kids.drop_first(), c);
        assert(forall|i: int|
            0 <= i < kids.drop_first().len() ==> #[trigger] kids.drop_first()[i] == kids[i
                + 1]);
        assert forall|i: int| 1 <= i < kids.len() implies (#[trigger] kids[i])
            == kids.drop_first()[i - 1] by {
            assert(kids.drop_first()[i - 1] == kids[i]);
        }
    }
}

/// Appending a fresh label reaches the new child; the others keep theirs.
proof fn lemma_child_at_push(kids: Seq<(char, Trie)>, c: char, t: Trie)
    requires
        child_at(kids, c) is None,
    ensures
        child_at(kids.push((c, t)), c) == Some(t),
        forall|d: char|
            d != c ==> child_at(kids.push((c, t)), d) == child_at(kids, d),
    decreases kids.len(),
{
    let pushed = kids.push((c, t));
    if kids.len() == 0 {
        assert(pushed[0] == (c, t));
        assert(child_at(pushed, c) == Some(t));
        assert forall|d: char| d != c implies child_at(pushed, d) == child_at(kids, d) by {
            assert(pushed.drop_first() =~~= kids);
            assert(child_at(pushed, d) == child_at(kids, d));
        }
    } else {
        assert(pushed[0] == kids[0]);
        assert(pushed.drop_first() =~~= kids.drop_first().push((c, t)));
        lemma_child_at_push(kids.drop_first(), c, t);
        assert(child_at(pushed, c) == Some(t));
        assert forall|d: char| d != c implies child_at(pushed, d) == child_at(kids, d) by {
            if d != kids[0].0 {
                assert(child_at(pushed, d) == child_at(kids.drop_first().push((c, t)), d));
                assert(child_at(kids.drop_first().push((c, t)), d) == child_at(
                    kids.drop_first(),
                    d,
                ));
            }
        }
    }
}

/// Replacing the child under one label leaves every other label alone.
proof fn lemma_child_at_update(kids: Seq<(char, Trie)>, j: int, t: Trie)
    requires
        0 <= j < kids.len(),
        forall|a: int, b: int|
            0 <= a < b < kids.len() ==> (#[trigger] kids[a]).0 != (#[trigger] kids[b]).0,
    ensures
        child_at(kids.update(j, (kids[j].0, t)), kids[j].0) == Some(t),
        forall|d: char|
            d != kids[j].0 ==> child_at(kids.update(j, (kids[j].0, t)), d) == child_at(
                kids,
                d,
            ),
    decreases kids.len(),
{
    let upd = kids.update(j, (kids[j].0, t));
    if j == 0 {
        assert(upd[0] == (kids[0].0, t));
        assert(child_at(upd, kids[0].0) == Some(t));
        assert forall|d: char|
            d != kids[0].0 implies child_at(upd, d) == child_at(kids, d) by {
            assert(upd.drop_first() =~~= kids.drop_first());
            assert(child_at(upd, d) == child_at(kids.drop_first(), d));
        }
    } else {
        assert(upd[0] == kids[0]);
        assert(upd.drop_first() =~~= kids.drop_first().update(j - 1, (kids[j].0, t)));
        assert(forall|a: int, b: int|
            0 <= a < b < kids.drop_first().len() ==> (#[trigger] kids.drop_first()[a]).0
                != (#[trigger] kids.drop_first()[b]).0);
        assert(kids.drop_first()[j - 1] == kids[j]);
        lemma_child_at_update(kids.drop_first(), j - 1, t);
        assert(kids[j].0 != kids[0].0);
        assert(child_at(upd, kids[j].0) == child_at(
            kids.drop_first().update(j - 1, (kids[j].0, t)),
            kids[j].0,
        ));
        assert(child_at(upd, kids[j].0) == Some(t));
        assert forall|d: char|
            d != kids[j].0 implies child_at(upd, d) == child_at(kids, d) by {
            if d != kids[0].0 {
                assert(child_at(upd, d) == child_at(
                    kids.drop_first().update(j - 1, (kids[j].0, t)),
                    d,
                ));
                assert(child_at(kids.drop_first().update(j - 1, (kids[j].0, t)), d)
                    == child_at(kids.drop_first(), d));
            }
        }
    }
}

impl Trie {
    /// Distinct labels on the children, at every node.
    pub open spec fn wf(self) -> bool
        decreases self,
    {
        &&& (forall|i: int, j: int|
            0 <= i < j < self.kids@.len() ==> (#[trigger] self.kids@[i]).0 != (
            #[trigger] self.kids@[j]).0)
        &&& (forall|i: int|
            0 <= i < self.kids@.len() ==> (#[trigger] self.kids@[i]).1.wf())
    }

    pub open spec fn spec_child(self, c: char) -> Option<Trie> {
        child_at(self.kids@, c)
    }

    /// `p` labels a root path of `self`.
    pub open spec fn has_path(self, p: Seq<char>) -> bool
        decreases p.len(),
    {
        p.len() == 0 || {
            match self.spec_child(p[0]) {
                None => false,
                Some(t) => t.has_path(p.drop_first()),
            }
        }
    }

    /// The empty trie: one root, no paths but the empty one.
    pub fn new() -> (r: Trie)
        ensures
            r.wf(),
            forall|p: Seq<char>| r.has_path(p) <==> p.len() == 0,
            r.kids@.len() == 0,
    {
        let r = Trie { kids: Vec::new() };
        assert(forall|p: Seq<char>| p.len() != 0 ==> !r.has_path(p)) by {
            assert(forall|c: char| child_at(r.kids@, c) is None);
        }
        r
    }

    /// Where among `kids` the child labelled `c` stands.
    fn child_index(&self, c: char) -> (r: Option<usize>)
        ensures
            match r {
                Some(j) => j < self.kids@.len() && self.kids@[j as int].0 == c
                    && self.spec_child(c) == Some(self.kids@[j as int].1),
                None => self.spec_child(c) is None,
            },
    {
        let n = self.kids.len();
        assert(self.kids@.skip(0) =~~= self.kids@);
        for j in 0..n
            invariant
                n == self.kids@.len(),
                forall|i: int| 0 <= i < j ==> (#[trigger] self.kids@[i]).0 != c,
                child_at(self.kids@.skip(j as int), c) == self.spec_child(c),
        {
            proof {
                assert(self.kids@.skip(j as int)[0] == self.kids@[j as int]);
                assert(self.kids@.skip(j as int).drop_first() =~~= self.kids@.skip(j + 1));
            }
            if self.kids[j].0 == c {
                return Some(j);
            }
        }
        proof {
            assert(self.kids@.skip(n as int).len() == 0);
        }
        None
    }

    /// Grow the trie so that every prefix of `w@.skip(i)` labels a root
    /// path; no other path appears, and none disappears.
    pub fn insert_path(&mut self, w: &Vec<char>, i: usize)
        requires
            old(self).wf(),
            i <= w@.len(),
        ensures
            final(self).wf(),
            forall|p: Seq<char>|
                final(self).has_path(p) <==> old(self).has_path(p) || is_prefix(
                    p,
                    w@.skip(i as int),
                ),
        decreases w@.len() - i,
    {
        if i >= w.len() {
            assert forall|p: Seq<char>|
                self.has_path(p) <==> old(self).has_path(p) || is_prefix(
                    p,
                    w@.skip(i as int),
                ) by {
                if is_prefix(p, w@.skip(i as int)) {
                    assert(p =~= Seq::<char>::empty());
                }
            }
            return ;
        }
        let c = w[i];
        let ghost pre = *self;
        let j = match self.child_index(c) {
            Some(j) => j,
            None => {
                self.kids.push((c, Trie { kids: Vec::new() }));
                self.kids.len() - 1
            },
        };
        let ghost mid = *self;
        let ghost sub = self.kids@[j as int].1;
        proof {
            // After the optional push, `c` labels child `j` and every other
            // label leads where it led before.
            if pre.spec_child(c) is Some {
                assert(mid == pre);
                assert(mid.spec_child(c) == Some(sub));
            } else {
                assert(mid.kids@ == pre.kids@.push((c, sub)));
                lemma_child_at_push(pre.kids@, c, sub);
                lemma_child_at_none(pre.kids@, c);
                assert(mid.spec_child(c) == Some(sub));
                assert(sub.kids@.len() == 0);
            }
            assert(forall|d: char|
                d != c ==> #[trigger] mid.spec_child(d) == pre.spec_child(d));
            assert(mid.kids@[j as int] == (c, sub));
            assert(sub.wf()) by {
                if pre.spec_child(c) is Some {
                    assert((pre.kids@[j as int]).1.wf());
                } else {
                    assert(sub.kids@.len() == 0);
                }
            }
            assert(mid.wf()) by {
                if pre.spec_child(c) is None {
                    assert(forall|a: int|
                        0 <= a < pre.kids@.len() ==> #[trigger] mid.kids@[a] == pre.kids@[a]);
                    lemma_child_at_none(pre.kids@, c);
                    assert(forall|a: int|
                        0 <= a < mid.kids@.len() ==> (#[trigger] mid.kids@[a]).1.wf());
                }
            }
            assert(pre.spec_child(c) is None ==> (forall|q: Seq<char>|
                sub.has_path(q) <==> q.len() == 0)) by {
                assert(forall|d: char| child_at(Seq::<(char, Trie)>::empty(), d) is None);
            }
        }
        self.kids[j].1.insert_path(w, i + 1);
        proof {
            let post = *self;
            let sub2 = post.kids@[j as int].1;
            assert(post.kids@ =~~= mid.kids@.update(j as int, (c, sub2)));
            lemma_child_at_update(mid.kids@, j as int, sub2);
            assert(post.spec_child(c) == Some(sub2));
            assert(forall|d: char|
                d != c ==> #[trigger] post.spec_child(d) == mid.spec_child(d));
            assert(post.wf()) by {
                assert(forall|a: int|
                    0 <= a < mid.kids@.len() && a != j ==> #[trigger] post.kids@[a]
                        == mid.kids@[a]);
            }
            let rest = w@.skip(i + 1);
            assert(w@.skip(i as int)[0] == c);
            assert(w@.skip(i as int).drop_first() =~= rest);
            assert forall|p: Seq<char>|
                post.has_path(p) <==> pre.has_path(p) || is_prefix(p, w@.skip(i as int)) by {
                if p.len() == 0 {
                    assert(post.has_path(p) && pre.has_path(p));
                } else if p[0] == c {
                    let q = p.drop_first();
                    assert(post.has_path(p) == sub2.has_path(q));
                    assert(sub2.has_path(q) <==> sub.has_path(q) || is_prefix(q, rest));
                    if pre.spec_child(c) is Some {
                        assert(pre.has_path(p) == sub.has_path(q));
                    } else {
                        assert(!pre.has_path(p));
                        assert(sub.has_path(q) <==> q.len() == 0);
                        if q.len() == 0 {
                            assert(p =~= w@.skip(i as int).take(1));
                            assert(is_prefix(p, w@.skip(i as int)));
                        }
                    }
                    // A prefix of the inserted suffix that starts with `c`
                    // is one step longer than a prefix of `rest`.
                    assert(is_prefix(p, w@.skip(i as int)) <==> is_prefix(q, rest)) by {
                        if is_prefix(q, rest) {
                            assert forall|k: int|
                                0 <= k < p.len() implies p[k] == w@.skip(i as int).take(
                                p.len() as int,
                            )[k] by {
                                if k > 0 {
                                    assert(p[k] == q[k - 1]);
                                    assert(q[k - 1] == rest[k - 1]);
                                }
                            }
                            assert(p =~= w@.skip(i as int).take(p.len() as int));
                        } else if is_prefix(p, w@.skip(i as int)) {
                            assert forall|k: int|
                                0 <= k < q.len() implies q[k] == rest.take(
                                q.len() as int,
                            )[k] by {
                                assert(q[k] == p[k + 1]);
                            }
                            assert(q =~= rest.take(q.len() as int));
                        }
                    }
                } else {
                    assert(post.has_path(p) == pre.has_path(p));
                    assert(!is_prefix(p, w@.skip(i as int)));
                }
            }
        }
    }

    /// Whether `p` labels a root path, walked step by step.
    pub fn contains_path(&self, p: &Vec<char>) -> (b: bool)
        ensures
            b == self.has_path(p@),
    {
        let mut cur: &Trie = self;
        let n = p.len();
        assert(p@.skip(0) =~= p@);
        for i in 0..n
            invariant
                n == p@.len(),
                self.has_path(p@) == cur.has_path(p@.skip(i as int)),
        {
            proof {
                assert(p@.skip(i as int)[0] == p@[i as int]);
                assert(p@.skip(i as int).drop_first() =~= p@.skip(i + 1));
            }
            match cur.child(p[i]) {
                Some(nx) => {
                    cur = nx;
                },
                None => {
                    return false;
                },
            }
        }
        proof {
            assert(p@.skip(n as int).len() == 0);
        }
        true
    }

    /// Walk one step down: the child reached by `c`, if any.
    pub fn child(&self, c: char) -> (r: Option<&Trie>)
        ensures
            match r {
                Some(t) => self.spec_child(c) == Some(*t),
                None => self.spec_child(c) is None,
            },
    {
        match self.child_index(c) {
            Some(j) => Some(&self.kids[j].1),
            None => None,
        }
    }
}

} // verus!
