//! The model file format: a self-delimiting text form of the four
//! persisted members of `Engine`. Numbers are decimal digits closed by a
//! semicolon; a word is its character count followed by the characters;
//! each table is its entry count followed by its entries in order. The
//! trie is not written: it is derived again after a load.
use vstd::prelude::*;

verus! {

pub open spec fn is_digit(c: char) -> bool {
    c == '0' || c == '1' || c == '2' || c == '3' || c == '4' || c == '5' || c == '6' || c
        == '7' || c == '8' || c == '9'
}

/// The value of one digit character.
pub open spec fn dval(c: char) -> int {
    if c == '0' {
        0
    } else if c == '1' {
        1
    } else if c == '2' {
        2
    } else if c == '3' {
        3
    } else if c == '4' {
        4
    } else if c == '5' {
        5
    } else if c == '6' {
        6
    } else if c == '7' {
        7
    } else if c == '8' {
        8
    } else {
        9
    }
}

/// The digit character of one value.
pub open spec fn dchar(d: int) -> char {
    if d == 0 {
        '0'
    } else if d == 1 {
        '1'
    } else if d == 2 {
        '2'
    } else if d == 3 {
        '3'
    } else if d == 4 {
        '4'
    } else if d == 5 {
        '5'
    } else if d == 6 {
        '6'
    } else if d == 7 {
        '7'
    } else if d == 8 {
        '8'
    } else {
        '9'
    }
}

/// The decimal digits of `n`, empty for zero.
pub open spec fn emit_digits(n: int) -> Seq<char>
    decreases n,
{
    if n <= 0 {
        Seq::empty()
    } else {
        emit_digits(n / 10).push(dchar(n % 10))
    }
}

/// A number token: decimal digits closed by a semicolon.
pub open spec fn emit_num(n: int) -> Seq<char> {
    if n == 0 {
        seq!['0', ';']
    } else {
        emit_digits(n).push(';')
    }
}

/// The value of a digit string, most significant first.
pub open spec fn val_digits(s: Seq<char>) -> int
    decreases s.len(),
{
    if s.len() == 0 {
        0
    } else {
        val_digits(s.drop_last()) * 10 + dval(s.last())
    }
}

proof fn lemma_emit_digits_digits(n: int)
    ensures
        forall|k: int| 0 <= k < emit_digits(n).len() ==> is_digit(#[trigger] emit_digits(n)[k]),
        n >= 1 ==> emit_digits(n).len() >= 1,
    decreases n,
{
    if n > 0 {
        lemma_emit_digits_digits(n / 10);
        let whole = emit_digits(n);
        let rest = emit_digits(n / 10);
        assert forall|k: int| 0 <= k < whole.len() implies is_digit(#[trigger] whole[k]) by {
            if k < rest.len() {
                assert(whole[k] == rest[k]);
            } else {
                assert(whole[k] == dchar(n % 10));
            }
        }
    }
}

proof fn lemma_val_emit_digits(n: int)
    requires
        n >= 0,
    ensures
        val_digits(emit_digits(n)) == n,
    decreases n,
{
    if n > 0 {
        lemma_val_emit_digits(n / 10);
        assert(emit_digits(n).drop_last() =~= emit_digits(n / 10));
        assert(emit_digits(n).last() == dchar(n % 10));
        assert(dval(dchar(n % 10)) == n % 10);
    }
}

/// The digit part of a number token, with its properties.
proof fn lemma_emit_num_shape(n: int)
    requires
        n >= 0,
    ensures
        emit_num(n).len() >= 2,
        emit_num(n).last() == ';',
        forall|k: int| 0 <= k < emit_num(n).len() - 1 ==> is_digit(#[trigger] emit_num(n)[k]),
        val_digits(emit_num(n).drop_last()) == n,
{
    lemma_emit_digits_digits(n);
    lemma_val_emit_digits(n);
    if n == 0 {
        assert(emit_num(0) == seq!['0', ';']);
        assert(emit_num(0)[0] == '0');
        assert(emit_num(0).last() == ';');
        assert(emit_num(0).drop_last() =~= seq!['0']);
        assert(val_digits(seq!['0']) == 0) by {
            assert(seq!['0'].drop_last() =~= Seq::<char>::empty());
            assert(seq!['0'].last() == '0');
        }
    } else {
        let whole = emit_num(n);
        let ds = emit_digits(n);
        assert(whole == ds.push(';'));
        assert(whole.last() == ';');
        assert(whole.drop_last() =~= ds);
        assert(forall|k: int| 0 <= k < ds.len() ==> #[trigger] whole[k] == ds[k]);
    }
}

/// The first position at or after `i` that does not hold a digit.
pub open spec fn digits_end(s: Seq<char>, i: int) -> int
    decreases s.len() - i,
{
    if i < 0 || i >= s.len() || !is_digit(s[i]) {
        i
    } else {
        digits_end(s, i + 1)
    }
}

proof fn lemma_digits_end_exact(s: Seq<char>, i: int, e: int)
    requires
        0 <= i <= e <= s.len(),
        forall|k: int| i <= k < e ==> is_digit(#[trigger] s[k]),
        e < s.len() ==> !is_digit(s[e]),
        e == s.len() || !is_digit(s[e]),
    ensures
        digits_end(s, i) == e,
    decreases e - i,
{
    if i < e {
        lemma_digits_end_exact(s, i + 1, e);
    }
}

proof fn lemma_digits_end_bounds(s: Seq<char>, i: int)
    requires
        0 <= i <= s.len(),
    ensures
        i <= digits_end(s, i) <= s.len(),
    decreases s.len() - i,
{
    if i < s.len() && is_digit(s[i]) {
        lemma_digits_end_bounds(s, i + 1);
    }
}

/// A number token read back: the digits before the closing semicolon.
pub open spec fn spec_parse_num(s: Seq<char>, i: int) -> Option<(int, int)> {
    let e = digits_end(s, i);
    if i < 0 || e == i || e >= s.len() || s[e] != ';' {
        None
    } else {
        Some((val_digits(s.subrange(i, e)), e + 1))
    }
}

/// Reading back what was written: a number token parses to its value,
/// wherever it stands and whatever follows it.
proof fn lemma_rt_num(s: Seq<char>, i: int, n: int)
    requires
        n >= 0,
        0 <= i,
        i + emit_num(n).len() <= s.len(),
        s.subrange(i, i + emit_num(n).len()) == emit_num(n),
    ensures
        spec_parse_num(s, i) == Some((n, i + emit_num(n).len())),
{
    lemma_emit_num_shape(n);
    let l = emit_num(n).len() as int;
    let sub = s.subrange(i, i + l);
    assert(forall|k: int| 0 <= k < l ==> #[trigger] sub[k] == s[i + k]);
    assert(forall|k: int| i <= k < i + l - 1 ==> is_digit(#[trigger] s[k])) by {
        assert(forall|k: int|
            i <= k < i + l - 1 ==> #[trigger] s[k] == sub[k - i] && is_digit(emit_num(n)[k
                - i]));
    }
    assert(s[i + l - 1] == ';');
    assert(!is_digit(';'));
    lemma_digits_end_exact(s, i, i + l - 1);
    assert(digits_end(s, i) == i + l - 1);
    assert(s.subrange(i, i + l - 1) =~= emit_num(n).drop_last());
    assert(emit_num(n).len() >= 2);
}

/// A word token: the character count, then the characters.
pub open spec fn emit_word(w: Seq<char>) -> Seq<char> {
    emit_num(w.len() as int) + w
}

pub open spec fn spec_parse_word(s: Seq<char>, i: int) -> Option<(Seq<char>, int)> {
    match spec_parse_num(s, i) {
        None => None,
        Some((l, j)) => if l < 0 || j + l > s.len() {
            None
        } else {
            Some((s.subrange(j, j + l), j + l))
        },
    }
}

proof fn lemma_rt_word(s: Seq<char>, i: int, w: Seq<char>)
    requires
        0 <= i,
        i + emit_word(w).len() <= s.len(),
        s.subrange(i, i + emit_word(w).len()) == emit_word(w),
    ensures
        spec_parse_word(s, i) == Some((w, i + emit_word(w).len())),
{
    let nl = emit_num(w.len() as int).len() as int;
    let wl = emit_word(w).len() as int;
    assert(wl == nl + w.len());
    assert(forall|k: int|
        0 <= k < wl ==> #[trigger] s[i + k] == emit_word(w)[k]) by {
        assert(forall|k: int|
            0 <= k < wl ==> s.subrange(i, i + wl)[k] == #[trigger] emit_word(w)[k]);
        assert(forall|k: int|
            0 <= k < wl ==> #[trigger] s.subrange(i, i + wl)[k] == s[i + k]);
    }
    assert(s.subrange(i, i + nl) =~= emit_num(w.len() as int)) by {
        assert(forall|k: int|
            0 <= k < nl ==> #[trigger] emit_word(w)[k] == emit_num(w.len() as int)[k]);
    }
    lemma_rt_num(s, i, w.len() as int);
    assert forall|k: int|
        0 <= k < w.len() implies #[trigger] s.subrange(i + nl, i + nl + w.len())[k]
            == w[k] by {
        let k2 = nl + k;
        assert(s.subrange(i, i + wl)[k2] == s[i + k2]);
        assert(s.subrange(i, i + wl)[k2] == emit_word(w)[k2]);
        assert(emit_word(w)[k2] == w[k]);
        assert(s.subrange(i + nl, i + nl + w.len())[k] == s[i + k2]);
    }
    assert(s.subrange(i + nl, i + nl + w.len()) =~= w);
}

/// A counter table over plain values: word keys with counts.
pub type CModel = Seq<(Seq<char>, u64)>;

/// A two-level table over plain values.
pub type T2Model = Seq<(Seq<char>, CModel)>;

/// A three-level table over plain values.
pub type T3Model = Seq<(Seq<char>, T2Model)>;

pub open spec fn cmap_model(m: crate::tables::CountMap) -> CModel {
    m.entries@.map(|i: int, e: (String, u64)| (e.0@, e.1))
}

pub open spec fn t2_model(t: crate::tables::TableTwo) -> T2Model {
    t.entries@.map(|i: int, e: (String, crate::tables::CountMap)| (e.0@, cmap_model(e.1)))
}

pub open spec fn t3_model(t: crate::tables::TableThree) -> T3Model {
    t.entries@.map(|i: int, e: (String, crate::tables::TableTwo)| (e.0@, t2_model(e.1)))
}

pub open spec fn cm_keys_unique(m: CModel) -> bool {
    forall|a: int, b: int| 0 <= a < b < m.len() ==> (#[trigger] m[a]).0 != (#[trigger] m[b]).0
}

/// A counter model the format can carry: unique keys, countable length.
pub open spec fn cm_wf(m: CModel) -> bool {
    cm_keys_unique(m) && m.len() <= u64::MAX
}

pub open spec fn t2_wf(m: T2Model) -> bool {
    &&& (forall|a: int, b: int|
        0 <= a < b < m.len() ==> (#[trigger] m[a]).0 != (#[trigger] m[b]).0)
    &&& m.len() <= u64::MAX
    &&& (forall|a: int| 0 <= a < m.len() ==> cm_wf((#[trigger] m[a]).1))
}

pub open spec fn t3_wf(m: T3Model) -> bool {
    &&& (forall|a: int, b: int|
        0 <= a < b < m.len() ==> (#[trigger] m[a]).0 != (#[trigger] m[b]).0)
    &&& m.len() <= u64::MAX
    &&& (forall|a: int| 0 <= a < m.len() ==> t2_wf((#[trigger] m[a]).1))
}

/// One counter entry: its word, then its count.
pub open spec fn emit_centry(e: (Seq<char>, u64)) -> Seq<char> {
    emit_word(e.0) + emit_num(e.1 as int)
}

pub open spec fn emit_centries(m: CModel) -> Seq<char>
    decreases m.len(),
{
    if m.len() == 0 {
        Seq::empty()
    } else {
        emit_centries(m.drop_last()) + emit_centry(m.last())
    }
}

/// A counter table: its entry count, then its entries in order.
pub open spec fn emit_cmap(m: CModel) -> Seq<char> {
    emit_num(m.len() as int) + emit_centries(m)
}

pub open spec fn emit_t2entry(e: (Seq<char>, CModel)) -> Seq<char> {
    emit_word(e.0) + emit_cmap(e.1)
}

pub open spec fn emit_t2entries(m: T2Model) -> Seq<char>
    decreases m.len(),
{
    if m.len() == 0 {
        Seq::empty()
    } else {
        emit_t2entries(m.drop_last()) + emit_t2entry(m.last())
    }
}

pub open spec fn emit_t2(m: T2Model) -> Seq<char> {
    emit_num(m.len() as int) + emit_t2entries(m)
}

pub open spec fn emit_t3entry(e: (Seq<char>, T2Model)) -> Seq<char> {
    emit_word(e.0) + emit_t2(e.1)
}

pub open spec fn emit_t3entries(m: T3Model) -> Seq<char>
    decreases m.len(),
{
    if m.len() == 0 {
        Seq::empty()
    } else {
        emit_t3entries(m.drop_last()) + emit_t3entry(m.last())
    }
}

pub open spec fn emit_t3(m: T3Model) -> Seq<char> {
    emit_num(m.len() as int) + emit_t3entries(m)
}

/// The whole model document: the total, then the three tables, trigram
/// table first.
pub open spec fn emit_engine(total: int, t3: T3Model, t2: T2Model, cm: CModel) -> Seq<char> {
    emit_num(total) + emit_t3(t3) + emit_t2(t2) + emit_cmap(cm)
}

pub open spec fn cm_has(m: CModel, k: Seq<char>) -> bool {
    exists|j: int| 0 <= j < m.len() && (#[trigger] m[j]).0 == k
}

pub open spec fn t2_has(m: T2Model, k: Seq<char>) -> bool {
    exists|j: int| 0 <= j < m.len() && (#[trigger] m[j]).0 == k
}

pub open spec fn t3_has(m: T3Model, k: Seq<char>) -> bool {
    exists|j: int| 0 <= j < m.len() && (#[trigger] m[j]).0 == k
}

/// `cnt` counter entries read back, each a word and a count in `u64`
/// range, every key fresh.
pub open spec fn spec_parse_centries(s: Seq<char>, i: int, cnt: int, acc: CModel) -> Option<
    (CModel, int),
>
    decreases cnt,
{
    if cnt <= 0 {
        Some((acc, i))
    } else {
        match spec_parse_word(s, i) {
            None => None,
            Some((w, j)) => match spec_parse_num(s, j) {
                None => None,
                Some((v, k)) => if v > u64::MAX || cm_has(acc, w) {
                    None
                } else {
                    spec_parse_centries(s, k, cnt - 1, acc.push((w, v as u64)))
                },
            },
        }
    }
}

pub open spec fn spec_parse_cmap(s: Seq<char>, i: int) -> Option<(CModel, int)> {
    match spec_parse_num(s, i) {
        None => None,
        Some((cnt, j)) => if cnt > u64::MAX {
            None
        } else {
            spec_parse_centries(s, j, cnt, Seq::empty())
        },
    }
}

pub open spec fn spec_parse_t2entries(s: Seq<char>, i: int, cnt: int, acc: T2Model) -> Option<
    (T2Model, int),
>
    decreases cnt,
{
    if cnt <= 0 {
        Some((acc, i))
    } else {
        match spec_parse_word(s, i) {
            None => None,
            Some((w, j)) => match spec_parse_cmap(s, j) {
                None => None,
                Some((row, k)) => if t2_has(acc, w) {
                    None
                } else {
                    spec_parse_t2entries(s, k, cnt - 1, acc.push((w, row)))
                },
            },
        }
    }
}

pub open spec fn spec_parse_t2(s: Seq<char>, i: int) -> Option<(T2Model, int)> {
    match spec_parse_num(s, i) {
        None => None,
        Some((cnt, j)) => if cnt > u64::MAX {
            None
        } else {
            spec_parse_t2entries(s, j, cnt, Seq::empty())
        },
    }
}

pub open spec fn spec_parse_t3entries(s: Seq<char>, i: int, cnt: int, acc: T3Model) -> Option<
    (T3Model, int),
>
    decreases cnt,
{
    if cnt <= 0 {
        Some((acc, i))
    } else {
        match spec_parse_word(s, i) {
            None => None,
            Some((w, j)) => match spec_parse_t2(s, j) {
                None => None,
                Some((row, k)) => if t3_has(acc, w) {
                    None
                } else {
                    spec_parse_t3entries(s, k, cnt - 1, acc.push((w, row)))
                },
            },
        }
    }
}

pub open spec fn spec_parse_t3(s: Seq<char>, i: int) -> Option<(T3Model, int)> {
    match spec_parse_num(s, i) {
        None => None,
        Some((cnt, j)) => if cnt > u64::MAX {
            None
        } else {
            spec_parse_t3entries(s, j, cnt, Seq::empty())
        },
    }
}

/// The whole model document read back, demanding that nothing trail it.
pub open spec fn spec_parse_engine(s: Seq<char>) -> Option<(int, T3Model, T2Model, CModel)> {
    match spec_parse_num(s, 0) {
        None => None,
        Some((total, i)) => if total > u64::MAX {
            None
        } else {
            match spec_parse_t3(s, i) {
                None => None,
                Some((m3, j)) => match spec_parse_t2(s, j) {
                    None => None,
                    Some((m2, k)) => match spec_parse_cmap(s, k) {
                        None => None,
                        Some((m1, end)) => if end == s.len() {
                            Some((total, m3, m2, m1))
                        } else {
                            None
                        },
                    },
                },
            }
        },
    }
}

/// Two stretches written one after the other are read back one after the
/// other.
proof fn lemma_split(s: Seq<char>, i: int, a: Seq<char>, b: Seq<char>)
    requires
        0 <= i,
        i + a.len() + b.len() <= s.len(),
        s.subrange(i, i + a.len() + b.len()) == a + b,
    ensures
        s.subrange(i, i + a.len()) == a,
        s.subrange(i + a.len(), i + a.len() + b.len()) == b,
{
    let whole = a.len() + b.len();
    assert forall|k: int| 0 <= k < a.len() implies #[trigger] s.subrange(i, i + a.len())[k]
        == a[k] by {
        assert(s.subrange(i, i + whole)[k] == s[i + k]);
        assert(s.subrange(i, i + whole)[k] == (a + b)[k]);
        assert((a + b)[k] == a[k]);
        assert(s.subrange(i, i + a.len())[k] == s[i + k]);
    }
    assert(s.subrange(i, i + a.len()) =~= a);
    assert forall|k: int|
        0 <= k < b.len() implies #[trigger] s.subrange(
        i + a.len(),
        i + a.len() + b.len(),
    )[k] == b[k] by {
        let k2 = a.len() + k;
        assert(s.subrange(i, i + whole)[k2] == s[i + k2]);
        assert(s.subrange(i, i + whole)[k2] == (a + b)[k2]);
        assert((a + b)[k2] == b[k]);
        assert(s.subrange(i + a.len(), i + a.len() + b.len())[k] == s[i + k2]);
    }
    assert(s.subrange(i + a.len(), i + a.len() + b.len()) =~= b);
}

/// What was written last can also be split off first.
proof fn lemma_emit_centries_first(m: CModel)
    requires
        m.len() >= 1,
    ensures
        emit_centries(m) == emit_centry(m[0]) + emit_centries(m.drop_first()),
    decreases m.len(),
{
    if m.len() == 1 {
        assert(m.drop_last() =~= Seq::<(Seq<char>, u64)>::empty());
        assert(m.drop_first() =~= Seq::<(Seq<char>, u64)>::empty());
        assert(emit_centries(m) == emit_centries(m.drop_last()) + emit_centry(m.last()));
        assert(Seq::<char>::empty() + emit_centry(m[0]) =~= emit_centry(m[0]));
        assert(emit_centry(m[0]) + Seq::<char>::empty() =~= emit_centry(m[0]));
    } else {
        lemma_emit_centries_first(m.drop_last());
        assert(m.drop_last()[0] == m[0]);
        assert(m.drop_last().drop_first() =~= m.drop_first().drop_last());
        assert(m.drop_first().last() == m.last());
        assert(emit_centries(m) == (emit_centry(m[0]) + emit_centries(
            m.drop_first().drop_last(),
        )) + emit_centry(m.last()));
        assert(emit_centries(m.drop_first()) == emit_centries(m.drop_first().drop_last())
            + emit_centry(m.last()));
        assert((emit_centry(m[0]) + emit_centries(m.drop_first().drop_last()))
            + emit_centry(m.last()) =~= emit_centry(m[0]) + (emit_centries(
            m.drop_first().drop_last(),
        ) + emit_centry(m.last())));
    }
}

proof fn lemma_emit_t2entries_first(m: T2Model)
    requires
        m.len() >= 1,
    ensures
        emit_t2entries(m) == emit_t2entry(m[0]) + emit_t2entries(m.drop_first()),
    decreases m.len(),
{
    if m.len() == 1 {
        assert(m.drop_last() =~= Seq::<(Seq<char>, CModel)>::empty());
        assert(m.drop_first() =~= Seq::<(Seq<char>, CModel)>::empty());
        assert(emit_t2entries(m) == emit_t2entries(m.drop_last()) + emit_t2entry(m.last()));
        assert(Seq::<char>::empty() + emit_t2entry(m[0]) =~= emit_t2entry(m[0]));
        assert(emit_t2entry(m[0]) + Seq::<char>::empty() =~= emit_t2entry(m[0]));
    } else {
        lemma_emit_t2entries_first(m.drop_last());
        assert(m.drop_last()[0] == m[0]);
        assert(m.drop_last().drop_first() =~= m.drop_first().drop_last());
        assert(m.drop_first().last() == m.last());
        assert(emit_t2entries(m) == (emit_t2entry(m[0]) + emit_t2entries(
            m.drop_first().drop_last(),
        )) + emit_t2entry(m.last()));
        assert(emit_t2entries(m.drop_first()) == emit_t2entries(
            m.drop_first().drop_last(),
        ) + emit_t2entry(m.last()));
        assert((emit_t2entry(m[0]) + emit_t2entries(m.drop_first().drop_last()))
            + emit_t2entry(m.last()) =~= emit_t2entry(m[0]) + (emit_t2entries(
            m.drop_first().drop_last(),
        ) + emit_t2entry(m.last())));
    }
}

proof fn lemma_emit_t3entries_first(m: T3Model)
    requires
        m.len() >= 1,
    ensures
        emit_t3entries(m) == emit_t3entry(m[0]) + emit_t3entries(m.drop_first()),
    decreases m.len(),
{
    if m.len() == 1 {
        assert(m.drop_last() =~= Seq::<(Seq<char>, T2Model)>::empty());
        assert(m.drop_first() =~= Seq::<(Seq<char>, T2Model)>::empty());
        assert(emit_t3entries(m) == emit_t3entries(m.drop_last()) + emit_t3entry(m.last()));
        assert(Seq::<char>::empty() + emit_t3entry(m[0]) =~= emit_t3entry(m[0]));
        assert(emit_t3entry(m[0]) + Seq::<char>::empty() =~= emit_t3entry(m[0]));
    } else {
        lemma_emit_t3entries_first(m.drop_last());
        assert(m.drop_last()[0] == m[0]);
        assert(m.drop_last().drop_first() =~= m.drop_first().drop_last());
        assert(m.drop_first().last() == m.last());
        assert(emit_t3entries(m) == (emit_t3entry(m[0]) + emit_t3entries(
            m.drop_first().drop_last(),
        )) + emit_t3entry(m.last()));
        assert(emit_t3entries(m.drop_first()) == emit_t3entries(
            m.drop_first().drop_last(),
        ) + emit_t3entry(m.last()));
        assert((emit_t3entry(m[0]) + emit_t3entries(m.drop_first().drop_last()))
            + emit_t3entry(m.last()) =~= emit_t3entry(m[0]) + (emit_t3entries(
            m.drop_first().drop_last(),
        ) + emit_t3entry(m.last())));
    }
}

proof fn lemma_rt_centries(s: Seq<char>, i: int, m: CModel, acc: CModel)
    requires
        cm_keys_unique(acc + m),
        0 <= i,
        i + emit_centries(m).len() <= s.len(),
        s.subrange(i, i + emit_centries(m).len()) == emit_centries(m),
    ensures
        spec_parse_centries(s, i, m.len() as int, acc) == Some(
            (acc + m, i + emit_centries(m).len()),
        ),
    decreases m.len(),
{
    if m.len() == 0 {
        assert(acc + m =~= acc);
    } else {
        let e0 = m[0];
        let rest = m.drop_first();
        lemma_emit_centries_first(m);
        let ea = emit_centry(e0);
        let eb = emit_centries(rest);
        assert(emit_centries(m).len() == ea.len() + eb.len());
        lemma_split(s, i, ea, eb);
        let wa = emit_word(e0.0);
        let na = emit_num(e0.1 as int);
        assert(ea == wa + na);
        lemma_split(s, i, wa, na);
        lemma_rt_word(s, i, e0.0);
        lemma_rt_num(s, i + wa.len(), e0.1 as int);
        assert(!cm_has(acc, e0.0)) by {
            if cm_has(acc, e0.0) {
                let q = choose|q: int| 0 <= q < acc.len() && (#[trigger] acc[q]).0 == e0.0;
                assert((acc + m)[q] == acc[q]);
                assert((acc + m)[acc.len() as int] == m[0]);
            }
        }
        assert((acc.push(e0)) + rest =~= acc + m);
        assert(cm_keys_unique((acc.push(e0)) + rest));
        lemma_rt_centries(s, i + ea.len(), rest, acc.push(e0));
        assert((e0.1 as int) as u64 == e0.1);
        assert((e0.0, (e0.1 as int) as u64) == e0);
    }
}

proof fn lemma_rt_cmap(s: Seq<char>, i: int, m: CModel)
    requires
        cm_wf(m),
        0 <= i,
        i + emit_cmap(m).len() <= s.len(),
        s.subrange(i, i + emit_cmap(m).len()) == emit_cmap(m),
    ensures
        spec_parse_cmap(s, i) == Some((m, i + emit_cmap(m).len())),
{
    let na = emit_num(m.len() as int);
    lemma_split(s, i, na, emit_centries(m));
    lemma_rt_num(s, i, m.len() as int);
    assert(Seq::<(Seq<char>, u64)>::empty() + m =~= m);
    lemma_rt_centries(s, i + na.len(), m, Seq::empty());
}

proof fn lemma_rt_t2entries(s: Seq<char>, i: int, m: T2Model, acc: T2Model)
    requires
        forall|a: int, b: int|
            0 <= a < b < (acc + m).len() ==> ((#[trigger] (acc + m)[a]).0) != ((
            #[trigger] (acc + m)[b]).0),
        forall|a: int| 0 <= a < m.len() ==> cm_wf((#[trigger] m[a]).1),
        0 <= i,
        i + emit_t2entries(m).len() <= s.len(),
        s.subrange(i, i + emit_t2entries(m).len()) == emit_t2entries(m),
    ensures
        spec_parse_t2entries(s, i, m.len() as int, acc) == Some(
            (acc + m, i + emit_t2entries(m).len()),
        ),
    decreases m.len(),
{
    if m.len() == 0 {
        assert(acc + m =~= acc);
    } else {
        let e0 = m[0];
        let rest = m.drop_first();
        lemma_emit_t2entries_first(m);
        let ea = emit_t2entry(e0);
        let eb = emit_t2entries(rest);
        assert(emit_t2entries(m).len() == ea.len() + eb.len());
        lemma_split(s, i, ea, eb);
        let wa = emit_word(e0.0);
        let ca = emit_cmap(e0.1);
        assert(ea == wa + ca);
        lemma_split(s, i, wa, ca);
        lemma_rt_word(s, i, e0.0);
        assert(cm_wf(e0.1));
        lemma_rt_cmap(s, i + wa.len(), e0.1);
        assert(!t2_has(acc, e0.0)) by {
            if t2_has(acc, e0.0) {
                let q = choose|q: int| 0 <= q < acc.len() && (#[trigger] acc[q]).0 == e0.0;
                assert((acc + m)[q] == acc[q]);
                assert((acc + m)[acc.len() as int] == m[0]);
            }
        }
        assert((acc.push(e0)) + rest =~= acc + m);
        assert(forall|a: int|
            0 <= a < rest.len() ==> cm_wf((#[trigger] rest[a]).1)) by {
            assert(forall|a: int| 0 <= a < rest.len() ==> #[trigger] rest[a] == m[a + 1]);
        }
        lemma_rt_t2entries(s, i + ea.len(), rest, acc.push(e0));
        assert((e0.0, e0.1) == e0);
    }
}

proof fn lemma_rt_t2(s: Seq<char>, i: int, m: T2Model)
    requires
        t2_wf(m),
        0 <= i,
        i + emit_t2(m).len() <= s.len(),
        s.subrange(i, i + emit_t2(m).len()) == emit_t2(m),
    ensures
        spec_parse_t2(s, i) == Some((m, i + emit_t2(m).len())),
{
    let na = emit_num(m.len() as int);
    lemma_split(s, i, na, emit_t2entries(m));
    lemma_rt_num(s, i, m.len() as int);
    assert(Seq::<(Seq<char>, CModel)>::empty() + m =~= m);
    lemma_rt_t2entries(s, i + na.len(), m, Seq::empty());
}

proof fn lemma_rt_t3entries(s: Seq<char>, i: int, m: T3Model, acc: T3Model)
    requires
        forall|a: int, b: int|
            0 <= a < b < (acc + m).len() ==> ((#[trigger] (acc + m)[a]).0) != ((
            #[trigger] (acc + m)[b]).0),
        forall|a: int| 0 <= a < m.len() ==> t2_wf((#[trigger] m[a]).1),
        0 <= i,
        i + emit_t3entries(m).len() <= s.len(),
        s.subrange(i, i + emit_t3entries(m).len()) == emit_t3entries(m),
    ensures
        spec_parse_t3entries(s, i, m.len() as int, acc) == Some(
            (acc + m, i + emit_t3entries(m).len()),
        ),
    decreases m.len(),
{
    if m.len() == 0 {
        assert(acc + m =~= acc);
    } else {
        let e0 = m[0];
        let rest = m.drop_first();
        lemma_emit_t3entries_first(m);
        let ea = emit_t3entry(e0);
        let eb = emit_t3entries(rest);
        assert(emit_t3entries(m).len() == ea.len() + eb.len());
        lemma_split(s, i, ea, eb);
        let wa = emit_word(e0.0);
        let ca = emit_t2(e0.1);
        assert(ea == wa + ca);
        lemma_split(s, i, wa, ca);
        lemma_rt_word(s, i, e0.0);
        assert(t2_wf(e0.1));
        lemma_rt_t2(s, i + wa.len(), e0.1);
        assert(!t3_has(acc, e0.0)) by {
            if t3_has(acc, e0.0) {
                let q = choose|q: int| 0 <= q < acc.len() && (#[trigger] acc[q]).0 == e0.0;
                assert((acc + m)[q] == acc[q]);
                assert((acc + m)[acc.len() as int] == m[0]);
            }
        }
        assert((acc.push(e0)) + rest =~= acc + m);
        assert(forall|a: int|
            0 <= a < rest.len() ==> t2_wf((#[trigger] rest[a]).1)) by {
            assert(forall|a: int| 0 <= a < rest.len() ==> #[trigger] rest[a] == m[a + 1]);
        }
        lemma_rt_t3entries(s, i + ea.len(), rest, acc.push(e0));
        assert((e0.0, e0.1) == e0);
    }
}

proof fn lemma_rt_t3(s: Seq<char>, i: int, m: T3Model)
    requires
        t3_wf(m),
        0 <= i,
        i + emit_t3(m).len() <= s.len(),
        s.subrange(i, i + emit_t3(m).len()) == emit_t3(m),
    ensures
        spec_parse_t3(s, i) == Some((m, i + emit_t3(m).len())),
{
    let na = emit_num(m.len() as int);
    lemma_split(s, i, na, emit_t3entries(m));
    lemma_rt_num(s, i, m.len() as int);
    assert(Seq::<(Seq<char>, T2Model)>::empty() + m =~= m);
    lemma_rt_t3entries(s, i + na.len(), m, Seq::empty());
}

/// The round trip: a well-formed model document reads back as exactly the
/// tables it was written from — so writing, reading, and writing again
/// gives the same document both times.
#[verifier::spinoff_prover]
#[verifier::rlimit(100)]
pub proof fn lemma_rt_engine(total: int, m3: T3Model, m2: T2Model, m1: CModel)
    requires
        0 <= total <= u64::MAX,
        t3_wf(m3),
        t2_wf(m2),
        cm_wf(m1),
    ensures
        spec_parse_engine(emit_engine(total, m3, m2, m1)) == Some((total, m3, m2, m1)),
{
    let s = emit_engine(total, m3, m2, m1);
    let a = emit_num(total);
    let b = emit_t3(m3);
    let c = emit_t2(m2);
    let d = emit_cmap(m1);
    assert(s == ((a + b) + c) + d);
    assert(s =~= a + (b + (c + d)));
    assert(s.subrange(0, s.len() as int) =~= s);
    assert(s.len() == a.len() + (b.len() + (c.len() + d.len())));
    lemma_split(s, 0, a, b + (c + d));
    lemma_rt_num(s, 0, total);
    lemma_split(s, a.len() as int, b, c + d);
    lemma_rt_t3(s, a.len() as int, m3);
    lemma_split(s, a.len() + b.len() as int, c, d);
    lemma_rt_t2(s, a.len() + b.len() as int, m2);
    lemma_rt_cmap(s, a.len() + b.len() + c.len() as int, m1);
}

fn dchar_exec(d: u64) -> (c: char)
    requires
        d < 10,
    ensures
        c == dchar(d as int),
{
    if d == 0 {
        '0'
    } else if d == 1 {
        '1'
    } else if d == 2 {
        '2'
    } else if d == 3 {
        '3'
    } else if d == 4 {
        '4'
    } else if d == 5 {
        '5'
    } else if d == 6 {
        '6'
    } else if d == 7 {
        '7'
    } else if d == 8 {
        '8'
    } else {
        '9'
    }
}

/// Write one number token.
fn emit_num_exec(n: u64) -> (r: Vec<char>)
    ensures
        r@ == emit_num(n as int),
{
    let mut digits: Vec<char> = Vec::new();
    if n == 0 {
        digits.push('0');
        digits.push(';');
        proof {
            assert(digits@ =~= seq!['0', ';']);
        }
        return digits;
    }
    let mut cur = n;
    proof {
        assert(emit_digits(n as int) =~= emit_digits(cur as int) + digits@.reverse());
    }
    while cur > 0
        invariant
            emit_digits(n as int) =~= emit_digits(cur as int) + digits@.reverse(),
        decreases cur,
    {
        let d = cur % 10;
        let ghost pre = digits@;
        digits.push(dchar_exec(d));
        proof {
            assert(digits@.reverse() =~= seq![dchar(d as int)] + pre.reverse());
            assert(emit_digits(cur as int) == emit_digits(cur as int / 10).push(
                dchar(cur as int % 10),
            ));
            assert(cur as int / 10 == (cur / 10) as int);
            assert(cur as int % 10 == d as int);
            assert(emit_digits((cur / 10) as int).push(dchar(d as int)) + pre.reverse()
                =~= emit_digits((cur / 10) as int) + (seq![dchar(d as int)]
                + pre.reverse()));
            assert(emit_digits(n as int) =~= emit_digits((cur / 10) as int)
                + digits@.reverse());
        }
        cur = cur / 10;
    }
    proof {
        assert(emit_digits(0int) =~= Seq::<char>::empty());
        assert(emit_digits(n as int) =~= digits@.reverse());
    }
    let mut out = crate::words::rev_chars(&digits);
    out.push(';');
    proof {
        assert(out@ =~= emit_digits(n as int).push(';'));
    }
    out
}

/// Write one word token.
fn emit_word_exec(w: &Vec<char>) -> (r: Vec<char>)
    ensures
        r@ == emit_word(w@),
{
    let mut out = emit_num_exec(w.len() as u64);
    out.extend_from_slice(w.as_slice());
    proof {
        assert(out@ =~= emit_word(w@));
    }
    out
}

/// Write a counter table.
fn emit_cmap_exec(m: &crate::tables::CountMap) -> (r: Vec<char>)
    ensures
        r@ == emit_cmap(cmap_model(*m)),
{
    let ghost cm = cmap_model(*m);
    let mut out = emit_num_exec(m.entries.len() as u64);
    proof {
        assert(cm.len() == m.entries@.len());
        assert(cm.take(0) =~= Seq::<(Seq<char>, u64)>::empty());
        assert(out@ =~= emit_num(cm.len() as int) + emit_centries(cm.take(0)));
    }
    let n = m.entries.len();
    for i in 0..n
        invariant
            n == m.entries@.len(),
            cm == cmap_model(*m),
            cm.len() == n,
            out@ == emit_num(cm.len() as int) + emit_centries(cm.take(i as int)),
    {
        let cs = crate::words::chars_of(m.entries[i].0.as_str());
        let mut wtok = emit_word_exec(&cs);
        let ghost base = out@;
        out.append(&mut wtok);
        let mut vtok = emit_num_exec(m.entries[i].1);
        out.append(&mut vtok);
        proof {
            assert(cm[i as int] == (m.entries@[i as int].0@, m.entries@[i as int].1));
            assert(cm.take(i + 1).drop_last() =~= cm.take(i as int));
            assert(cm.take(i + 1).last() == cm[i as int]);
            assert(emit_centries(cm.take(i + 1)) == emit_centries(cm.take(i as int))
                + emit_centry(cm[i as int]));
            assert(out@ =~= emit_num(cm.len() as int) + emit_centries(cm.take(i + 1)));
        }
    }
    proof {
        assert(cm.take(n as int) =~= cm);
    }
    out
}

/// Write a two-level table.
fn emit_t2_exec(t: &crate::tables::TableTwo) -> (r: Vec<char>)
    ensures
        r@ == emit_t2(t2_model(*t)),
{
    let ghost tm = t2_model(*t);
    let mut out = emit_num_exec(t.entries.len() as u64);
    proof {
        assert(tm.len() == t.entries@.len());
        assert(tm.take(0) =~= Seq::<(Seq<char>, CModel)>::empty());
        assert(out@ =~= emit_num(tm.len() as int) + emit_t2entries(tm.take(0)));
    }
    let n = t.entries.len();
    for i in 0..n
        invariant
            n == t.entries@.len(),
            tm == t2_model(*t),
            tm.len() == n,
            out@ == emit_num(tm.len() as int) + emit_t2entries(tm.take(i as int)),
    {
        let cs = crate::words::chars_of(t.entries[i].0.as_str());
        let mut wtok = emit_word_exec(&cs);
        out.append(&mut wtok);
        let mut row = emit_cmap_exec(&t.entries[i].1);
        out.append(&mut row);
        proof {
            assert(tm[i as int] == (t.entries@[i as int].0@, cmap_model(
                t.entries@[i as int].1,
            )));
            assert(tm.take(i + 1).drop_last() =~= tm.take(i as int));
            assert(tm.take(i + 1).last() == tm[i as int]);
            assert(emit_t2entries(tm.take(i + 1)) == emit_t2entries(tm.take(i as int))
                + emit_t2entry(tm[i as int]));
            assert(out@ =~= emit_num(tm.len() as int) + emit_t2entries(tm.take(i + 1)));
        }
    }
    proof {
        assert(tm.take(n as int) =~= tm);
    }
    out
}

/// Write a three-level table.
fn emit_t3_exec(t: &crate::tables::TableThree) -> (r: Vec<char>)
    ensures
        r@ == emit_t3(t3_model(*t)),
{
    let ghost tm = t3_model(*t);
    let mut out = emit_num_exec(t.entries.len() as u64);
    proof {
        assert(tm.len() == t.entries@.len());
        assert(tm.take(0) =~= Seq::<(Seq<char>, T2Model)>::empty());
        assert(out@ =~= emit_num(tm.len() as int) + emit_t3entries(tm.take(0)));
    }
    let n = t.entries.len();
    for i in 0..n
        invariant
            n == t.entries@.len(),
            tm == t3_model(*t),
            tm.len() == n,
            out@ == emit_num(tm.len() as int) + emit_t3entries(tm.take(i as int)),
    {
        let cs = crate::words::chars_of(t.entries[i].0.as_str());
        let mut wtok = emit_word_exec(&cs);
        out.append(&mut wtok);
        let mut row = emit_t2_exec(&t.entries[i].1);
        out.append(&mut row);
        proof {
            assert(tm[i as int] == (t.entries@[i as int].0@, t2_model(
                t.entries@[i as int].1,
            )));
            assert(tm.take(i + 1).drop_last() =~= tm.take(i as int));
            assert(tm.take(i + 1).last() == tm[i as int]);
            assert(emit_t3entries(tm.take(i + 1)) == emit_t3entries(tm.take(i as int))
                + emit_t3entry(tm[i as int]));
            assert(out@ =~= emit_num(tm.len() as int) + emit_t3entries(tm.take(i + 1)));
        }
    }
    proof {
        assert(tm.take(n as int) =~= tm);
    }
    out
}

/// Write the whole model document. The serialized form is a pure function
/// of the four persisted members: equal tables give equal documents.
pub fn serialize(e: &crate::engine::Engine) -> (r: String)
    ensures
        r@ == emit_engine(
            e.total as int,
            t3_model(e.three_gram),
            t2_model(e.two_gram),
            cmap_model(e.counter),
        ),
{
    let mut out = emit_num_exec(e.total);
    let mut part3 = emit_t3_exec(&e.three_gram);
    out.append(&mut part3);
    let mut part2 = emit_t2_exec(&e.two_gram);
    out.append(&mut part2);
    let mut part1 = emit_cmap_exec(&e.counter);
    out.append(&mut part1);
    proof {
        assert(out@ =~= emit_engine(
            e.total as int,
            t3_model(e.three_gram),
            t2_model(e.two_gram),
            cmap_model(e.counter),
        ));
    }
    crate::words::string_of(&out)
}

fn is_digit_exec(c: char) -> (b: bool)
    ensures
        b == is_digit(c),
{
    c == '0' || c == '1' || c == '2' || c == '3' || c == '4' || c == '5' || c == '6' || c
        == '7' || c == '8' || c == '9'
}

fn dval_exec(c: char) -> (d: u64)
    requires
        is_digit(c),
    ensures
        d == dval(c),
        d < 10,
{
    if c == '0' {
        0
    } else if c == '1' {
        1
    } else if c == '2' {
        2
    } else if c == '3' {
        3
    } else if c == '4' {
        4
    } else if c == '5' {
        5
    } else if c == '6' {
        6
    } else if c == '7' {
        7
    } else if c == '8' {
        8
    } else {
        9
    }
}

/// Read one number token. `None` both on a malformed token and on a
/// value beyond `u64`, which the format cannot carry.
fn parse_num_exec(v: &Vec<char>, i: usize) -> (r: Option<(u64, usize)>)
    requires
        i <= v@.len(),
    ensures
        match r {
            Some((n, j)) => spec_parse_num(v@, i as int) == Some((n as int, j as int)) && i
                < j <= v@.len(),
            None => spec_parse_num(v@, i as int) is None || spec_parse_num(
                v@,
                i as int,
            )->Some_0.0 > u64::MAX,
        },
{
    let n = v.len();
    let mut j = i;
    let mut acc: u128 = 0;
    let ghost maxp = u64::MAX as u128 + 1;
    while j < n && is_digit_exec(v[j])
        invariant
            i <= j <= n,
            n == v@.len(),
            forall|k: int| i <= k < j ==> is_digit(#[trigger] v@[k]),
            acc <= u64::MAX as u128 + 1,
            val_digits(v@.subrange(i as int, j as int)) <= u64::MAX ==> acc as int
                == val_digits(v@.subrange(i as int, j as int)),
            val_digits(v@.subrange(i as int, j as int)) > u64::MAX ==> acc == u64::MAX
                as u128 + 1,
        decreases n - j,
    {
        let d = dval_exec(v[j]);
        let ghost oldval = val_digits(v@.subrange(i as int, j as int));
        let step = acc * 10 + d as u128;
        acc = if step > u64::MAX as u128 {
            u64::MAX as u128 + 1
        } else {
            step
        };
        proof {
            assert(v@.subrange(i as int, j + 1).drop_last() =~= v@.subrange(
                i as int,
                j as int,
            ));
            assert(v@.subrange(i as int, j + 1).last() == v@[j as int]);
            assert(val_digits(v@.subrange(i as int, j + 1)) == oldval * 10 + dval(
                v@[j as int],
            ));
            if oldval > u64::MAX {
                assert(oldval * 10 + dval(v@[j as int]) > u64::MAX) by (nonlinear_arith)
                    requires
                        oldval > u64::MAX,
                        dval(v@[j as int]) >= 0,
                ;
            }
        }
        j += 1;
    }
    proof {
        lemma_digits_end_exact(v@, i as int, j as int);
    }
    if j == i || j >= n {
        return None;
    }
    if v[j] != ';' {
        return None;
    }
    if acc > u64::MAX as u128 {
        return None;
    }
    Some((acc as u64, j + 1))
}

/// Read one word token.
fn parse_word_exec(v: &Vec<char>, i: usize) -> (r: Option<(Vec<char>, usize)>)
    requires
        i <= v@.len(),
    ensures
        match r {
            Some((w, j)) => spec_parse_word(v@, i as int) == Some((w@, j as int)) && i < j
                <= v@.len(),
            None => spec_parse_word(v@, i as int) is None,
        },
{
    let n = v.len();
    match parse_num_exec(v, i) {
        None => {
            proof {
                if spec_parse_num(v@, i as int) is Some {
                    let p = spec_parse_num(v@, i as int)->Some_0;
                    assert(p.0 > u64::MAX);
                    lemma_digits_end_bounds(v@, i as int);
                    assert(p.1 >= 0);
                    assert(v@.len() <= u64::MAX);
                    assert(p.1 + p.0 > v@.len());
                    assert(spec_parse_word(v@, i as int) is None);
                }
            }
            None
        },
        Some((l, j)) => {
            if l > (n - j) as u64 {
                return None;
            }
            let ll = l as usize;
            let mut w: Vec<char> = Vec::new();
            let mut k: usize = 0;
            while k < ll
                invariant
                    j + ll <= n,
                    n == v@.len(),
                    k <= ll,
                    w@ =~= v@.subrange(j as int, j + k),
                decreases ll - k,
            {
                w.push(v[j + k]);
                proof {
                    assert(v@.subrange(j as int, j + k + 1).drop_last() =~= v@.subrange(
                        j as int,
                        j + k,
                    ));
                    assert(v@.subrange(j as int, j + k + 1).last() == v@[j + k]);
                    assert(w@ =~= v@.subrange(j as int, j + k + 1));
                }
                k += 1;
            }
            proof {
                assert(ll as int == l as int);
                assert(w@ =~= v@.subrange(j as int, j + l as int));
            }
            Some((w, j + ll))
        },
    }
}

/// The view of raw counter rows.
pub open spec fn centries_view(entries: Seq<(String, u64)>) -> CModel {
    entries.map(|i: int, e: (String, u64)| (e.0@, e.1))
}

/// Whether `w` already keys one of the rows.
fn centries_has(entries: &Vec<(String, u64)>, w: &String) -> (b: bool)
    ensures
        b == cm_has(centries_view(entries@), w@),
{
    let n = entries.len();
    for q in 0..n
        invariant
            n == entries@.len(),
            forall|k: int| 0 <= k < q ==> (#[trigger] entries@[k]).0@ != w@,
    {
        proof {
            assert(centries_view(entries@)[q as int] == (entries@[q as int].0@,
            entries@[q as int].1));
        }
        if entries[q].0 == *w {
            proof {
                assert(cm_has(centries_view(entries@), w@));
            }
            return true;
        }
    }
    proof {
        assert(forall|k: int|
            0 <= k < entries@.len() ==> (#[trigger] centries_view(entries@)[k]).0
                == entries@[k].0@);
    }
    false
}

/// Read `cnt` counter rows.
fn parse_centries_exec(v: &Vec<char>, i: usize, cnt: u64) -> (r: Option<
    (Vec<(String, u64)>, usize),
>)
    requires
        i <= v@.len(),
    ensures
        match r {
            Some((out, j)) => spec_parse_centries(v@, i as int, cnt as int, Seq::empty())
                == Some((centries_view(out@), j as int)) && j <= v@.len() && cm_keys_unique(
                centries_view(out@),
            ),
            None => spec_parse_centries(v@, i as int, cnt as int, Seq::empty()) is None,
        },
{
    let mut out: Vec<(String, u64)> = Vec::new();
    let mut cur = i;
    let mut left = cnt;
    proof {
        assert(centries_view(out@) =~= Seq::<(Seq<char>, u64)>::empty());
    }
    while left > 0
        invariant
            cur <= v@.len(),
            left <= cnt,
            cm_keys_unique(centries_view(out@)),
            spec_parse_centries(v@, cur as int, left as int, centries_view(out@))
                == spec_parse_centries(v@, i as int, cnt as int, Seq::empty()),
        decreases left,
    {
        let ghost accm = centries_view(out@);
        let (w, j1) = match parse_word_exec(v, cur) {
            Some(p) => p,
            None => {
                return None;
            },
        };
        let (val, j2) = match parse_num_exec(v, j1) {
            Some(p) => p,
            None => {
                return None;
            },
        };
        let ws = crate::words::string_of(&w);
        if centries_has(&out, &ws) {
            return None;
        }
        let ghost pre = out@;
        out.push((ws, val));
        proof {
            assert(centries_view(out@) =~= accm.push((w@, val)));
            assert(cm_keys_unique(centries_view(out@))) by {
                assert(forall|k: int|
                    0 <= k < accm.len() ==> #[trigger] centries_view(out@)[k] == accm[k]);
                assert(centries_view(out@)[accm.len() as int].0 == w@);
                assert(!cm_has(accm, w@));
                assert forall|a: int, b: int|
                    0 <= a < b < centries_view(out@).len() implies (
                #[trigger] centries_view(out@)[a]).0 != (#[trigger] centries_view(
                    out@,
                )[b]).0 by {
                    if b == accm.len() as int {
                        if centries_view(out@)[a].0 == w@ {
                            assert(accm[a].0 == w@);
                        }
                    }
                }
            }
        }
        cur = j2;
        left = left - 1;
    }
    Some((out, cur))
}

/// Read a counter table.
fn parse_cmap_exec(v: &Vec<char>, i: usize) -> (r: Option<(crate::tables::CountMap, usize)>)
    requires
        i <= v@.len(),
    ensures
        match r {
            Some((cm, j)) => spec_parse_cmap(v@, i as int) == Some(
                (cmap_model(cm), j as int),
            ) && j <= v@.len() && cm.wf(),
            None => spec_parse_cmap(v@, i as int) is None,
        },
{
    let (cnt, j) = match parse_num_exec(v, i) {
        Some(p) => p,
        None => {
            return None;
        },
    };
    let (entries, end) = match parse_centries_exec(v, j, cnt) {
        Some(p) => p,
        None => {
            return None;
        },
    };
    let cm = crate::tables::CountMap { entries };
    proof {
        assert(cmap_model(cm) =~= centries_view(cm.entries@));
        assert(cm.wf()) by {
            assert forall|a: int, b: int|
                0 <= a < b < cm.entries@.len() implies (#[trigger] cm.entries@[a]).0@ != (
            #[trigger] cm.entries@[b]).0@ by {
                assert(centries_view(cm.entries@)[a].0 == cm.entries@[a].0@);
                assert(centries_view(cm.entries@)[b].0 == cm.entries@[b].0@);
                assert(centries_view(cm.entries@)[a].0 != centries_view(cm.entries@)[b].0);
            }
        }
    }
    Some((cm, end))
}

/// The view of raw two-level rows.
pub open spec fn t2entries_view(entries: Seq<(String, crate::tables::CountMap)>) -> T2Model {
    entries.map(|i: int, e: (String, crate::tables::CountMap)| (e.0@, cmap_model(e.1)))
}

fn t2entries_has(entries: &Vec<(String, crate::tables::CountMap)>, w: &String) -> (b: bool)
    ensures
        b == t2_has(t2entries_view(entries@), w@),
{
    let n = entries.len();
    for q in 0..n
        invariant
            n == entries@.len(),
            forall|k: int| 0 <= k < q ==> (#[trigger] entries@[k]).0@ != w@,
    {
        proof {
            assert(t2entries_view(entries@)[q as int].0 == entries@[q as int].0@);
        }
        if entries[q].0 == *w {
            proof {
                assert(t2_has(t2entries_view(entries@), w@));
            }
            return true;
        }
    }
    proof {
        assert(forall|k: int|
            0 <= k < entries@.len() ==> (#[trigger] t2entries_view(entries@)[k]).0
                == entries@[k].0@);
    }
    false
}

/// Read `cnt` two-level rows.
fn parse_t2entries_exec(v: &Vec<char>, i: usize, cnt: u64) -> (r: Option<
    (Vec<(String, crate::tables::CountMap)>, usize),
>)
    requires
        i <= v@.len(),
    ensures
        match r {
            Some((out, j)) => spec_parse_t2entries(v@, i as int, cnt as int, Seq::empty())
                == Some((t2entries_view(out@), j as int)) && j <= v@.len() && (forall|
                k: int,
            |
                0 <= k < out@.len() ==> (#[trigger] out@[k]).1.wf()) && (forall|
                a: int,
                b: int,
            |
                0 <= a < b < out@.len() ==> (#[trigger] out@[a]).0@ != (
                #[trigger] out@[b]).0@),
            None => spec_parse_t2entries(v@, i as int, cnt as int, Seq::empty()) is None,
        },
{
    let mut out: Vec<(String, crate::tables::CountMap)> = Vec::new();
    let mut cur = i;
    let mut left = cnt;
    proof {
        assert(t2entries_view(out@) =~= Seq::<(Seq<char>, CModel)>::empty());
    }
    while left > 0
        invariant
            cur <= v@.len(),
            left <= cnt,
            forall|k: int| 0 <= k < out@.len() ==> (#[trigger] out@[k]).1.wf(),
            forall|a: int, b: int|
                0 <= a < b < out@.len() ==> (#[trigger] out@[a]).0@ != (
                #[trigger] out@[b]).0@,
            spec_parse_t2entries(v@, cur as int, left as int, t2entries_view(out@))
                == spec_parse_t2entries(v@, i as int, cnt as int, Seq::empty()),
        decreases left,
    {
        let ghost accm = t2entries_view(out@);
        let (w, j1) = match parse_word_exec(v, cur) {
            Some(p) => p,
            None => {
                return None;
            },
        };
        let (row, j2) = match parse_cmap_exec(v, j1) {
            Some(p) => p,
            None => {
                return None;
            },
        };
        let ws = crate::words::string_of(&w);
        if t2entries_has(&out, &ws) {
            return None;
        }
        out.push((ws, row));
        proof {
            assert(t2entries_view(out@) =~= accm.push((w@, cmap_model(row))));
            assert(forall|k: int|
                0 <= k < accm.len() ==> #[trigger] t2entries_view(out@)[k] == accm[k]);
            assert(forall|k: int|
                0 <= k < accm.len() ==> (#[trigger] out@[k]).0@ == accm[k].0);
        }
        cur = j2;
        left = left - 1;
    }
    Some((out, cur))
}

fn parse_t2_exec(v: &Vec<char>, i: usize) -> (r: Option<(crate::tables::TableTwo, usize)>)
    requires
        i <= v@.len(),
    ensures
        match r {
            Some((t, j)) => spec_parse_t2(v@, i as int) == Some((t2_model(t), j as int))
                && j <= v@.len() && t.wf(),
            None => spec_parse_t2(v@, i as int) is None,
        },
{
    let (cnt, j) = match parse_num_exec(v, i) {
        Some(p) => p,
        None => {
            return None;
        },
    };
    let (entries, end) = match parse_t2entries_exec(v, j, cnt) {
        Some(p) => p,
        None => {
            return None;
        },
    };
    let t = crate::tables::TableTwo { entries };
    proof {
        assert(t2_model(t) =~= t2entries_view(t.entries@));
        assert(t.wf());
    }
    Some((t, end))
}

/// The view of raw three-level rows.
pub open spec fn t3entries_view(entries: Seq<(String, crate::tables::TableTwo)>) -> T3Model {
    entries.map(|i: int, e: (String, crate::tables::TableTwo)| (e.0@, t2_model(e.1)))
}

fn t3entries_has(entries: &Vec<(String, crate::tables::TableTwo)>, w: &String) -> (b: bool)
    ensures
        b == t3_has(t3entries_view(entries@), w@),
{
    let n = entries.len();
    for q in 0..n
        invariant
            n == entries@.len(),
            forall|k: int| 0 <= k < q ==> (#[trigger] entries@[k]).0@ != w@,
    {
        proof {
            assert(t3entries_view(entries@)[q as int].0 == entries@[q as int].0@);
        }
        if entries[q].0 == *w {
            proof {
                assert(t3_has(t3entries_view(entries@), w@));
            }
            return true;
        }
    }
    proof {
        assert(forall|k: int|
            0 <= k < entries@.len() ==> (#[trigger] t3entries_view(entries@)[k]).0
                == entries@[k].0@);
    }
    false
}

/// Read `cnt` three-level rows.
fn parse_t3entries_exec(v: &Vec<char>, i: usize, cnt: u64) -> (r: Option<
    (Vec<(String, crate::tables::TableTwo)>, usize),
>)
    requires
        i <= v@.len(),
    ensures
        match r {
            Some((out, j)) => spec_parse_t3entries(v@, i as int, cnt as int, Seq::empty())
                == Some((t3entries_view(out@), j as int)) && j <= v@.len() && (forall|
                k: int,
            |
                0 <= k < out@.len() ==> (#[trigger] out@[k]).1.wf()) && (forall|
                a: int,
                b: int,
            |
                0 <= a < b < out@.len() ==> (#[trigger] out@[a]).0@ != (
                #[trigger] out@[b]).0@),
            None => spec_parse_t3entries(v@, i as int, cnt as int, Seq::empty()) is None,
        },
{
    let mut out: Vec<(String, crate::tables::TableTwo)> = Vec::new();
    let mut cur = i;
    let mut left = cnt;
    proof {
        assert(t3entries_view(out@) =~= Seq::<(Seq<char>, T2Model)>::empty());
    }
    while left > 0
        invariant
            cur <= v@.len(),
            left <= cnt,
            forall|k: int| 0 <= k < out@.len() ==> (#[trigger] out@[k]).1.wf(),
            forall|a: int, b: int|
                0 <= a < b < out@.len() ==> (#[trigger] out@[a]).0@ != (
                #[trigger] out@[b]).0@,
            spec_parse_t3entries(v@, cur as int, left as int, t3entries_view(out@))
                == spec_parse_t3entries(v@, i as int, cnt as int, Seq::empty()),
        decreases left,
    {
        let ghost accm = t3entries_view(out@);
        let (w, j1) = match parse_word_exec(v, cur) {
            Some(p) => p,
            None => {
                return None;
            },
        };
        let (row, j2) = match parse_t2_exec(v, j1) {
            Some(p) => p,
            None => {
                return None;
            },
        };
        let ws = crate::words::string_of(&w);
        if t3entries_has(&out, &ws) {
            return None;
        }
        out.push((ws, row));
        proof {
            assert(t3entries_view(out@) =~= accm.push((w@, t2_model(row))));
            assert(forall|k: int|
                0 <= k < accm.len() ==> #[trigger] t3entries_view(out@)[k] == accm[k]);
            assert(forall|k: int|
                0 <= k < accm.len() ==> (#[trigger] out@[k]).0@ == accm[k].0);
        }
        cur = j2;
        left = left - 1;
    }
    Some((out, cur))
}

fn parse_t3_exec(v: &Vec<char>, i: usize) -> (r: Option<(crate::tables::TableThree, usize)>)
    requires
        i <= v@.len(),
    ensures
        match r {
            Some((t, j)) => spec_parse_t3(v@, i as int) == Some((t3_model(t), j as int))
                && j <= v@.len() && t.wf(),
            None => spec_parse_t3(v@, i as int) is None,
        },
{
    let (cnt, j) = match parse_num_exec(v, i) {
        Some(p) => p,
        None => {
            return None;
        },
    };
    let (entries, end) = match parse_t3entries_exec(v, j, cnt) {
        Some(p) => p,
        None => {
            return None;
        },
    };
    let t = crate::tables::TableThree { entries };
    proof {
        assert(t3_model(t) =~= t3entries_view(t.entries@));
        assert(t.wf());
    }
    Some((t, end))
}

/// Read a whole model document back into an `Engine`, its trie still
/// empty: a load calls `init_trie` next, as the trainer's caller does.
/// `None` on any malformed document, including one with trailing text.
pub fn parse(s: &str) -> (r: Option<crate::engine::Engine>)
    ensures
        match r {
            Some(e2) => spec_parse_engine(s@) == Some(
                (
                    e2.total as int,
                    t3_model(e2.three_gram),
                    t2_model(e2.two_gram),
                    cmap_model(e2.counter),
                ),
            ) && e2.wf() && (forall|p: Seq<char>|
                e2.trie.has_path(p) <==> p.len() == 0),
            None => spec_parse_engine(s@) is None,
        },
{
    let v = crate::words::chars_of(s);
    let (total, i) = match parse_num_exec(&v, 0) {
        Some(p) => p,
        None => {
            return None;
        },
    };
    let (three, j) = match parse_t3_exec(&v, i) {
        Some(p) => p,
        None => {
            return None;
        },
    };
    let (two, k) = match parse_t2_exec(&v, j) {
        Some(p) => p,
        None => {
            return None;
        },
    };
    let (counter, end) = match parse_cmap_exec(&v, k) {
        Some(p) => p,
        None => {
            return None;
        },
    };
    if end != v.len() {
        return None;
    }
    let trie = crate::trie::Trie::new();
    Some(
        crate::engine::Engine {
            three_gram: three,
            two_gram: two,
            counter,
            total,
            trie,
        },
    )
}

} // verus!
