//! A table of rows kept in ascending order of a text key, one row per key.

use vstd::prelude::*;

use crate::text;

verus! {

/// A record that a [`Table`] can hold: it has a model and a text key.
pub trait Row: DeepView {
    /// The key of a row, read off its model.
    spec fn key_of(v: <Self as DeepView>::V) -> Seq<char>;

    /// The key of this row.
    fn key(&self) -> (k: &str)
        ensures
            k@ == Self::key_of(self.deep_view()),
    ;
}

impl Row for String {
    open spec fn key_of(v: Seq<char>) -> Seq<char> {
        v
    }

    fn key(&self) -> (k: &str) {
        self.as_str()
    }
}

/// Rows in ascending order of their keys.
pub open spec fn ascending<R: Row>(rows: Seq<<R as DeepView>::V>) -> bool {
    forall|i: int, j: int|
        0 <= i < j < rows.len() ==> text::lex_less(#[trigger] R::key_of(rows[i]), #[trigger] R::key_of(rows[j]))
}

/// Whether some row of `rows` sits at position `i` under key `k`.
pub open spec fn sits_at<R: Row>(rows: Seq<<R as DeepView>::V>, k: Seq<char>, i: int) -> bool {
    0 <= i < rows.len() && R::key_of(rows[i]) == k
}

/// The rows, looked up by key.
pub open spec fn by_key<R: Row>(rows: Seq<<R as DeepView>::V>) -> Map<Seq<char>, <R as DeepView>::V> {
    Map::new(
        |k: Seq<char>| exists|i: int| sits_at::<R>(rows, k, i),
        |k: Seq<char>| rows[choose|i: int| sits_at::<R>(rows, k, i)],
    )
}

/// In an ascending listing every row is found under its own key.
pub proof fn lemma_by_key<R: Row>(rows: Seq<<R as DeepView>::V>, i: int)
    requires
        ascending::<R>(rows),
        0 <= i < rows.len(),
    ensures
        by_key::<R>(rows).contains_key(R::key_of(rows[i])),
        by_key::<R>(rows)[R::key_of(rows[i])] == rows[i],
{
    let k = R::key_of(rows[i]);
    assert(sits_at::<R>(rows, k, i));
    let c = choose|c: int| sits_at::<R>(rows, k, c);
    if c < i {
        text::lemma_lex_irreflexive(k);
        assert(text::lex_less(R::key_of(rows[c]), R::key_of(rows[i])));
    } else if i < c {
        text::lemma_lex_irreflexive(k);
        assert(text::lex_less(R::key_of(rows[i]), R::key_of(rows[c])));
    }
}

/// A key that the listing knows belongs to some row of it.
pub proof fn lemma_key_has_row<R: Row>(rows: Seq<<R as DeepView>::V>, k: Seq<char>) -> (i: int)
    requires
        ascending::<R>(rows),
        by_key::<R>(rows).contains_key(k),
    ensures
        0 <= i < rows.len(),
        R::key_of(rows[i]) == k,
        by_key::<R>(rows)[k] == rows[i],
{
    let i = choose|i: int| sits_at::<R>(rows, k, i);
    lemma_by_key::<R>(rows, i);
    i
}

/// Whether `keys` lists the keys of `m`, each once, in ascending order.
pub open spec fn lists_keys<V>(m: Map<Seq<char>, V>, keys: Seq<Seq<char>>) -> bool {
    &&& forall|i: int, j: int|
        0 <= i < j < keys.len() ==> text::lex_less(#[trigger] keys[i], #[trigger] keys[j])
    &&& forall|k: Seq<char>| #[trigger] keys.contains(k) <==> m.contains_key(k)
}

/// The keys of `m` in ascending order.
pub open spec fn sorted_keys<V>(m: Map<Seq<char>, V>) -> Seq<Seq<char>> {
    choose|keys: Seq<Seq<char>>| lists_keys(m, keys)
}

/// An ascending list is determined by what it holds.
proof fn lemma_ascending_unique(a: Seq<Seq<char>>, b: Seq<Seq<char>>)
    requires
        forall|i: int, j: int|
            0 <= i < j < a.len() ==> text::lex_less(#[trigger] a[i], #[trigger] a[j]),
        forall|i: int, j: int|
            0 <= i < j < b.len() ==> text::lex_less(#[trigger] b[i], #[trigger] b[j]),
        forall|k: Seq<char>| #[trigger] a.contains(k) <==> b.contains(k),
    ensures
        a == b,
    decreases a.len(),
{
    if a.len() == 0 {
        if b.len() > 0 {
            assert(b.contains(b[0]));
            assert(a.contains(b[0]));
        }
        assert(a =~= b);
    } else {
        let x = a.last();
        assert(a.contains(x));
        let i = choose|i: int| 0 <= i < b.len() && b[i] == x;
        let y = b.last();
        assert(b.contains(y));
        assert(a.contains(y));
        let j = choose|j: int| 0 <= j < a.len() && a[j] == y;
        if i < b.len() - 1 {
            assert(text::lex_less(b[i], b[b.len() - 1]));
            if j < a.len() - 1 {
                assert(text::lex_less(a[j], a[a.len() - 1]));
                text::lemma_lex_asymmetric(x, y);
            } else {
                text::lemma_lex_irreflexive(x);
            }
        }
        assert(x == y);
        let a1 = a.drop_last();
        let b1 = b.drop_last();
        assert forall|k: Seq<char>| #[trigger] a1.contains(k) <==> b1.contains(k) by {
            text::lemma_lex_irreflexive(x);
            if a1.contains(k) {
                let n = choose|n: int| 0 <= n < a1.len() && a1[n] == k;
                assert(a[n] == k);
                assert(a.contains(k));
                assert(text::lex_less(a[n], a[a.len() - 1]));
                let m = choose|m: int| 0 <= m < b.len() && b[m] == k;
                assert(b1[m] == k);
            }
            if b1.contains(k) {
                let n = choose|n: int| 0 <= n < b1.len() && b1[n] == k;
                assert(b[n] == k);
                assert(b.contains(k));
                assert(a.contains(k));
                assert(text::lex_less(b[n], b[b.len() - 1]));
                let m = choose|m: int| 0 <= m < a.len() && a[m] == k;
                assert(a1[m] == k);
            }
        }
        lemma_ascending_unique(a1, b1);
        assert(a =~= a1.push(x));
        assert(b =~= b1.push(y));
    }
}

/// The keys along an ascending listing.
pub open spec fn keys_along<R: Row>(rows: Seq<<R as DeepView>::V>) -> Seq<Seq<char>> {
    Seq::new(rows.len(), |i: int| R::key_of(rows[i]))
}

/// An ascending listing runs through the sorted keys.
pub proof fn lemma_keys_along<R: Row>(rows: Seq<<R as DeepView>::V>)
    requires
        ascending::<R>(rows),
    ensures
        sorted_keys(by_key::<R>(rows)) == keys_along::<R>(rows),
        lists_keys(by_key::<R>(rows), keys_along::<R>(rows)),
{
    let keys = keys_along::<R>(rows);
    let m = by_key::<R>(rows);
    assert forall|k: Seq<char>| #[trigger] keys.contains(k) <==> m.contains_key(k) by {
        if keys.contains(k) {
            let i = choose|i: int| 0 <= i < keys.len() && keys[i] == k;
            lemma_by_key::<R>(rows, i);
        }
        if m.contains_key(k) {
            let i = lemma_key_has_row::<R>(rows, k);
            assert(keys[i] == k);
        }
    }
    assert forall|i: int, j: int| 0 <= i < j < keys.len() implies text::lex_less(
        #[trigger] keys[i],
        #[trigger] keys[j],
    ) by {
        assert(text::lex_less(R::key_of(rows[i]), R::key_of(rows[j])));
    }
    assert(lists_keys(m, keys));
    let other = sorted_keys(m);
    assert(lists_keys(m, other));
    assert forall|k: Seq<char>| #[trigger] keys.contains(k) <==> other.contains(k) by {
        assert(keys.contains(k) <==> m.contains_key(k));
        assert(other.contains(k) <==> m.contains_key(k));
    }
    lemma_ascending_unique(keys, other);
}

/// A listing has as many rows as there are keys.
pub proof fn lemma_len<R: Row>(rows: Seq<<R as DeepView>::V>)
    requires
        ascending::<R>(rows),
    ensures
        by_key::<R>(rows).dom().finite(),
        by_key::<R>(rows).dom().len() == rows.len(),
{
    let keys = keys_along::<R>(rows);
    assert(keys.no_duplicates()) by {
        assert forall|i: int, j: int| 0 <= i < keys.len() && 0 <= j < keys.len() && i != j implies keys[i]
            != keys[j] by {
            text::lemma_lex_irreflexive(keys[i]);
            if i < j {
                assert(text::lex_less(R::key_of(rows[i]), R::key_of(rows[j])));
            } else {
                assert(text::lex_less(R::key_of(rows[j]), R::key_of(rows[i])));
            }
        }
    }
    keys.unique_seq_to_set();
    assert forall|k: Seq<char>| #[trigger] keys.to_set().contains(k) == by_key::<R>(rows).dom().contains(k) by {
        if keys.contains(k) {
            let i = choose|i: int| 0 <= i < keys.len() && keys[i] == k;
            lemma_by_key::<R>(rows, i);
        }
        if by_key::<R>(rows).contains_key(k) {
            let i = lemma_key_has_row::<R>(rows, k);
            assert(keys[i] == k);
        }
    }
    assert(keys.to_set() =~= by_key::<R>(rows).dom());
    vstd::seq_lib::seq_to_set_is_finite(keys);
}

proof fn lemma_replace<R: Row>(before: Seq<<R as DeepView>::V>, at: int, v: <R as DeepView>::V)
    requires
        ascending::<R>(before),
        0 <= at < before.len(),
        R::key_of(before[at]) == R::key_of(v),
    ensures
        ascending::<R>(before.update(at, v)),
        by_key::<R>(before.update(at, v)) == by_key::<R>(before).insert(R::key_of(v), v),
{
    let after = before.update(at, v);
    let k = R::key_of(v);
    assert forall|i: int, j: int| 0 <= i < j < after.len() implies text::lex_less(
        #[trigger] R::key_of(after[i]),
        #[trigger] R::key_of(after[j]),
    ) by {
        assert(R::key_of(after[i]) == R::key_of(before[i]));
        assert(R::key_of(after[j]) == R::key_of(before[j]));
        assert(text::lex_less(R::key_of(before[i]), R::key_of(before[j])));
    }
    assert(ascending::<R>(after));
    assert forall|key: Seq<char>| #[trigger] by_key::<R>(after).contains_key(key)
        == by_key::<R>(before).insert(k, v).contains_key(key) by {
        if by_key::<R>(after).contains_key(key) {
            let i = lemma_key_has_row::<R>(after, key);
            lemma_by_key::<R>(before, i);
        }
        if key == k {
            lemma_by_key::<R>(after, at);
        } else if by_key::<R>(before).contains_key(key) {
            let i = lemma_key_has_row::<R>(before, key);
            lemma_by_key::<R>(after, i);
        }
    }
    assert forall|key: Seq<char>| #[trigger] by_key::<R>(after).contains_key(key) implies by_key::<R>(
        after,
    )[key] == by_key::<R>(before).insert(k, v)[key] by {
        let i = lemma_key_has_row::<R>(after, key);
        lemma_by_key::<R>(after, at);
        if key != k {
            lemma_by_key::<R>(before, i);
        }
    }
    assert(by_key::<R>(after) =~= by_key::<R>(before).insert(k, v));
}

proof fn lemma_insert<R: Row>(before: Seq<<R as DeepView>::V>, at: int, v: <R as DeepView>::V)
    requires
        ascending::<R>(before),
        0 <= at <= before.len(),
        forall|j: int| 0 <= j < at ==> text::lex_less(#[trigger] R::key_of(before[j]), R::key_of(v)),
        forall|j: int|
            at <= j < before.len() ==> text::lex_less(R::key_of(v), #[trigger] R::key_of(before[j])),
    ensures
        ascending::<R>(before.insert(at, v)),
        by_key::<R>(before.insert(at, v)) == by_key::<R>(before).insert(R::key_of(v), v),
{
    let after = before.insert(at, v);
    let k = R::key_of(v);
    text::lemma_lex_irreflexive(k);
    assert forall|i: int, j: int| 0 <= i < j < after.len() implies text::lex_less(
        #[trigger] R::key_of(after[i]),
        #[trigger] R::key_of(after[j]),
    ) by {
        let i0 = if i < at { i } else { i - 1 };
        let j0 = if j < at { j } else { j - 1 };
        if i != at {
            assert(after[i] == before[i0]);
        }
        if j != at {
            assert(after[j] == before[j0]);
        }
        if i != at && j != at {
            assert(text::lex_less(R::key_of(before[i0]), R::key_of(before[j0])));
        }
    }
    assert(ascending::<R>(after));
    assert(after[at] == v);
    assert forall|key: Seq<char>| #[trigger] by_key::<R>(after).contains_key(key)
        == by_key::<R>(before).insert(k, v).contains_key(key) by {
        if by_key::<R>(after).contains_key(key) {
            let i = lemma_key_has_row::<R>(after, key);
            if i != at {
                let i0 = if i < at { i } else { i - 1 };
                assert(after[i] == before[i0]);
                lemma_by_key::<R>(before, i0);
            }
        }
        if key == k {
            lemma_by_key::<R>(after, at);
        } else if by_key::<R>(before).contains_key(key) {
            let i0 = lemma_key_has_row::<R>(before, key);
            let i = if i0 < at { i0 } else { i0 + 1 };
            assert(after[i] == before[i0]);
            lemma_by_key::<R>(after, i);
        }
    }
    assert forall|key: Seq<char>| #[trigger] by_key::<R>(after).contains_key(key) implies by_key::<R>(
        after,
    )[key] == by_key::<R>(before).insert(k, v)[key] by {
        let i = lemma_key_has_row::<R>(after, key);
        lemma_by_key::<R>(after, at);
        if key != k {
            let i0 = if i < at { i } else { i - 1 };
            assert(after[i] == before[i0]);
            lemma_by_key::<R>(before, i0);
        }
    }
    assert(by_key::<R>(after) =~= by_key::<R>(before).insert(k, v));
}

proof fn lemma_remove<R: Row>(before: Seq<<R as DeepView>::V>, at: int)
    requires
        ascending::<R>(before),
        0 <= at < before.len(),
    ensures
        ascending::<R>(before.remove(at)),
        by_key::<R>(before.remove(at)) == by_key::<R>(before).remove(R::key_of(before[at])),
{
    let after = before.remove(at);
    let k = R::key_of(before[at]);
    assert forall|i: int, j: int| 0 <= i < j < after.len() implies text::lex_less(
        #[trigger] R::key_of(after[i]),
        #[trigger] R::key_of(after[j]),
    ) by {
        let i0 = if i < at { i } else { i + 1 };
        let j0 = if j < at { j } else { j + 1 };
        assert(after[i] == before[i0]);
        assert(after[j] == before[j0]);
        assert(text::lex_less(R::key_of(before[i0]), R::key_of(before[j0])));
    }
    assert(ascending::<R>(after));
    assert forall|key: Seq<char>| #[trigger] by_key::<R>(after).contains_key(key)
        == by_key::<R>(before).remove(k).contains_key(key) by {
        if by_key::<R>(after).contains_key(key) {
            let i = lemma_key_has_row::<R>(after, key);
            let i0 = if i < at { i } else { i + 1 };
            assert(after[i] == before[i0]);
            lemma_by_key::<R>(before, i0);
            text::lemma_lex_irreflexive(key);
            if i0 < at {
                assert(text::lex_less(R::key_of(before[i0]), R::key_of(before[at])));
            } else {
                assert(text::lex_less(R::key_of(before[at]), R::key_of(before[i0])));
            }
        } else if key != k && by_key::<R>(before).contains_key(key) {
            let i0 = lemma_key_has_row::<R>(before, key);
            let i = if i0 < at { i0 } else { i0 - 1 };
            assert(after[i] == before[i0]);
            lemma_by_key::<R>(after, i);
        }
    }
    assert forall|key: Seq<char>| #[trigger] by_key::<R>(after).contains_key(key) implies by_key::<R>(
        after,
    )[key] == by_key::<R>(before).remove(k)[key] by {
        let i = lemma_key_has_row::<R>(after, key);
        let i0 = if i < at { i } else { i + 1 };
        assert(after[i] == before[i0]);
        lemma_by_key::<R>(before, i0);
    }
    assert(by_key::<R>(after) =~= by_key::<R>(before).remove(k));
}

/// A table of rows, one per key, listed in ascending order of the keys.
pub struct Table<R: Row> {
    rows: Vec<R>,
}

impl<R: Row> Table<R> {
    /// The rows in ascending order of their keys.
    pub closed spec fn listing(&self) -> Seq<<R as DeepView>::V> {
        self.rows.deep_view()
    }

    /// The rows by key.
    pub open spec fn view(&self) -> Map<Seq<char>, <R as DeepView>::V> {
        by_key::<R>(self.listing())
    }

    /// Whether the rows are in order, so that no key occurs twice.
    pub open spec fn wf(&self) -> bool {
        ascending::<R>(self.listing())
    }

    /// The empty table.
    pub fn new() -> (t: Self)
        ensures
            t.wf(),
            t@ == Map::<Seq<char>, <R as DeepView>::V>::empty(),
            t.listing().len() == 0,
    {
        let t = Table { rows: Vec::new() };
        assert(t@ =~= Map::<Seq<char>, <R as DeepView>::V>::empty());
        t
    }

    /// How many rows there are.
    pub fn len(&self) -> (n: usize)
        ensures
            n == self.listing().len(),
    {
        self.rows.len()
    }

    /// The row at position `i` of the listing.
    pub fn row(&self, i: usize) -> (r: &R)
        requires
            i < self.listing().len(),
        ensures
            r.deep_view() == self.listing()[i as int],
    {
        &self.rows[i]
    }

    /// The first position whose key does not sort before `k`.
    fn lower_bound(&self, k: &str) -> (at: usize)
        requires
            self.wf(),
        ensures
            at <= self.listing().len(),
            forall|j: int|
                0 <= j < at ==> text::lex_less(#[trigger] R::key_of(self.listing()[j]), k@),
            forall|j: int|
                at <= j < self.listing().len() ==> !text::lex_less(#[trigger] R::key_of(self.listing()[j]), k@),
    {
        let mut lo: usize = 0;
        let mut hi: usize = self.rows.len();
        while lo < hi
            invariant
                self.wf(),
                lo <= hi <= self.listing().len(),
                self.listing() == self.rows.deep_view(),
                self.rows.len() == self.listing().len(),
                forall|j: int|
                    0 <= j < lo ==> text::lex_less(#[trigger] R::key_of(self.listing()[j]), k@),
                forall|j: int|
                    hi <= j < self.listing().len() ==> !text::lex_less(#[trigger] R::key_of(self.listing()[j]), k@),
            decreases hi - lo,
        {
            let mid: usize = lo + (hi - lo) / 2;
            let ghost mid_key = R::key_of(self.listing()[mid as int]);
            if text::str_less(self.rows[mid].key(), k) {
                assert forall|j: int| 0 <= j < mid + 1 implies text::lex_less(
                    #[trigger] R::key_of(self.listing()[j]),
                    k@,
                ) by {
                    if j < mid {
                        text::lemma_lex_transitive(R::key_of(self.listing()[j]), mid_key, k@);
                    }
                }
                lo = mid + 1;
            } else {
                assert forall|j: int| mid <= j < self.listing().len() implies !text::lex_less(
                    #[trigger] R::key_of(self.listing()[j]),
                    k@,
                ) by {
                    if j > mid && text::lex_less(R::key_of(self.listing()[j]), k@) {
                        text::lemma_lex_transitive(mid_key, R::key_of(self.listing()[j]), k@);
                    }
                }
                hi = mid;
            }
        }
        lo
    }

    /// The position of the row under key `k`.
    pub fn position(&self, k: &str) -> (at: Option<usize>)
        requires
            self.wf(),
        ensures
            match at {
                Some(i) => i < self.listing().len() && R::key_of(self.listing()[i as int]) == k@
                    && self@.contains_key(k@) && self@[k@] == self.listing()[i as int],
                None => !self@.contains_key(k@),
            },
    {
        let at: usize = self.lower_bound(k);
        if at < self.rows.len() && text::str_eq(self.rows[at].key(), k) {
            proof {
                lemma_by_key::<R>(self.listing(), at as int);
            }
            Some(at)
        } else {
            proof {
                if self@.contains_key(k@) {
                    let i = lemma_key_has_row::<R>(self.listing(), k@);
                    text::lemma_lex_irreflexive(k@);
                    if i > at {
                        assert(text::lex_less(R::key_of(self.listing()[at as int]), R::key_of(self.listing()[i])));
                    }
                }
            }
            None
        }
    }

    /// The row under key `k`.
    pub fn get(&self, k: &str) -> (r: Option<&R>)
        requires
            self.wf(),
        ensures
            match r {
                Some(row) => self@.contains_key(k@) && row.deep_view() == self@[k@],
                None => !self@.contains_key(k@),
            },
    {
        match self.position(k) {
            Some(i) => Some(&self.rows[i]),
            None => None,
        }
    }

    /// Whether there is a row under key `k`.
    pub fn contains(&self, k: &str) -> (r: bool)
        requires
            self.wf(),
        ensures
            r == self@.contains_key(k@),
    {
        self.position(k).is_some()
    }

    /// Files `row` under its key, in place of any row already there.
    pub fn put(&mut self, row: R)
        requires
            old(self).wf(),
        ensures
            final(self).wf(),
            final(self)@ == old(self)@.insert(R::key_of(row.deep_view()), row.deep_view()),
    {
        let ghost before = self.listing();
        let ghost v = row.deep_view();
        let ghost k = R::key_of(v);
        let at: usize = self.lower_bound(row.key());
        if at < self.rows.len() && text::str_eq(self.rows[at].key(), row.key()) {
            self.rows.set(at, row);
            assert(self.listing() =~= before.update(at as int, v));
            proof {
                lemma_replace::<R>(before, at as int, v);
            }
        } else {
            self.rows.insert(at, row);
            assert(self.listing() =~= before.insert(at as int, v));
            proof {
                assert forall|j: int| at <= j < before.len() implies text::lex_less(
                    k,
                    #[trigger] R::key_of(before[j]),
                ) by {
                    text::lemma_lex_total(k, R::key_of(before[j]));
                    if R::key_of(before[j]) == k && j > at {
                        assert(text::lex_less(R::key_of(before[at as int]), R::key_of(before[j])));
                    }
                }
                lemma_insert::<R>(before, at as int, v);
            }
        }
    }

    /// Drops the row under key `k`, if there is one.
    pub fn remove(&mut self, k: &str)
        requires
            old(self).wf(),
        ensures
            final(self).wf(),
            final(self)@ == old(self)@.remove(k@),
    {
        let ghost before = self.listing();
        match self.position(k) {
            None => {
                assert(self@.remove(k@) =~= self@);
            },
            Some(at) => {
                let _ = self.rows.remove(at);
                assert(self.listing() =~= before.remove(at as int));
                proof {
                    lemma_remove::<R>(before, at as int);
                }
            },
        }
    }
}

/// A row with a rank of its own, besides its key: a strict total order on rows.
pub trait Ranked: Row {
    /// Whether a row ranks before another.
    spec fn precedes(a: <Self as DeepView>::V, b: <Self as DeepView>::V) -> bool;

    /// No row ranks before itself.
    proof fn irreflexive(a: <Self as DeepView>::V)
        ensures
            !Self::precedes(a, a),
    ;

    /// Rank is transitive.
    proof fn transitive(a: <Self as DeepView>::V, b: <Self as DeepView>::V, c: <Self as DeepView>::V)
        requires
            Self::precedes(a, b),
            Self::precedes(b, c),
        ensures
            Self::precedes(a, c),
    ;

    /// Of two rows with different keys one ranks before the other.
    proof fn total(a: <Self as DeepView>::V, b: <Self as DeepView>::V)
        requires
            Self::key_of(a) != Self::key_of(b),
        ensures
            Self::precedes(a, b) || Self::precedes(b, a),
    ;

    /// Whether this row ranks before `other`.
    fn before(&self, other: &Self) -> (r: bool)
        ensures
            r == Self::precedes(self.deep_view(), other.deep_view()),
    ;
}

/// Rows in the order of their ranks.
pub open spec fn in_rank_order<R: Ranked>(rows: Seq<<R as DeepView>::V>) -> bool {
    forall|i: int, j: int|
        0 <= i < j < rows.len() ==> R::precedes(#[trigger] rows[i], #[trigger] rows[j])
}

/// Whether `rows` lists the rows of `m`, each once, in the order of their ranks.
pub open spec fn lists_rows<R: Ranked>(
    m: Map<Seq<char>, <R as DeepView>::V>,
    rows: Seq<<R as DeepView>::V>,
) -> bool {
    &&& in_rank_order::<R>(rows)
    &&& forall|v: <R as DeepView>::V| #[trigger]
        rows.contains(v) <==> (m.contains_key(R::key_of(v)) && m[R::key_of(v)] == v)
}

/// The rows of `m` in the order of their ranks.
pub open spec fn ranked<R: Ranked>(m: Map<Seq<char>, <R as DeepView>::V>) -> Seq<<R as DeepView>::V> {
    choose|rows: Seq<<R as DeepView>::V>| lists_rows::<R>(m, rows)
}

proof fn lemma_rank_unique<R: Ranked>(a: Seq<<R as DeepView>::V>, b: Seq<<R as DeepView>::V>)
    requires
        in_rank_order::<R>(a),
        in_rank_order::<R>(b),
        forall|v: <R as DeepView>::V| #[trigger] a.contains(v) <==> b.contains(v),
    ensures
        a == b,
    decreases a.len(),
{
    if a.len() == 0 {
        if b.len() > 0 {
            assert(b.contains(b[0]));
            assert(a.contains(b[0]));
        }
        assert(a =~= b);
    } else {
        let x = a.last();
        assert(a.contains(x));
        let i = choose|i: int| 0 <= i < b.len() && b[i] == x;
        let y = b.last();
        assert(b.contains(y));
        assert(a.contains(y));
        let j = choose|j: int| 0 <= j < a.len() && a[j] == y;
        R::irreflexive(x);
        if i < b.len() - 1 {
            assert(R::precedes(b[i], b[b.len() - 1]));
            if j < a.len() - 1 {
                assert(R::precedes(a[j], a[a.len() - 1]));
                R::transitive(x, y, x);
            }
        }
        assert(x == y);
        let a1 = a.drop_last();
        let b1 = b.drop_last();
        assert forall|v: <R as DeepView>::V| #[trigger] a1.contains(v) <==> b1.contains(v) by {
            if a1.contains(v) {
                let n = choose|n: int| 0 <= n < a1.len() && a1[n] == v;
                assert(a[n] == v);
                assert(a.contains(v));
                assert(R::precedes(a[n], a[a.len() - 1]));
                let m = choose|m: int| 0 <= m < b.len() && b[m] == v;
                assert(b1[m] == v);
            }
            if b1.contains(v) {
                let n = choose|n: int| 0 <= n < b1.len() && b1[n] == v;
                assert(b[n] == v);
                assert(b.contains(v));
                assert(a.contains(v));
                assert(R::precedes(b[n], b[b.len() - 1]));
                let m = choose|m: int| 0 <= m < a.len() && a[m] == v;
                assert(a1[m] == v);
            }
        }
        lemma_rank_unique::<R>(a1, b1);
        assert(a =~= a1.push(x));
        assert(b =~= b1.push(y));
    }
}

/// A rank-ordered listing of a map's rows is the listing.
pub proof fn lemma_ranked<R: Ranked>(
    m: Map<Seq<char>, <R as DeepView>::V>,
    rows: Seq<<R as DeepView>::V>,
)
    requires
        lists_rows::<R>(m, rows),
    ensures
        ranked::<R>(m) == rows,
{
    let other = ranked::<R>(m);
    assert(lists_rows::<R>(m, other));
    assert forall|v: <R as DeepView>::V| #[trigger] rows.contains(v) <==> other.contains(v) by {
        assert(other.contains(v) <==> (m.contains_key(R::key_of(v)) && m[R::key_of(v)] == v));
    }
    lemma_rank_unique::<R>(rows, other);
}

/// A row can be put in its place among rows that are in order.
proof fn lemma_insert_ranked<R: Ranked>(rows: Seq<<R as DeepView>::V>, v: <R as DeepView>::V) -> (out:
    Seq<<R as DeepView>::V>)
    requires
        in_rank_order::<R>(rows),
        forall|i: int| 0 <= i < rows.len() ==> R::key_of(#[trigger] rows[i]) != R::key_of(v),
    ensures
        in_rank_order::<R>(out),
        forall|x: <R as DeepView>::V| #[trigger] out.contains(x) <==> rows.contains(x) || x == v,
    decreases rows.len(),
{
    if rows.len() == 0 {
        let out = seq![v];
        assert(out[0] == v);
        out
    } else {
        let last = rows.last();
        let init = rows.drop_last();
        R::total(last, v);
        assert(rows =~= init.push(last));
        if R::precedes(last, v) {
            let out = rows.push(v);
            assert forall|i: int, j: int| 0 <= i < j < out.len() implies R::precedes(
                #[trigger] out[i],
                #[trigger] out[j],
            ) by {
                if j == rows.len() && i < rows.len() - 1 {
                    assert(R::precedes(rows[i], rows[rows.len() - 1]));
                    R::transitive(rows[i], last, v);
                }
            }
            lemma_push_contains(rows, v);
            out
        } else {
            let rest = lemma_insert_ranked::<R>(init, v);
            let out = rest.push(last);
            assert forall|i: int, j: int| 0 <= i < j < out.len() implies R::precedes(
                #[trigger] out[i],
                #[trigger] out[j],
            ) by {
                if j == rest.len() {
                    assert(rest.contains(rest[i]));
                    if rest[i] != v {
                        let k = choose|k: int| 0 <= k < init.len() && init[k] == rest[i];
                        assert(R::precedes(rows[k], rows[rows.len() - 1]));
                    }
                }
            }
            lemma_push_contains(rest, last);
            lemma_push_contains(init, last);
            out
        }
    }
}

/// What a list holds after one more item has been put at its end.
proof fn lemma_push_contains<V>(s: Seq<V>, v: V)
    ensures
        forall|x: V| #[trigger] s.push(v).contains(x) <==> s.contains(x) || x == v,
{
    assert forall|x: V| #[trigger] s.push(v).contains(x) <==> s.contains(x) || x == v by {
        if s.contains(x) {
            let i = choose|i: int| 0 <= i < s.len() && s[i] == x;
            assert(s.push(v)[i] == x);
        }
        assert(s.push(v)[s.len() as int] == v);
    }
}

/// Rows with different keys can be put in the order of their ranks.
proof fn lemma_can_be_ranked<R: Ranked>(rows: Seq<<R as DeepView>::V>) -> (out: Seq<
    <R as DeepView>::V,
>)
    requires
        forall|i: int, j: int|
            0 <= i < j < rows.len() ==> R::key_of(#[trigger] rows[i]) != R::key_of(
                #[trigger] rows[j],
            ),
    ensures
        in_rank_order::<R>(out),
        forall|x: <R as DeepView>::V| #[trigger] out.contains(x) <==> rows.contains(x),
    decreases rows.len(),
{
    if rows.len() == 0 {
        rows
    } else {
        let init = rows.drop_last();
        let v = rows.last();
        let rest = lemma_can_be_ranked::<R>(init);
        assert forall|i: int| 0 <= i < rest.len() implies R::key_of(#[trigger] rest[i]) != R::key_of(
            v,
        ) by {
            assert(rest.contains(rest[i]));
            let k = choose|k: int| 0 <= k < init.len() && init[k] == rest[i];
            assert(rows[k] == rest[i]);
        }
        assert(rows =~= init.push(v));
        lemma_push_contains(init, v);
        lemma_insert_ranked::<R>(rest, v)
    }
}

/// The rows at the given positions of a listing.
pub open spec fn at_positions<V>(listing: Seq<V>, order: Seq<usize>) -> Seq<V> {
    Seq::new(order.len(), |i: int| listing[order[i] as int])
}

impl<R: Ranked> Table<R> {
    /// The rows of a table can be listed in the order of their ranks, each once: that listing is
    /// [`ranked`].
    pub proof fn lemma_rank_listing(&self)
        requires
            self.wf(),
        ensures
            lists_rows::<R>(self@, ranked::<R>(self@)),
    {
        let rows = self.listing();
        assert forall|i: int, j: int| 0 <= i < j < rows.len() implies R::key_of(#[trigger] rows[i])
            != R::key_of(#[trigger] rows[j]) by {
            assert(text::lex_less(R::key_of(rows[i]), R::key_of(rows[j])));
            text::lemma_lex_irreflexive(R::key_of(rows[i]));
        }
        let out = lemma_can_be_ranked::<R>(rows);
        assert forall|v: <R as DeepView>::V| #[trigger] out.contains(v) <==> (self@.contains_key(
            R::key_of(v),
        ) && self@[R::key_of(v)] == v) by {
            if rows.contains(v) {
                let i = choose|i: int| 0 <= i < rows.len() && rows[i] == v;
                lemma_by_key::<R>(rows, i);
            }
            if self@.contains_key(R::key_of(v)) && self@[R::key_of(v)] == v {
                let k = lemma_key_has_row::<R>(rows, R::key_of(v));
                assert(rows.contains(rows[k]));
            }
        }
        assert(lists_rows::<R>(self@, out));
    }

    /// The positions of the rows in the order of their ranks.
    pub fn rank_order(&self) -> (order: Vec<usize>)
        requires
            self.wf(),
        ensures
            forall|i: int| 0 <= i < order@.len() ==> (#[trigger] order@[i]) < self.listing().len(),
            at_positions(self.listing(), order@) == ranked::<R>(self@),
    {
        let ghost rows = self.listing();
        let mut order: Vec<usize> = Vec::new();
        let mut n: usize = 0;
        while n < self.len()
            invariant
                self.wf(),
                rows == self.listing(),
                n <= rows.len(),
                forall|i: int| 0 <= i < order@.len() ==> (#[trigger] order@[i]) < n,
                in_rank_order::<R>(at_positions(rows, order@)),
                forall|k: int|
                    0 <= k < n ==> at_positions(rows, order@).contains(#[trigger] rows[k]),
            decreases rows.len() - n,
        {
            let row = self.row(n);
            let ghost before = at_positions(rows, order@);
            let ghost v = rows[n as int];
            let mut p: usize = 0;
            while p < order.len() && self.row(order[p]).before(row)
                invariant
                    self.wf(),
                    rows == self.listing(),
                    n < rows.len(),
                    v == rows[n as int],
                    row.deep_view() == v,
                    p <= order.len(),
                    before == at_positions(rows, order@),
                    forall|i: int| 0 <= i < order@.len() ==> (#[trigger] order@[i]) < n,
                    forall|i: int| 0 <= i < p ==> R::precedes(#[trigger] before[i], v),
                ensures
                    p <= order.len(),
                    p < order.len() ==> !R::precedes(before[p as int], v),
                    forall|i: int| 0 <= i < p ==> R::precedes(#[trigger] before[i], v),
                decreases order.len() - p,
            {
                assert(before[p as int] == rows[order@[p as int] as int]);
                p = p + 1;
            }
            let ghost old_order = order@;
            order.insert(p, n);
            proof {
                let after = at_positions(rows, order@);
                assert(after =~= before.insert(p as int, v));
                assert forall|i: int| p <= i < before.len() implies R::precedes(v, #[trigger] before[i]) by {
                    let k = old_order[i] as int;
                    assert(before[i] == rows[k]);
                    assert(text::lex_less(R::key_of(rows[k]), R::key_of(rows[n as int])));
                    text::lemma_lex_asymmetric(R::key_of(rows[k]), R::key_of(rows[n as int]));
                    R::total(rows[k], v);
                    if i > p {
                        let kp = old_order[p as int] as int;
                        assert(before[p as int] == rows[kp]);
                        assert(text::lex_less(R::key_of(rows[kp]), R::key_of(rows[n as int])));
                        text::lemma_lex_asymmetric(R::key_of(rows[kp]), R::key_of(rows[n as int]));
                        R::total(rows[kp], v);
                        R::transitive(v, before[p as int], before[i]);
                    }
                }
                assert forall|i: int, j: int| 0 <= i < j < after.len() implies R::precedes(
                    #[trigger] after[i],
                    #[trigger] after[j],
                ) by {
                    let i0 = if i < p { i } else { i - 1 };
                    let j0 = if j < p { j } else { j - 1 };
                    if i != p {
                        assert(after[i] == before[i0]);
                    }
                    if j != p {
                        assert(after[j] == before[j0]);
                    }
                    if i != p && j != p {
                        assert(R::precedes(before[i0], before[j0]));
                    }
                }
                assert forall|k: int| 0 <= k < n + 1 implies after.contains(#[trigger] rows[k]) by {
                    if k < n {
                        assert(before.contains(rows[k]));
                        let i = choose|i: int| 0 <= i < before.len() && before[i] == rows[k];
                        let i1 = if i < p { i } else { i + 1 };
                        assert(after[i1] == rows[k]);
                    } else {
                        assert(after[p as int] == rows[k]);
                    }
                }
                assert forall|i: int| 0 <= i < order@.len() implies (#[trigger] order@[i]) < n + 1 by {
                    if i < p {
                        assert(order@[i] == old_order[i]);
                    } else if i > p {
                        assert(order@[i] == old_order[i - 1]);
                    }
                }
            }
            n = n + 1;
        }
        proof {
            let sorted = at_positions(rows, order@);
            assert forall|v: <R as DeepView>::V| #[trigger] sorted.contains(v) <==> (self@.contains_key(
                R::key_of(v),
            ) && self@[R::key_of(v)] == v) by {
                if sorted.contains(v) {
                    let i = choose|i: int| 0 <= i < sorted.len() && sorted[i] == v;
                    lemma_by_key::<R>(rows, order@[i] as int);
                }
                if self@.contains_key(R::key_of(v)) && self@[R::key_of(v)] == v {
                    let k = lemma_key_has_row::<R>(rows, R::key_of(v));
                    assert(sorted.contains(rows[k]));
                }
            }
            lemma_ranked::<R>(self@, sorted);
        }
        order
    }
}

} // verus!
