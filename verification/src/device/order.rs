//! Sorting by a text, the entries with equal texts left in their order.

use vstd::prelude::*;

use crate::device::RemoteEntry;
use crate::device::RemoteEntryView;
use crate::device::RemoteFile;
use crate::device::RemoteFileView;
use crate::text;

verus! {

/// What can be put in order by a text.
pub trait Keyed: DeepView {
    /// The text.
    spec fn key_of(v: Self::V) -> Seq<char>;

    /// The text.
    fn key(&self) -> (k: &str)
        ensures
            k@ == Self::key_of(self.deep_view()),
    ;
}

impl Keyed for RemoteEntry {
    open spec fn key_of(v: RemoteEntryView) -> Seq<char> {
        v.uuid
    }

    fn key(&self) -> &str {
        self.uuid.as_str()
    }
}

impl Keyed for RemoteFile {
    open spec fn key_of(v: RemoteFileView) -> Seq<char> {
        v.path
    }

    fn key(&self) -> &str {
        self.path.as_str()
    }
}

/// Whether the texts never go down.
pub open spec fn in_order<T: Keyed>(s: Seq<T::V>) -> bool {
    forall|i: int, j: int|
        0 <= i < j < s.len() ==> !text::lex_less(
            T::key_of(#[trigger] s[j]),
            T::key_of(#[trigger] s[i]),
        )
}

/// The place for a new entry: behind all that do not come after it.
pub open spec fn place<T: Keyed>(s: Seq<T::V>, x: T::V) -> int
    decreases s.len(),
{
    if s.len() == 0 {
        0
    } else if text::lex_less(T::key_of(x), T::key_of(s.last())) {
        place::<T>(s.drop_last(), x)
    } else {
        s.len() as int
    }
}

/// The entries in order.
pub open spec fn ordered<T: Keyed>(s: Seq<T::V>) -> Seq<T::V>
    decreases s.len(),
{
    if s.len() == 0 {
        s
    } else {
        let rest = ordered::<T>(s.drop_last());
        rest.insert(place::<T>(rest, s.last()), s.last())
    }
}

proof fn lemma_place<T: Keyed>(s: Seq<T::V>, x: T::V)
    ensures
        0 <= place::<T>(s, x) <= s.len(),
        forall|i: int|
            place::<T>(s, x) <= i < s.len() ==> text::lex_less(
                T::key_of(x),
                T::key_of(#[trigger] s[i]),
            ),
        place::<T>(s, x) > 0 ==> !text::lex_less(
            T::key_of(x),
            T::key_of(s[place::<T>(s, x) - 1]),
        ),
    decreases s.len(),
{
    if s.len() > 0 && text::lex_less(T::key_of(x), T::key_of(s.last())) {
        let rest = s.drop_last();
        lemma_place::<T>(rest, x);
        assert forall|i: int| place::<T>(s, x) <= i < s.len() implies text::lex_less(
            T::key_of(x),
            T::key_of(#[trigger] s[i]),
        ) by {
            if i < rest.len() {
                assert(s[i] == rest[i]);
            }
        }
    }
}

/// Ordering puts the entries in order, and neither drops nor adds any.
pub proof fn ordering_sorts<T: Keyed>(s: Seq<T::V>)
    ensures
        in_order::<T>(ordered::<T>(s)),
        ordered::<T>(s).to_multiset() == s.to_multiset(),
        ordered::<T>(s).len() == s.len(),
    decreases s.len(),
{
    broadcast use vstd::seq_lib::group_to_multiset_ensures;

    if s.len() > 0 {
        ordering_sorts::<T>(s.drop_last());
        let rest = ordered::<T>(s.drop_last());
        let x = s.last();
        let at = place::<T>(rest, x);
        lemma_place::<T>(rest, x);
        let all = rest.insert(at, x);
        assert forall|i: int, j: int| 0 <= i < j < all.len() implies !text::lex_less(
            T::key_of(#[trigger] all[j]),
            T::key_of(#[trigger] all[i]),
        ) by {
            if j == at {
                let before = rest[at - 1];
                assert(all[i] == rest[i]);
                if i < at - 1 && text::lex_less(T::key_of(x), T::key_of(rest[i])) {
                    text::lemma_lex_total(T::key_of(rest[i]), T::key_of(before));
                    if text::lex_less(T::key_of(rest[i]), T::key_of(before)) {
                        text::lemma_lex_transitive(
                            T::key_of(x),
                            T::key_of(rest[i]),
                            T::key_of(before),
                        );
                    }
                }
            } else if i == at {
                text::lemma_lex_asymmetric(T::key_of(x), T::key_of(rest[j - 1]));
            } else {
                let a = if i < at {
                    i
                } else {
                    i - 1
                };
                let b = if j < at {
                    j
                } else {
                    j - 1
                };
                assert(all[i] == rest[a] && all[j] == rest[b]);
            }
        }
        assert(s =~= s.drop_last().push(x));
        assert(all.remove(at) =~= rest);
        assert(all.to_multiset().remove(x) =~= rest.to_multiset());
        assert(all.contains(all[at]));
        assert(all.to_multiset() =~= rest.to_multiset().insert(x));
    }
}

/// Puts entries in order.
pub fn order<T: Keyed>(items: Vec<T>) -> (r: Vec<T>)
    ensures
        r.deep_view() == ordered::<T>(items.deep_view()),
{
    let ghost all = items.deep_view();
    let mut rest = items;
    let mut sorted: Vec<T> = Vec::new();
    assert(sorted.deep_view() =~= ordered::<T>(all.take(0)));
    while rest.len() > 0
        invariant
            rest@.len() + sorted@.len() == all.len(),
            forall|k: int| 0 <= k < rest@.len() ==> (#[trigger] rest@[k]).deep_view() == all[sorted@.len() + k],
            sorted.deep_view() == ordered::<T>(all.take(sorted@.len() as int)),
        decreases rest@.len(),
    {
        let x = rest.remove(0);
        let ghost n = sorted@.len() as int;
        let ghost before = sorted.deep_view();
        assert(x.deep_view() == all[n]);
        let mut at: usize = sorted.len();
        assert(before.take(at as int) =~= before);
        while at > 0 && text::str_less(x.key(), sorted[at - 1].key())
            invariant
                at <= sorted@.len(),
                before == sorted.deep_view(),
                place::<T>(before.take(at as int), x.deep_view()) == place::<T>(before, x.deep_view()),
            decreases at,
        {
            assert(before.take(at as int).drop_last() =~= before.take(at - 1));
            assert(before.take(at as int).last() == sorted@[at - 1].deep_view());
            at = at - 1;
        }
        proof {
            if at > 0 {
                assert(before.take(at as int).last() == sorted@[at - 1].deep_view());
            }
            assert(place::<T>(before, x.deep_view()) == at);
            assert(all.take(n + 1).drop_last() =~= all.take(n));
            assert(all.take(n + 1).last() == x.deep_view());
        }
        sorted.insert(at, x);
        assert(sorted.deep_view() =~= before.insert(at as int, x.deep_view()));
    }
    assert(all.take(all.len() as int) =~= all);
    sorted
}

/// Ordering leaves entries with equal texts in the order in which they came.
pub proof fn ordering_is_stable<T: Keyed>(s: Seq<T::V>, key: Seq<char>)
    ensures
        ordered::<T>(s).filter(|v: T::V| T::key_of(v) == key) == s.filter(
            |v: T::V| T::key_of(v) == key,
        ),
    decreases s.len(),
{
    let same = |v: T::V| T::key_of(v) == key;
    reveal(Seq::filter);
    if s.len() > 0 {
        let init = s.drop_last();
        let rest = ordered::<T>(init);
        let x = s.last();
        let at = place::<T>(rest, x);
        ordering_is_stable::<T>(init, key);
        lemma_place::<T>(rest, x);
        let head = rest.take(at);
        let tail = rest.skip(at);
        assert(rest.insert(at, x) =~= head + seq![x] + tail);
        assert(rest =~= head + tail);
        Seq::filter_distributes_over_add(head, tail, same);
        Seq::filter_distributes_over_add(head + seq![x], tail, same);
        Seq::filter_distributes_over_add(head, seq![x], same);
        Seq::filter_distributes_over_add(init, seq![x], same);
        assert(s =~= init + seq![x]);
        if same(x) {
            assert forall|i: int| 0 <= i < tail.len() implies !same(#[trigger] tail[i]) by {
                assert(tail[i] == rest[at + i]);
                text::lemma_lex_asymmetric(T::key_of(x), T::key_of(rest[at + i]));
            }
            lemma_filter_none(tail, same);
            assert(head.filter(same) + tail.filter(same) =~= head.filter(same));
            assert(head.filter(same) + seq![x].filter(same) + tail.filter(same) =~= head.filter(
                same,
            ) + seq![x].filter(same));
        } else {
            assert(seq![x].drop_last() =~= seq![]);
            reveal_with_fuel(Seq::filter, 2);
            assert(seq![x].filter(same) =~= seq![]);
            assert(head.filter(same) + seq![] + tail.filter(same) =~= head.filter(same)
                + tail.filter(same));
            assert(init.filter(same) + seq![] =~= init.filter(same));
        }
    }
}

proof fn lemma_filter_none<A>(s: Seq<A>, keep: spec_fn(A) -> bool)
    requires
        forall|i: int| 0 <= i < s.len() ==> !keep(#[trigger] s[i]),
    ensures
        s.filter(keep) == Seq::<A>::empty(),
    decreases s.len(),
{
    reveal(Seq::filter);
    if s.len() > 0 {
        let init = s.drop_last();
        assert forall|i: int| 0 <= i < init.len() implies !keep(#[trigger] init[i]) by {
            assert(init[i] == s[i]);
        }
        lemma_filter_none(init, keep);
        assert(s[s.len() - 1] == s.last());
    }
}

} // verus!
