use vstd::prelude::*;
use crate::modifier::{StatModifier, default_order_of};

verus! {

broadcast use vstd::seq_lib::group_to_multiset_ensures;

/// A modifier together with the order it applies in.
pub type OrderedModifier<A> = (StatModifier<A>, i32);

/// Whether the orders along `s` never decrease.
pub open spec fn sorted_by_order<A>(s: Seq<OrderedModifier<A>>) -> bool {
    forall|i: int, j: int| 0 <= i < j < s.len() ==> s[i].1 <= s[j].1
}

/// `x` placed into `s` after every entry whose order is at most its own and
/// before the trailing entries whose order is greater.
pub open spec fn insert_by_order<A>(s: Seq<OrderedModifier<A>>, x: OrderedModifier<A>) -> Seq<
    OrderedModifier<A>,
>
    decreases s.len(),
{
    if s.len() == 0 {
        seq![x]
    } else if s.last().1 <= x.1 {
        s.push(x)
    } else {
        insert_by_order(s.drop_last(), x).push(s.last())
    }
}

/// The entries of `s` sorted by order; entries with equal orders keep their
/// relative positions.
pub open spec fn sort_by_order<A>(s: Seq<OrderedModifier<A>>) -> Seq<OrderedModifier<A>>
    decreases s.len(),
{
    if s.len() == 0 {
        s
    } else {
        insert_by_order(sort_by_order(s.drop_last()), s.last())
    }
}

/// Inserting into `s` only moves `x` past the tail of entries whose order
/// exceeds its own.
pub proof fn lemma_insert_past_tail<A>(s: Seq<OrderedModifier<A>>, x: OrderedModifier<A>, k: int)
    requires
        0 <= k <= s.len(),
        forall|j: int| k <= j < s.len() ==> s[j].1 > x.1,
    ensures
        insert_by_order(s, x) == insert_by_order(s.take(k), x) + s.skip(k),
    decreases s.len(),
{
    if k == s.len() {
        assert(s.take(k) =~= s);
        assert(insert_by_order(s, x) =~= insert_by_order(s.take(k), x) + s.skip(k));
    } else {
        let d = s.drop_last();
        lemma_insert_past_tail(d, x, k);
        assert(d.take(k) =~= s.take(k));
        assert(d.skip(k).push(s.last()) =~= s.skip(k));
        assert(insert_by_order(s, x) =~= insert_by_order(s.take(k), x) + s.skip(k));
    }
}

/// Inserting keeps a sorted sequence sorted and adds exactly `x`.
pub proof fn lemma_insert_by_order<A>(s: Seq<OrderedModifier<A>>, x: OrderedModifier<A>)
    requires
        sorted_by_order(s),
    ensures
        sorted_by_order(insert_by_order(s, x)),
        insert_by_order(s, x).to_multiset() == s.to_multiset().insert(x),
        insert_by_order(s, x).len() == s.len() + 1,
    decreases s.len(),
{
    if s.len() == 0 {
        assert(seq![x] =~= Seq::<OrderedModifier<A>>::empty().push(x));
    } else if s.last().1 <= x.1 {
    } else {
        let d = s.drop_last();
        let r = insert_by_order(d, x);
        lemma_insert_by_order(d, x);
        assert(s =~= d.push(s.last()));
        assert forall|i: int| 0 <= i < r.len() implies r[i].1 <= s.last().1 by {
            assert(r.to_multiset().count(r[i]) > 0);
            if r[i] != x {
                assert(d.to_multiset().count(r[i]) > 0);
                let j = choose|j: int| 0 <= j < d.len() && d[j] == r[i];
                assert(s[j] == d[j]);
            }
        }
        assert(r.to_multiset().insert(s.last()) =~= s.to_multiset().insert(x));
    }
}

/// Sorting yields a sorted rearrangement of its input.
pub proof fn lemma_sort_by_order<A>(s: Seq<OrderedModifier<A>>)
    ensures
        sorted_by_order(sort_by_order(s)),
        sort_by_order(s).to_multiset() == s.to_multiset(),
        sort_by_order(s).len() == s.len(),
    decreases s.len(),
{
    if s.len() > 0 {
        let d = s.drop_last();
        lemma_sort_by_order(d);
        lemma_insert_by_order(sort_by_order(d), s.last());
        assert(s =~= d.push(s.last()));
    }
}

/// Every entry of the sorted sequence comes from the input.
pub proof fn lemma_sort_members<A>(s: Seq<OrderedModifier<A>>)
    ensures
        forall|i: int| 0 <= i < sort_by_order(s).len() ==> s.contains(#[trigger] sort_by_order(s)[i]),
{
    lemma_sort_by_order(s);
    assert forall|i: int| 0 <= i < sort_by_order(s).len() implies s.contains(
        #[trigger] sort_by_order(s)[i],
    ) by {
        assert(sort_by_order(s).to_multiset().count(sort_by_order(s)[i]) > 0);
    }
}

/// Entries whose orders all exceed those of `s`, given in sorted order, end up
/// after the whole of `s`, in the order given.
pub proof fn lemma_sort_append_above<A>(s: Seq<OrderedModifier<A>>, t: Seq<OrderedModifier<A>>)
    requires
        sorted_by_order(t),
        forall|i: int, j: int| 0 <= i < s.len() && 0 <= j < t.len() ==> s[i].1 < t[j].1,
    ensures
        sort_by_order(s + t) == sort_by_order(s) + t,
    decreases t.len(),
{
    if t.len() == 0 {
        assert(s + t =~= s);
        assert(sort_by_order(s) + t =~= sort_by_order(s));
    } else {
        let u = t.drop_last();
        let y = t.last();
        lemma_sort_append_above(s, u);
        assert((s + t).drop_last() =~= s + u);
        assert((s + t).last() == y);
        let p = sort_by_order(s) + u;
        if u.len() > 0 {
            assert(p.last() == u.last());
        } else if sort_by_order(s).len() > 0 {
            lemma_sort_members(s);
            lemma_sort_by_order(s);
            let e = sort_by_order(s).last();
            assert(s.contains(sort_by_order(s)[sort_by_order(s).len() - 1]));
            assert(p.last() == e);
        }
        assert(sort_by_order(s + t) == insert_by_order(p, y));
        assert(p.push(y) =~= sort_by_order(s) + t);
    }
}

/// Under default orders the sorted sequence applies flat additions first, then
/// percentage additions, then direct multiplications, whatever order the
/// modifiers were added in.
pub proof fn lemma_default_orders_apply_by_kind<A>(s: Seq<OrderedModifier<A>>)
    requires
        forall|i: int| 0 <= i < s.len() ==> (#[trigger] s[i]).1 == default_order_of(s[i].0),
    ensures
        forall|i: int, j: int|
            0 <= i < j < sort_by_order(s).len() ==> default_order_of(sort_by_order(s)[i].0)
                <= default_order_of(sort_by_order(s)[j].0),
{
    lemma_sort_by_order(s);
    lemma_sort_members(s);
    let r = sort_by_order(s);
    assert forall|i: int| 0 <= i < r.len() implies (#[trigger] r[i]).1 == default_order_of(
        r[i].0,
    ) by {
        assert(s.contains(r[i]));
    }
}

} // verus!
