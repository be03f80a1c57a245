use vstd::prelude::*;
use crate::cell::{InteriorCell, new_interior_cell, borrow_cell};
use crate::handle::{StatModifierHandle, new_handle, held_elsewhere};
use crate::modifier::StatModifier;
use crate::order::{OrderedModifier, sort_by_order, insert_by_order, lemma_insert_past_tail};

verus! {

/// The store has no room for another modifier: every slot holds one whose
/// handle is still alive.
#[derive(Debug, Clone, Copy, PartialEq, Eq, Structural)]
pub struct ModifiersFullError;

/// One slot of a store: a modifier, the order it applies in, and the store's
/// own reference to the handle that keeps it in effect.
struct ModifierMeta<A> {
    modifier: StatModifier<A>,
    order: i32,
    holder: StatModifierHandle,
}

impl<A> ModifierMeta<A> {
    spec fn entry(self) -> OrderedModifier<A> {
        (self.modifier, self.order)
    }
}

/// The entries of `s` whose flag in `live` is set, in their original order.
pub open spec fn keep_live<T>(s: Seq<T>, live: Seq<bool>) -> Seq<T>
    decreases s.len(),
{
    if s.len() == 0 {
        s
    } else {
        let r = keep_live(s.drop_last(), live);
        if live[s.len() - 1] {
            r.push(s.last())
        } else {
            r
        }
    }
}

/// `after` is `before` with the entries whose handles were found dropped taken
/// out, the others kept in place.
pub open spec fn retires_stale<A>(
    before: Seq<OrderedModifier<A>>,
    after: Seq<OrderedModifier<A>>,
) -> bool {
    exists|live: Seq<bool>| live.len() == before.len() && after == keep_live(before, live)
}

/// The greatest order in `s`, or 0 when `s` is empty.
pub open spec fn highest_order_of<A>(s: Seq<OrderedModifier<A>>) -> i32
    decreases s.len(),
{
    if s.len() == 0 {
        0
    } else if s.len() == 1 {
        s[0].1
    } else {
        let m = highest_order_of(s.drop_last());
        if s.last().1 > m {
            s.last().1
        } else {
            m
        }
    }
}

/// The order that a modifier of order `order` gets when it is applied after a
/// stat whose highest order is `h`: `h + 1 + order`, wrapping on overflow.
pub open spec fn shifted_order(h: i32, order: i32) -> i32 {
    h.wrapping_add(1).wrapping_add(order)
}

/// `t` with every order moved above `h`.
pub open spec fn shift_after<A>(t: Seq<OrderedModifier<A>>, h: i32) -> Seq<OrderedModifier<A>> {
    t.map_values(|e: OrderedModifier<A>| (e.0, shifted_order(h, e.1)))
}

/// Keeping entries never lengthens a sequence, keeps it whole when every
/// flag is set, and shortens it when some flag is clear.
pub proof fn lemma_keep_live<T>(s: Seq<T>, live: Seq<bool>)
    ensures
        keep_live(s, live).len() <= s.len(),
        (forall|i: int| 0 <= i < s.len() ==> live[i]) ==> keep_live(s, live) == s,
        (exists|i: int| 0 <= i < s.len() && !live[i]) ==> keep_live(s, live).len() < s.len(),
    decreases s.len(),
{
    if s.len() > 0 {
        lemma_keep_live(s.drop_last(), live);
        assert(s.drop_last().push(s.last()) =~= s);
        if exists|i: int| 0 <= i < s.len() && !live[i] {
            let i = choose|i: int| 0 <= i < s.len() && !live[i];
            if i < s.len() - 1 {
                assert(!live[i] && 0 <= i < s.drop_last().len());
            }
        }
    }
}

/// Every order in `s` is at most `highest_order_of(s)`.
pub proof fn lemma_highest_order_bounds<A>(s: Seq<OrderedModifier<A>>)
    ensures
        forall|i: int| 0 <= i < s.len() ==> (#[trigger] s[i]).1 <= highest_order_of(s),
    decreases s.len(),
{
    if s.len() > 1 {
        lemma_highest_order_bounds(s.drop_last());
        assert forall|i: int| 0 <= i < s.len() implies (#[trigger] s[i]).1 <= highest_order_of(
            s,
        ) by {
            if i < s.len() - 1 {
                assert(s[i] == s.drop_last()[i]);
            }
        }
    }
}

/// The modifiers attached to one stat, each kept in effect by a handle.
///
/// A bounded store holds at most `M` modifiers and refuses more; a growable
/// store takes any number. Slots whose handles have been dropped are retired
/// only by the operations that perform maintenance (`update_modifiers`,
/// `add_modifier*`, `highest_order`, `integrate_modifiers`).
pub struct ModifierStore<A, const M: usize> {
    slots: InteriorCell<Vec<ModifierMeta<A>>>,
    growable: bool,
}

impl<A, const M: usize> View for ModifierStore<A, M> {
    type V = Seq<OrderedModifier<A>>;

    /// The modifiers in slot order, each with its order.
    closed spec fn view(&self) -> Seq<OrderedModifier<A>> {
        self.slots.contents()@.map_values(|m: ModifierMeta<A>| m.entry())
    }
}

impl<A: Copy, const M: usize> ModifierStore<A, M> {
    /// Whether the store grows past `M` instead of refusing modifiers.
    pub closed spec fn is_growable(&self) -> bool {
        self.growable
    }

    /// A bounded store never holds more than `M` modifiers.
    pub closed spec fn wf(&self) -> bool {
        self.growable || self.slots.contents()@.len() <= M
    }

    /// Whether a store holding `len` modifiers takes one more.
    pub open spec fn admits(&self, len: int) -> bool {
        self.is_growable() || len < M
    }

    /// How many of `n` further modifiers a store holding `len` takes.
    pub open spec fn room_for(&self, len: int, n: int) -> int {
        if self.is_growable() || n <= M - len {
            n
        } else if len <= M {
            M - len
        } else {
            0
        }
    }

    /// An empty bounded store.
    pub fn new() -> (r: Self)
        ensures
            r.wf(),
            r@ == Seq::<OrderedModifier<A>>::empty(),
            !r.is_growable(),
    {
        let r = ModifierStore { slots: new_interior_cell(Vec::new()), growable: false };
        assert(r@ =~= Seq::<OrderedModifier<A>>::empty());
        r
    }

    /// An empty growable store.
    pub fn new_growable() -> (r: Self)
        ensures
            r.wf(),
            r@ == Seq::<OrderedModifier<A>>::empty(),
            r.is_growable(),
    {
        let r = ModifierStore { slots: new_interior_cell(Vec::new()), growable: true };
        assert(r@ =~= Seq::<OrderedModifier<A>>::empty());
        r
    }

    /// For each slot, whether its handle is still held outside the store.
    fn liveness(&self) -> (live: Vec<bool>)
        ensures
            live@.len() == self@.len(),
    {
        let slots = self.slots.get();
        let mut live: Vec<bool> = Vec::new();
        let mut i: usize = 0;
        while i < slots.len()
            invariant
                i <= slots@.len(),
                live@.len() == i,
                slots@.len() == self@.len(),
            decreases slots@.len() - i,
        {
            live.push(held_elsewhere(&slots[i].holder));
            i += 1;
        }
        live
    }

    /// Retires the slots whose flag in `live` is clear, keeping the others in
    /// place; tells whether any slot was retired.
    pub fn retain_live(&mut self, live: &Vec<bool>) -> (removed: bool)
        requires
            old(self).wf(),
            live@.len() == old(self)@.len(),
        ensures
            final(self).wf(),
            final(self).is_growable() == old(self).is_growable(),
            final(self)@ == keep_live(old(self)@, live@),
            removed == (exists|i: int| 0 <= i < live@.len() && !live@[i]),
    {
        let ghost s0 = self@;
        let mut i: usize = 0;
        let mut j: usize = 0;
        let mut removed = false;
        while i < live.len()
            invariant
                j <= i <= live@.len(),
                live@.len() == s0.len(),
                self.growable == old(self).growable,
                self@ == keep_live(s0.take(i as int), live@) + s0.skip(i as int),
                j == keep_live(s0.take(i as int), live@).len(),
                self.slots.contents()@.len() == self@.len(),
                removed == (exists|k: int| 0 <= k < i && !live@[k]),
            decreases live@.len() - i,
        {
            let ghost before = self@;
            let ghost kept = keep_live(s0.take(i as int), live@);
            proof {
                lemma_keep_live(s0.take(i as int), live@);
                assert(s0.take(i as int + 1).drop_last() =~= s0.take(i as int));
            }
            if live[i] {
                j += 1;
                proof {
                    assert(keep_live(s0.take(i as int + 1), live@) == kept.push(s0[i as int]));
                    assert(kept.push(s0[i as int]) + s0.skip(i as int + 1) =~= kept + s0.skip(
                        i as int,
                    ));
                }
            } else {
                let ghost v0 = self.slots.contents()@;
                borrow_cell(&mut self.slots).remove(j);
                proof {
                    assert(keep_live(s0.take(i as int + 1), live@) == kept);
                    assert(self.slots.contents()@ == v0.remove(j as int));
                    assert(self@ =~= before.remove(j as int));
                    assert(before.remove(j as int) =~= kept + s0.skip(i as int + 1));
                }
                removed = true;
            }
            i += 1;
        }
        proof {
            assert(s0.take(i as int) =~= s0);
            assert(self@ =~= keep_live(s0, live@));
            lemma_keep_live(s0, live@);
        }
        removed
    }

    /// Maintenance: retires every slot whose handle has been dropped and tells
    /// whether there was any.
    pub fn update_modifiers(&mut self) -> (removed: bool)
        requires
            old(self).wf(),
        ensures
            final(self).wf(),
            final(self).is_growable() == old(self).is_growable(),
            retires_stale(old(self)@, final(self)@),
            removed == (final(self)@.len() < old(self)@.len()),
    {
        let live = self.liveness();
        let removed = self.retain_live(&live);
        proof {
            lemma_keep_live(old(self)@, live@);
        }
        removed
    }

    /// Places a modifier in a new slot without maintenance; refused when a
    /// bounded store is full.
    fn attach(&mut self, modifier: StatModifier<A>, order: i32, holder: StatModifierHandle) -> (r:
        Result<(), ModifiersFullError>)
        requires
            old(self).wf(),
        ensures
            final(self).wf(),
            final(self).is_growable() == old(self).is_growable(),
            r.is_ok() == old(self).admits(old(self)@.len() as int),
            r.is_ok() ==> final(self)@ == old(self)@.push((modifier, order)),
            r.is_err() ==> final(self)@ == old(self)@,
            r.is_err() ==> !old(self).is_growable() && old(self)@.len() == M,
            old(self).is_growable() ==> r.is_ok(),
    {
        if !self.growable && self.slots.get().len() >= M {
            return Err(ModifiersFullError);
        }
        let ghost v0 = self.slots.contents()@;
        let meta = ModifierMeta { modifier, order, holder };
        borrow_cell(&mut self.slots).push(meta);
        proof {
            assert(self.slots.contents()@ == v0.push(meta));
            assert(self@ =~= old(self)@.push((modifier, order)));
        }
        Ok(())
    }

    /// Adds `modifier` with an explicit order, after maintenance. On success
    /// the returned handle keeps the modifier in effect.
    pub fn add_modifier_with_order(&mut self, modifier: StatModifier<A>, order: i32) -> (r: Result<
        StatModifierHandle,
        ModifiersFullError,
    >)
        requires
            old(self).wf(),
        ensures
            final(self).wf(),
            final(self).is_growable() == old(self).is_growable(),
            exists|kept: Seq<OrderedModifier<A>>|
                {
                    &&& #[trigger] retires_stale(old(self)@, kept)
                    &&& r.is_ok() == old(self).admits(kept.len() as int)
                    &&& r.is_ok() ==> final(self)@ == kept.push((modifier, order))
                    &&& r.is_err() ==> final(self)@ == kept
                },
            r.is_err() ==> final(self)@ == old(self)@,
            r.is_err() ==> !old(self).is_growable() && old(self)@.len() == M,
            old(self).is_growable() ==> r.is_ok(),
    {
        self.update_modifiers();
        let ghost kept = self@;
        proof {
            let live = choose|live: Seq<bool>|
                live.len() == old(self)@.len() && kept == keep_live(old(self)@, live);
            lemma_keep_live(old(self)@, live);
        }
        let handle = new_handle();
        let r = match self.attach(modifier, order, handle.clone()) {
            Ok(()) => Ok(handle),
            Err(e) => Err(e),
        };
        assert(retires_stale(old(self)@, kept) && (r.is_ok() == old(self).admits(kept.len() as int))
            && (r.is_ok() ==> self@ == kept.push((modifier, order))) && (r.is_err() ==> self@
            == kept));
        r
    }

    /// Adds `modifier` with its default order, after maintenance.
    pub fn add_modifier(&mut self, modifier: StatModifier<A>) -> (r: Result<
        StatModifierHandle,
        ModifiersFullError,
    >)
        requires
            old(self).wf(),
        ensures
            final(self).wf(),
            final(self).is_growable() == old(self).is_growable(),
            exists|kept: Seq<OrderedModifier<A>>|
                {
                    &&& #[trigger] retires_stale(old(self)@, kept)
                    &&& r.is_ok() == old(self).admits(kept.len() as int)
                    &&& r.is_ok() ==> final(self)@ == kept.push(
                        (modifier, crate::modifier::default_order_of(modifier)),
                    )
                    &&& r.is_err() ==> final(self)@ == kept
                },
            r.is_err() ==> final(self)@ == old(self)@,
            r.is_err() ==> !old(self).is_growable() && old(self)@.len() == M,
            old(self).is_growable() ==> r.is_ok(),
    {
        let order = modifier.default_order();
        self.add_modifier_with_order(modifier, order)
    }

    /// The greatest order in the store, or 0 when it is empty; no maintenance.
    fn max_order(&self) -> (r: i32)
        ensures
            r == highest_order_of(self@),
    {
        let slots = self.slots.get();
        let mut best: i32 = 0;
        let mut i: usize = 0;
        while i < slots.len()
            invariant
                i <= slots@.len(),
                slots@.len() == self@.len(),
                forall|k: int| 0 <= k < slots@.len() ==> slots@[k].order == (#[trigger] self@[k]).1,
                best == highest_order_of(self@.take(i as int)),
            decreases slots@.len() - i,
        {
            proof {
                assert(self@.take(i as int + 1).drop_last() =~= self@.take(i as int));
                assert(self@[i as int].1 == slots@[i as int].order);
            }
            if i == 0 || slots[i].order > best {
                best = slots[i].order;
            }
            i += 1;
        }
        assert(self@.take(i as int) =~= self@);
        best
    }

    /// Maintenance, then the greatest order among the remaining modifiers, or
    /// 0 when there is none.
    pub fn highest_order(&mut self) -> (r: i32)
        requires
            old(self).wf(),
        ensures
            final(self).wf(),
            final(self).is_growable() == old(self).is_growable(),
            retires_stale(old(self)@, final(self)@),
            r == highest_order_of(final(self)@),
    {
        self.update_modifiers();
        self.max_order()
    }

    /// The modifiers whose flag in `live` is set, in the order they apply:
    /// ascending by order, slot order among equal orders.
    pub fn ordered_modifiers_with(&self, live: &Vec<bool>) -> (r: Vec<OrderedModifier<A>>)
        requires
            live@.len() == self@.len(),
        ensures
            r@ == sort_by_order(keep_live(self@, live@)),
    {
        let slots = self.slots.get();
        let mut out: Vec<OrderedModifier<A>> = Vec::new();
        let mut i: usize = 0;
        while i < slots.len()
            invariant
                i <= slots@.len(),
                slots@.len() == self@.len(),
                live@.len() == self@.len(),
                forall|k: int| 0 <= k < slots@.len() ==> (#[trigger] slots@[k]).entry() == self@[k],
                out@ == sort_by_order(keep_live(self@.take(i as int), live@)),
            decreases slots@.len() - i,
        {
            let ghost s = self@.take(i as int + 1);
            proof {
                assert(s.drop_last() =~= self@.take(i as int));
            }
            if live[i] {
                let x: OrderedModifier<A> = (slots[i].modifier, slots[i].order);
                assert(x == self@[i as int]);
                let mut k: usize = out.len();
                while k > 0 && out[k - 1].1 > x.1
                    invariant
                        k <= out@.len(),
                        forall|j: int| k <= j < out@.len() ==> (#[trigger] out@[j]).1 > x.1,
                    decreases k,
                {
                    k -= 1;
                }
                proof {
                    let o = out@;
                    lemma_insert_past_tail(o, x, k as int);
                    if k > 0 {
                        assert(o.take(k as int).drop_last() =~= o.take(k as int - 1));
                        assert(o.take(k as int).last() == o[k as int - 1]);
                    }
                    assert(insert_by_order(o.take(k as int), x) =~= o.take(k as int).push(x));
                    assert(o.take(k as int).push(x) + o.skip(k as int) =~= o.insert(k as int, x));
                    assert(keep_live(s, live@) == keep_live(self@.take(i as int), live@).push(x));
                    assert(keep_live(s, live@).drop_last() =~= keep_live(
                        self@.take(i as int),
                        live@,
                    ));
                }
                out.insert(k, x);
            }
            i += 1;
        }
        assert(self@.take(i as int) =~= self@);
        out
    }

    /// All modifiers in the order they apply: ascending by order, slot order
    /// among equal orders.
    pub fn ordered_modifiers(&self) -> (r: Vec<OrderedModifier<A>>)
        ensures
            r@ == sort_by_order(self@),
    {
        let n = self.slots.get().len();
        let mut live: Vec<bool> = Vec::new();
        let mut i: usize = 0;
        while i < n
            invariant
                i <= n,
                n == self@.len(),
                live@.len() == i,
                forall|k: int| 0 <= k < i ==> live@[k],
            decreases n - i,
        {
            live.push(true);
            i += 1;
        }
        proof {
            lemma_keep_live(self@, live@);
        }
        self.ordered_modifiers_with(&live)
    }

    /// The modifiers whose handles are alive, in the order they apply; the
    /// store itself is left as it is.
    pub fn ordered_live_modifiers(&self) -> (r: Vec<OrderedModifier<A>>)
        ensures
            exists|live: Seq<bool>|
                live.len() == self@.len() && r@ == sort_by_order(#[trigger] keep_live(self@, live)),
    {
        let live = self.liveness();
        self.ordered_modifiers_with(&live)
    }

    /// Retires the slots of this store whose flag in `live` is clear, then
    /// adds the modifiers of `other` whose flag in `other_live` is set, in the
    /// order they apply there, each with its order moved above this store's
    /// remaining highest order `h` (to `h + 1 + order`). A bounded store takes
    /// as many as it has room for and skips the rest. Returns one handle for
    /// each modifier added. `other` is left as it is.
    pub fn integrate_modifiers_with(
        &mut self,
        live: &Vec<bool>,
        other: &Self,
        other_live: &Vec<bool>,
    ) -> (held: Vec<StatModifierHandle>)
        requires
            old(self).wf(),
            live@.len() == old(self)@.len(),
            other_live@.len() == other@.len(),
        ensures
            final(self).wf(),
            final(self).is_growable() == old(self).is_growable(),
            ({
                let kept = keep_live(old(self)@, live@);
                let theirs = sort_by_order(keep_live(other@, other_live@));
                let n = old(self).room_for(kept.len() as int, theirs.len() as int);
                &&& final(self)@ == kept + shift_after(theirs, highest_order_of(kept)).take(n)
                &&& held@.len() == n
            }),
    {
        self.retain_live(live);
        let h = self.max_order();
        let ghost kept = self@;
        let theirs = other.ordered_modifiers_with(other_live);
        let ghost t = shift_after(theirs@, h);
        proof {
            crate::order::lemma_sort_by_order(keep_live(other@, other_live@));
        }
        let mut held: Vec<StatModifierHandle> = Vec::new();
        let mut i: usize = 0;
        while i < theirs.len()
            invariant
                i <= theirs@.len(),
                self.wf(),
                self.is_growable() == old(self).is_growable(),
                old(self).is_growable() || kept.len() <= M,
                t == shift_after(theirs@, h),
                self@ == kept + t.take(old(self).room_for(kept.len() as int, i as int)),
                held@.len() == old(self).room_for(kept.len() as int, i as int),
            decreases theirs@.len() - i,
        {
            let (m, o) = theirs[i];
            let handle = new_handle();
            let ghost n = old(self).room_for(kept.len() as int, i as int);
            match self.attach(m, h.wrapping_add(1).wrapping_add(o), handle.clone()) {
                Ok(()) => {
                    held.push(handle);
                    proof {
                        assert(n == i);
                        assert(t[i as int] == (m, shifted_order(h, o)));
                        assert(t.take(i as int).push(t[i as int]) =~= t.take(i as int + 1));
                    }
                },
                Err(_) => {},
            }
            i += 1;
        }
        held
    }

    /// Maintenance, then every live modifier of `other` added as
    /// [`Self::integrate_modifiers_with`] describes. The returned handles keep
    /// the added modifiers in effect; once they are dropped, the next
    /// maintenance retires them. `other` is left as it is.
    pub fn integrate_modifiers(&mut self, other: &Self) -> (held: Vec<StatModifierHandle>)
        requires
            old(self).wf(),
        ensures
            final(self).wf(),
            final(self).is_growable() == old(self).is_growable(),
            exists|live: Seq<bool>, other_live: Seq<bool>|
                #![trigger keep_live(old(self)@, live), keep_live(other@, other_live)]
                {
                    let kept = keep_live(old(self)@, live);
                    let theirs = sort_by_order(keep_live(other@, other_live));
                    let n = old(self).room_for(kept.len() as int, theirs.len() as int);
                    &&& live.len() == old(self)@.len()
                    &&& other_live.len() == other@.len()
                    &&& final(self)@ == kept + shift_after(theirs, highest_order_of(kept)).take(n)
                    &&& held@.len() == n
                },
    {
        let live = self.liveness();
        let other_live = other.liveness();
        let held = self.integrate_modifiers_with(&live, other, &other_live);
        held
    }
}

/// A stat's own modifiers apply first, and those integrated from another stat
/// after them, in the order they applied there: this holds for any number of
/// the integrated ones that a bounded stat had room for, provided the other
/// stat's orders are not negative and none overflows when moved above this
/// stat's highest order.
pub proof fn lemma_integrated_apply_after_own<A>(
    own: Seq<OrderedModifier<A>>,
    theirs: Seq<OrderedModifier<A>>,
    n: int,
)
    requires
        0 <= n <= theirs.len(),
        forall|i: int|
            0 <= i < theirs.len() ==> 0 <= (#[trigger] theirs[i]).1 && highest_order_of(own) + 1
                + theirs[i].1 <= i32::MAX,
    ensures
        ({
            let t = shift_after(sort_by_order(theirs), highest_order_of(own)).take(n);
            sort_by_order(own + t) == sort_by_order(own) + t
        }),
{
    let h = highest_order_of(own);
    let st = sort_by_order(theirs);
    let t = shift_after(st, h).take(n);
    lemma_highest_order_bounds(own);
    crate::order::lemma_sort_by_order(theirs);
    crate::order::lemma_sort_members(theirs);
    assert forall|j: int| 0 <= j < st.len() implies 0 <= (#[trigger] st[j]).1 && h + 1 + st[j].1
        <= i32::MAX by {
        assert(theirs.contains(st[j]));
    }
    assert forall|j: int| 0 <= j < t.len() implies (#[trigger] t[j]).1 == h + 1 + st[j].1 by {
        assert(t[j] == shift_after(st, h)[j]);
    }
    assert forall|i: int, j: int| 0 <= i < j < t.len() implies t[i].1 <= t[j].1 by {
        assert(t[i].1 == h + 1 + st[i].1);
        assert(t[j].1 == h + 1 + st[j].1);
    }
    assert forall|i: int, j: int| 0 <= i < own.len() && 0 <= j < t.len() implies own[i].1
        < t[j].1 by {
        assert(own[i].1 <= h);
        assert(t[j].1 == h + 1 + st[j].1);
    }
    crate::order::lemma_sort_append_above(own, t);
}

} // verus!
