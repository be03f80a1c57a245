//! Stats derived from a base value and a set of modifiers whose lifetime is
//! tied to handles held by their owners.
//!
//! A [`ModifierStore`] keeps the modifiers attached to one stat. Adding one
//! returns a [`StatModifierHandle`]; the modifier stays in effect while any
//! clone of that handle is alive and is retired lazily, by the next operation
//! that performs maintenance on the store, once the last clone is dropped.

mod cell;
mod modifier;
mod handle;
mod order;
mod stat;

pub use crate::cell::{InteriorCell, new_interior_cell, borrow_cell};
pub use crate::modifier::{StatModifier, default_order_of};
pub use crate::handle::{StatModifierHandle, StatModifierHandleTag, new_handle, held_elsewhere};
pub use crate::order::{
    OrderedModifier, sorted_by_order, insert_by_order, sort_by_order, lemma_insert_past_tail,
    lemma_insert_by_order, lemma_sort_by_order, lemma_sort_members, lemma_sort_append_above,
    lemma_default_orders_apply_by_kind,
};
pub use crate::stat::{
    ModifierStore, ModifiersFullError, keep_live, retires_stale, highest_order_of, shifted_order,
    shift_after, lemma_keep_live, lemma_highest_order_bounds, lemma_integrated_apply_after_own,
};
