use vstd::prelude::*;

verus! {

/// The value behind a [`StatModifierHandle`]; it carries no data, only the
/// identity of the allocation that the handle shares.
#[derive(Copy, Clone, Debug)]
pub struct StatModifierHandleTag;

/// Returned when a modifier is added. The modifier stays in effect while any
/// clone of the handle is alive; once the last one is dropped the stat retires
/// the modifier at its next maintenance pass.
pub type StatModifierHandle = std::rc::Rc<StatModifierHandleTag>;

/// Allocates a fresh handle.
pub fn new_handle() -> (r: StatModifierHandle)
    ensures
        *r == StatModifierHandleTag,
{
    std::rc::Rc::new(StatModifierHandleTag)
}

/// Relies on `Rc::strong_count`: the number of strong references to the
/// handle's allocation, of which `h` itself is one.
#[verifier::external_body]
fn strong_holders(h: &StatModifierHandle) -> (r: usize)
    ensures
        r >= 1,
{
    std::rc::Rc::strong_count(h)
}

/// Whether some reference to the handle exists besides `h`. A store keeps one
/// reference per slot, so a modifier is live exactly when this holds for the
/// store's reference.
pub fn held_elsewhere(h: &StatModifierHandle) -> bool {
    strong_holders(h) > 1
}

} // verus!
