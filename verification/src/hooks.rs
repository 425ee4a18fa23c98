//! Callbacks registered per component type, for additions and removals.

use vstd::prelude::*;
use crate::symbol::Symbol;

verus! {

/// Hooks keyed by component type. `A` is the type of the hooks run when a
/// component is added, `R` of those run when one is removed.
pub struct HookRegistry<A, R> {
    add_hooks: Vec<(Symbol, A)>,
    remove_hooks: Vec<(Symbol, R)>,
}

impl<A, R> HookRegistry<A, R> {
    /// The addition hooks with their component types, in registration order.
    pub closed spec fn add_entries(&self) -> Seq<(Symbol, A)> {
        self.add_hooks@
    }

    /// The removal hooks with their component types, in registration order.
    pub closed spec fn remove_entries(&self) -> Seq<(Symbol, R)> {
        self.remove_hooks@
    }

    /// A registry without hooks.
    pub fn new() -> (h: Self)
        ensures
            h.add_entries() == Seq::<(Symbol, A)>::empty(),
            h.remove_entries() == Seq::<(Symbol, R)>::empty(),
    {
        HookRegistry { add_hooks: Vec::new(), remove_hooks: Vec::new() }
    }

    /// Registers a hook run when a component of `component_type` is added.
    pub fn on_add(&mut self, component_type: Symbol, hook: A)
        ensures
            final(self).add_entries() == old(self).add_entries().push((component_type, hook)),
            final(self).remove_entries() == old(self).remove_entries(),
    {
        self.add_hooks.push((component_type, hook));
    }

    /// Registers a hook run when a component of `component_type` is removed.
    pub fn on_remove(&mut self, component_type: Symbol, hook: R)
        ensures
            final(self).remove_entries() == old(self).remove_entries().push((component_type, hook)),
            final(self).add_entries() == old(self).add_entries(),
    {
        self.remove_hooks.push((component_type, hook));
    }

    /// The number of addition hooks.
    pub fn add_hook_count(&self) -> (n: usize)
        ensures
            n == self.add_entries().len(),
    {
        self.add_hooks.len()
    }

    /// The number of removal hooks.
    pub fn remove_hook_count(&self) -> (n: usize)
        ensures
            n == self.remove_entries().len(),
    {
        self.remove_hooks.len()
    }

    /// The addition hooks with their component types, in order.
    pub fn add_hooks(&self) -> (r: &[(Symbol, A)])
        ensures
            r@ == self.add_entries(),
    {
        self.add_hooks.as_slice()
    }

    /// The removal hooks with their component types, in order.
    pub fn remove_hooks(&self) -> (r: &[(Symbol, R)])
        ensures
            r@ == self.remove_entries(),
    {
        self.remove_hooks.as_slice()
    }
}

} // verus!
