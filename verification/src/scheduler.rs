//! An ordered list of named systems.

use vstd::prelude::*;

verus! {

/// Named systems, run in the order they were added. `S` is the system
/// type (in a contract, a function over the world and the environment).
pub struct SimpleScheduler<S> {
    systems: Vec<(&'static str, S)>,
}

impl<S> SimpleScheduler<S> {
    /// The registered systems with their names, in order.
    pub closed spec fn entries(&self) -> Seq<(&'static str, S)> {
        self.systems@
    }

    /// A scheduler without systems.
    pub fn new() -> (s: Self)
        ensures
            s.entries() == Seq::<(&'static str, S)>::empty(),
    {
        SimpleScheduler { systems: Vec::new() }
    }

    /// Appends a system under `name`.
    pub fn add_system(&mut self, name: &'static str, system: S)
        ensures
            final(self).entries() == old(self).entries().push((name, system)),
    {
        self.systems.push((name, system));
    }

    /// The number of registered systems.
    pub fn system_count(&self) -> (n: usize)
        ensures
            n == self.entries().len(),
    {
        self.systems.len()
    }

    /// The registered systems with their names, in order.
    pub fn systems(&self) -> (r: &[(&'static str, S)])
        ensures
            r@ == self.entries(),
    {
        self.systems.as_slice()
    }
}

} // verus!
