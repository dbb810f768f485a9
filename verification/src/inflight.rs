//! Checks under way: no two of the same kind run at once.
use crate::table::Table;
use vstd::prelude::*;

verus! {

/// The names of checks under way.
pub struct Inflight {
    pub names: Table<bool>,
}

impl Inflight {
    /// The names of checks under way.
    pub open spec fn running(self) -> Set<Seq<char>> {
        self.names@.dom()
    }

    /// No check is under way.
    pub fn new() -> (r: Self)
        ensures
            r.running() == Set::<Seq<char>>::empty(),
    {
        let r = Inflight { names: Table::new() };
        assert(r.running() =~= Set::<Seq<char>>::empty());
        r
    }

    /// Starts a check, unless one under its name is under way.
    pub fn begin(&mut self, name: &str) -> (r: bool)
        ensures
            r == !old(self).running().contains(name@),
            final(self).running() == old(self).running().insert(name@),
    {
        if self.names.contains(name) {
            assert(self.running() =~= old(self).running().insert(name@));
            return false;
        }
        self.names.insert(name.to_owned(), true);
        assert(self.running() =~= old(self).running().insert(name@));
        true
    }

    /// Ends a check.
    pub fn end(&mut self, name: &str)
        ensures
            final(self).running() == old(self).running().remove(name@),
    {
        self.names.remove(name);
        assert(self.running() =~= old(self).running().remove(name@));
    }
}

} // verus!
