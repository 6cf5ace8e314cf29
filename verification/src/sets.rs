//! A set of identifiers, viewed as a `Set` of character sequences.
//!
//! Backs the solver's disallowed- and preserved-recipe sets.  Insertion
//! order is irrelevant to every caller, so the view is a mathematical set.

use vstd::prelude::*;

verus! {

/// A finite set of string identifiers.
#[derive(Debug)]
pub struct IdSet {
    pub ids: Vec<String>,
}

impl View for IdSet {
    type V = Set<Seq<char>>;

    open spec fn view(&self) -> Set<Seq<char>> {
        Set::new(|s: Seq<char>| exists|i: int| 0 <= i < self.ids@.len() && self.ids@[i]@ == s)
    }
}

impl IdSet {
    /// The empty set.
    pub fn new() -> (r: IdSet)
        ensures
            r@ == Set::<Seq<char>>::empty(),
    {
        let r = IdSet { ids: Vec::new() };
        proof {
            assert(r@ =~= Set::<Seq<char>>::empty());
        }
        r
    }

    /// Membership test.
    pub fn contains(&self, id: &String) -> (b: bool)
        ensures
            b == self@.contains(id@),
    {
        let mut i: usize = 0;
        while i < self.ids.len()
            invariant
                0 <= i <= self.ids@.len(),
                forall|j: int| 0 <= j < i ==> self.ids@[j]@ != id@,
            decreases self.ids@.len() - i,
        {
            if self.ids[i] == *id {
                return true;
            }
            i += 1;
        }
        false
    }

    /// Adds `id` to the set.
    pub fn insert(&mut self, id: &String)
        ensures
            final(self)@ == old(self)@.insert(id@),
    {
        self.ids.push(id.clone());
        proof {
            assert forall|s: Seq<char>| self@.contains(s) implies old(self)@.insert(id@).contains(
                s,
            ) by {
                let i = choose|i: int| 0 <= i < self.ids@.len() && self.ids@[i]@ == s;
                if i < old(self).ids@.len() {
                    assert(old(self).ids@[i]@ == s);
                }
            }
            assert forall|s: Seq<char>| old(self)@.insert(id@).contains(s) implies self@.contains(
                s,
            ) by {
                if old(self)@.contains(s) {
                    let i = choose|i: int|
                        0 <= i < old(self).ids@.len() && old(self).ids@[i]@ == s;
                    assert(self.ids@[i]@ == s);
                } else {
                    assert(self.ids@[old(self).ids@.len() as int]@ == id@);
                }
            }
            assert(self@ =~= old(self)@.insert(id@));
        }
    }
}

} // verus!
