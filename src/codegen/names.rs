//! A set of defined names.
use vstd::prelude::*;

verus! {

/// A set of names; it holds each name once.
#[derive(Debug)]
pub struct NameSet {
    names: Vec<String>,
}

impl View for NameSet {
    type V = Set<Seq<char>>;

    closed spec fn view(&self) -> Set<Seq<char>> {
        Set::new(|n: Seq<char>| exists|i: int| 0 <= i < self.names@.len() && self.names@[i]@ == n)
    }
}

impl NameSet {
    /// The empty set.
    pub fn new() -> (r: NameSet)
        ensures
            r@ == Set::<Seq<char>>::empty(),
    {
        let r = NameSet { names: Vec::new() };
        assert(r@ =~= Set::<Seq<char>>::empty());
        r
    }

    /// Whether `name` is in the set.
    pub fn contains(&self, name: &String) -> (r: bool)
        ensures
            r == self@.contains(name@),
    {
        let mut i: usize = 0;
        while i < self.names.len()
            invariant
                i <= self.names@.len(),
                forall|j: int| 0 <= j < i ==> self.names@[j]@ != name@,
            decreases self.names@.len() - i,
        {
            if self.names[i] == *name {
                assert(self@.contains(name@));
                return true;
            }
            i = i + 1;
        }
        false
    }

    /// Adds `name`; says whether it was not in the set before.
    pub fn insert(&mut self, name: &String) -> (r: bool)
        ensures
            final(self)@ == old(self)@.insert(name@),
            r == !old(self)@.contains(name@),
    {
        if self.contains(name) {
            assert(self@ =~= self@.insert(name@));
            false
        } else {
            let ghost before = self@;
            let ghost old_names = self.names@;
            let copy = name.clone();
            self.names.push(copy);
            assert(self.names@ == old_names.push(copy));
            assert(self@ =~= before.insert(name@)) by {
                assert(self.names@[self.names@.len() - 1]@ == name@);
                assert forall|n: Seq<char>| before.contains(n) implies #[trigger] self@.contains(
                    n,
                ) by {
                    let i = choose|i: int| 0 <= i < old_names.len() && #[trigger] old_names[i]@ == n;
                    assert(self.names@[i]@ == n);
                }
                assert forall|n: Seq<char>| #[trigger] self@.contains(n) implies before.insert(
                    name@,
                ).contains(n) by {
                    let i = choose|i: int| 0 <= i < self.names@.len() && #[trigger] self.names@[i]@ == n;
                    if i < old_names.len() {
                        assert(old_names[i]@ == n);
                    }
                }
            }
            true
        }
    }

    /// Whether the set is empty.
    pub fn is_empty(&self) -> (r: bool)
        ensures
            r == (self@ == Set::<Seq<char>>::empty()),
    {
        if self.names.len() == 0 {
            assert(self@ =~= Set::<Seq<char>>::empty());
            true
        } else {
            assert(self@.contains(self.names@[0]@));
            false
        }
    }

    /// Removes every name.
    pub fn clear(&mut self)
        ensures
            final(self)@ == Set::<Seq<char>>::empty(),
    {
        self.names = Vec::new();
        assert(self@ =~= Set::<Seq<char>>::empty());
    }
}

} // verus!
