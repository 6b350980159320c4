//! A list of distinct names that can be searched without going through it.

use vstd::hash_map::StringHashMap;
use vstd::prelude::*;

verus! {

/// The position of `name` in the list, from number `i` on.
pub open spec fn name_position(names: Seq<Seq<char>>, name: Seq<char>, i: int) -> Option<int>
    decreases names.len() - i,
{
    if i >= names.len() {
        None
    } else if names[i] == name {
        Some(i)
    } else {
        name_position(names, name, i + 1)
    }
}

pub proof fn lemma_name_position(names: Seq<Seq<char>>, name: Seq<char>, i: int)
    requires
        0 <= i <= names.len(),
    ensures
        match name_position(names, name, i) {
            Some(p) => i <= p < names.len() && names[p] == name && forall|k: int|
                i <= k < p ==> names[k] != name,
            None => forall|k: int| i <= k < names.len() ==> names[k] != name,
        },
    decreases names.len() - i,
{
    if i < names.len() && names[i] != name {
        lemma_name_position(names, name, i + 1);
    }
}

/// The positions of distinct names, by name.
pub struct NameIndex {
    at: StringHashMap<usize>,
    names: Ghost<Seq<Seq<char>>>,
}

impl NameIndex {
    pub closed spec fn names(&self) -> Seq<Seq<char>> {
        self.names@
    }

    pub closed spec fn wf(&self) -> bool {
        &&& forall|k: Seq<char>| #[trigger]
            self.at@.dom().contains(k) ==> self.at@[k] < self.names@.len()
                && self.names@[self.at@[k] as int] == k
        &&& forall|i: int|
            0 <= i < self.names@.len() ==> self.at@.dom().contains(#[trigger] self.names@[i])
                && self.at@[self.names@[i]] == i
    }

    /// No name is in the list twice.
    pub proof fn lemma_distinct(&self)
        requires
            self.wf(),
        ensures
            forall|i: int, j: int|
                0 <= i < self.names().len() && 0 <= j < self.names().len() && self.names()[i]
                    == self.names()[j] ==> i == j,
    {
    }

    pub fn new() -> (r: NameIndex)
        ensures
            r.wf(),
            r.names() == Seq::<Seq<char>>::empty(),
    {
        NameIndex { at: StringHashMap::new(), names: Ghost(Seq::empty()) }
    }

    /// The position of `name`, if it is in the list.
    pub fn position(&self, name: &str) -> (r: Option<usize>)
        requires
            self.wf(),
        ensures
            match r {
                Some(i) => name_position(self.names(), name@, 0) == Some(i as int) && i
                    < self.names().len(),
                None => name_position(self.names(), name@, 0) is None,
            },
    {
        proof {
            lemma_name_position(self.names@, name@, 0);
        }
        match self.at.get(name) {
            Some(i) => Some(*i),
            None => None,
        }
    }

    /// Put a new name, whose number is `n`, at the end of the list.
    pub fn push(&mut self, name: String, n: usize)
        requires
            old(self).wf(),
            n == old(self).names().len(),
            name_position(old(self).names(), name@, 0) is None,
        ensures
            final(self).wf(),
            final(self).names() == old(self).names().push(name@),
    {
        proof {
            lemma_name_position(self.names@, name@, 0);
        }
        let ghost k = name@;
        self.at.insert(name, n);
        proof {
            self.names = Ghost(self.names@.push(k));
        }
    }
}

} // verus!
