//! Small helpers shared by the rest of the library.

use vstd::prelude::*;

verus! {

/// The names of a collection of strings, as mathematical sequences.
pub open spec fn texts(v: Seq<String>) -> Seq<Seq<char>> {
    Seq::new(v.len(), |i: int| v[i]@)
}

/// Whether no two entries of `names` are equal.
pub open spec fn distinct(names: Seq<Seq<char>>) -> bool {
    forall|i: int, j: int| 0 <= i < names.len() && 0 <= j < names.len() && names[i] == names[j] ==> i == j
}

/// The position of `name` among `names`, if it occurs.
pub open spec fn position(names: Seq<Seq<char>>, name: Seq<char>) -> Option<int> {
    if exists|i: int| 0 <= i < names.len() && names[i] == name {
        Some(choose|i: int| 0 <= i < names.len() && names[i] == name)
    } else {
        None
    }
}

/// With distinct names, the position of an entry is its index.
pub proof fn lemma_position_unique(names: Seq<Seq<char>>, i: int)
    requires
        distinct(names),
        0 <= i < names.len(),
    ensures
        position(names, names[i]) == Some(i),
{
}

/// A name that matches no entry has no position.
pub proof fn lemma_position_none(names: Seq<Seq<char>>, name: Seq<char>)
    requires
        forall|i: int| 0 <= i < names.len() ==> names[i] != name,
    ensures
        position(names, name) is None,
{
}

/// A set of argument names, kept in the order in which they were first added.
#[derive(Debug)]
pub struct KeySet {
    pub(crate) keys: Vec<String>,
}

impl View for KeySet {
    type V = Seq<Seq<char>>;

    open(crate) spec fn view(&self) -> Seq<Seq<char>> {
        texts(self.keys@)
    }
}

impl Clone for KeySet {
    fn clone(&self) -> (r: Self)
        ensures
            r@ == self@,
    {
        let mut keys: Vec<String> = Vec::new();
        let mut i: usize = 0;
        while i < self.keys.len()
            invariant
                i <= self.keys.len(),
                keys@.len() == i,
                forall|k: int| 0 <= k < i ==> keys@[k]@ == self.keys@[k]@,
            decreases self.keys.len() - i,
        {
            keys.push(self.keys[i].clone());
            i = i + 1;
        }
        assert(texts(keys@) =~= texts(self.keys@));
        KeySet { keys }
    }
}

impl KeySet {
    /// Whether the set is well formed: no key occurs twice.
    pub open(crate) spec fn wf(&self) -> bool {
        distinct(self@)
    }

    /// The empty set.
    pub fn new() -> (r: Self)
        ensures
            r@ == Seq::<Seq<char>>::empty(),
            r.wf(),
    {
        let r = KeySet { keys: Vec::new() };
        assert(r@ =~= Seq::<Seq<char>>::empty());
        r
    }

    /// The keys, in the order in which they were added.
    pub fn keys(&self) -> (r: &Vec<String>)
        ensures
            texts(r@) == self@,
    {
        &self.keys
    }

    /// How many keys the set holds.
    pub fn len(&self) -> (n: usize)
        ensures
            n == self@.len(),
    {
        self.keys.len()
    }

    /// Whether `key` is in the set.
    pub fn contains(&self, key: &String) -> (found: bool)
        ensures
            found == self@.contains(key@),
    {
        let mut i: usize = 0;
        while i < self.keys.len()
            invariant
                i <= self.keys.len(),
                forall|k: int| 0 <= k < i ==> self@[k] != key@,
            decreases self.keys.len() - i,
        {
            if self.keys[i] == *key {
                assert(self@[i as int] == key@);
                return true;
            }
            i = i + 1;
        }
        false
    }

    /// Adds `key` unless it is already there; says whether it was added.
    pub fn insert(&mut self, key: String) -> (added: bool)
        requires
            old(self).wf(),
        ensures
            final(self).wf(),
            added == !old(self)@.contains(key@),
            added ==> final(self)@ == old(self)@.push(key@),
            !added ==> final(self)@ == old(self)@,
    {
        if self.contains(&key) {
            false
        } else {
            self.keys.push(key);
            assert(self@ =~= old(self)@.push(key@));
            true
        }
    }
}

} // verus!
