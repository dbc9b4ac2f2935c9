//! The machine's record of a bound host object.

use vstd::prelude::*;
use crate::support::{distinct, position, lemma_position_unique, lemma_position_none};

verus! {

/// One named attribute of a model.
#[derive(Debug)]
pub struct Attribute {
    pub(crate) name: String,
    pub(crate) value: String,
}

/// The attributes that machines manage on behalf of a host object. Each
/// machine keeps the model's current state under the attribute name it was
/// configured with, so several machines can manage one model side by side.
#[derive(Debug)]
pub struct Model {
    pub(crate) attributes: Vec<Attribute>,
}

/// The names of a sequence of attributes.
pub open(crate) spec fn attribute_names(attributes: Seq<Attribute>) -> Seq<Seq<char>> {
    Seq::new(attributes.len(), |i: int| attributes[i].name@)
}

impl View for Model {
    type V = Map<Seq<char>, Seq<char>>;

    /// The model as a map from attribute names to their values.
    open(crate) spec fn view(&self) -> Map<Seq<char>, Seq<char>> {
        Map::new(
            |name: Seq<char>| position(attribute_names(self.attributes@), name) is Some,
            |name: Seq<char>| self.attributes@[position(attribute_names(self.attributes@), name)->Some_0].value@,
        )
    }
}

impl Clone for Model {
    fn clone(&self) -> (r: Self)
        ensures
            r@ == self@,
            r.wf() == self.wf(),
    {
        let mut attributes: Vec<Attribute> = Vec::new();
        let mut i: usize = 0;
        while i < self.attributes.len()
            invariant
                i <= self.attributes.len(),
                attributes@.len() == i,
                forall|k: int|
                    0 <= k < i ==> (#[trigger] attributes@[k]).name@ == self.attributes@[k].name@
                        && attributes@[k].value@ == self.attributes@[k].value@,
            decreases self.attributes.len() - i,
        {
            attributes.push(
                Attribute { name: self.attributes[i].name.clone(), value: self.attributes[i].value.clone() },
            );
            i = i + 1;
        }
        let r = Model { attributes };
        proof {
            assert(attribute_names(r.attributes@) =~= attribute_names(self.attributes@));
            assert(r@ =~= self@);
        }
        r
    }
}

impl Model {
    /// Whether the model is well formed: no attribute name occurs twice.
    pub open(crate) spec fn wf(&self) -> bool {
        distinct(attribute_names(self.attributes@))
    }

    /// A model without attributes.
    pub fn new() -> (r: Self)
        ensures
            r.wf(),
            r@ == Map::<Seq<char>, Seq<char>>::empty(),
    {
        let r = Model { attributes: Vec::new() };
        assert(r@ =~= Map::<Seq<char>, Seq<char>>::empty());
        r
    }

    fn find(&self, name: &String) -> (r: Option<usize>)
        requires
            self.wf(),
        ensures
            match r {
                Some(i) => i < self.attributes@.len() && position(
                    attribute_names(self.attributes@),
                    name@,
                ) == Some(i as int),
                None => position(attribute_names(self.attributes@), name@) is None,
            },
    {
        let mut i: usize = 0;
        while i < self.attributes.len()
            invariant
                self.wf(),
                i <= self.attributes.len(),
                forall|k: int| 0 <= k < i ==> attribute_names(self.attributes@)[k] != name@,
            decreases self.attributes.len() - i,
        {
            if self.attributes[i].name == *name {
                proof {
                    assert(attribute_names(self.attributes@)[i as int] == name@);
                    lemma_position_unique(attribute_names(self.attributes@), i as int);
                }
                return Some(i);
            }
            i = i + 1;
        }
        proof {
            lemma_position_none(attribute_names(self.attributes@), name@);
        }
        None
    }

    /// The value of the attribute `name`, if the model has it.
    pub fn get(&self, name: &String) -> (r: Option<&String>)
        requires
            self.wf(),
        ensures
            r is Some <==> self@.contains_key(name@),
            r is Some ==> r->Some_0@ == self@[name@],
    {
        match self.find(name) {
            Some(i) => Some(&self.attributes[i].value),
            None => None,
        }
    }

    /// Sets the attribute `name` to `value`, adding it if the model does not
    /// have it yet. Every other attribute stays as it is.
    pub fn set(&mut self, name: &String, value: String)
        requires
            old(self).wf(),
        ensures
            final(self).wf(),
            final(self)@ == old(self)@.insert(name@, value@),
    {
        let ghost before = self.attributes@;
        match self.find(name) {
            Some(i) => {
                let entry = Attribute { name: name.clone(), value };
                self.attributes[i] = entry;
                proof {
                    assert(attribute_names(self.attributes@) =~= attribute_names(before));
                    assert forall|k: Seq<char>| #[trigger] self@.contains_key(k) implies self@[k] == old(self)@.insert(name@, value@)[k] by {
                        let p = position(attribute_names(before), k)->Some_0;
                        if p == i as int {
                            assert(attribute_names(before)[p] == k);
                        } else {
                            assert(attribute_names(before)[p] == k);
                            assert(k != name@);
                        }
                    }
                    assert(self@ =~= old(self)@.insert(name@, value@));
                }
            },
            None => {
                let entry = Attribute { name: name.clone(), value };
                self.attributes.push(entry);
                proof {
                    let names = attribute_names(self.attributes@);
                    let n = before.len() as int;
                    assert(names =~= attribute_names(before).push(name@));
                    assert forall|a: int, b: int|
                        0 <= a < names.len() && 0 <= b < names.len() && names[a] == names[b] implies a
                        == b by {
                        if a < n && b == n {
                            assert(attribute_names(before)[a] == name@);
                        }
                        if b < n && a == n {
                            assert(attribute_names(before)[b] == name@);
                        }
                    }
                    lemma_position_unique(names, n);
                    assert forall|k: Seq<char>| #[trigger]
                        old(self)@.insert(name@, value@).contains_key(k) implies self@.contains_key(k)
                        && self@[k] == old(self)@.insert(name@, value@)[k] by {
                        if k != name@ {
                            let p = position(attribute_names(before), k)->Some_0;
                            assert(attribute_names(before)[p] == k);
                            assert(names[p] == k);
                            lemma_position_unique(names, p);
                        }
                    }
                    assert forall|k: Seq<char>| #[trigger] self@.contains_key(k) implies old(self)@.insert(name@, value@).contains_key(k) by {
                        let p = position(names, k)->Some_0;
                        assert(names[p] == k);
                        if p < n {
                            assert(attribute_names(before)[p] == k);
                        }
                    }
                    assert(self@ =~= old(self)@.insert(name@, value@));
                }
            },
        }
    }
}

} // verus!
