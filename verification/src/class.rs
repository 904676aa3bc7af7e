//! Classes of the tree-walking interpreter: a name, methods, and perhaps a
//! superclass whose methods a class inherits.
use std::rc::Rc;
use vstd::prelude::*;

use crate::environment::{entries_view, find_entry};

verus! {

/// A class with methods of type `F`.
#[derive(Debug)]
pub struct Class<F> {
    pub name: String,
    pub methods: Vec<(String, F)>,
    pub superclass: Option<Rc<Class<F>>>,
}

/// The method `name` of a class: its own, or else its superclass's.
pub open spec fn method_of<F>(c: Class<F>, name: Seq<char>) -> Option<F>
    decreases c,
{
    if entries_view(c.methods@).contains_key(name) {
        Some(entries_view(c.methods@)[name])
    } else {
        match c.superclass {
            Some(sc) => method_of(*sc, name),
            None => None,
        }
    }
}

impl<F> Class<F> {
    /// A class; among methods of one name, the last one counts.
    pub fn new(name: &str, methods: Vec<(String, F)>, superclass: Option<Rc<Class<F>>>) -> (c: Self)
        ensures
            c.name@ == name@,
            c.methods@ == methods@,
            c.superclass == superclass,
    {
        Class { name: name.to_owned(), methods, superclass }
    }

    /// The class's name, as shown when printed.
    pub fn to_string(&self) -> (s: String)
        ensures
            s@ == self.name@,
    {
        self.name.clone()
    }

    /// The method `name`, looked up in the class and then up its
    /// superclasses.
    pub fn find_method(&self, name: &String) -> (r: Option<&F>)
        ensures
            match r {
                Some(f) => method_of(*self, name@) == Some(*f),
                None => method_of(*self, name@) is None,
            },
        decreases self,
    {
        match find_entry(&self.methods, name) {
            Some(j) => Some(&self.methods[j].1),
            None => match &self.superclass {
                Some(sc) => {
                    proof {
                        assert(decreases_to!(*self => **sc));
                    }
                    sc.find_method(name)
                },
                None => None,
            },
        }
    }
}

/// A class's own method wins over an inherited one of the same name.
pub proof fn lemma_own_method_overrides<F>(c: Class<F>, name: Seq<char>)
    requires
        entries_view(c.methods@).contains_key(name),
    ensures
        method_of(c, name) == Some(entries_view(c.methods@)[name]),
{
}

/// A class without a method of its own of that name has its superclass's.
pub proof fn lemma_inherits_method<F>(c: Class<F>, sc: Rc<Class<F>>, name: Seq<char>)
    requires
        c.superclass == Some(sc),
        !entries_view(c.methods@).contains_key(name),
    ensures
        method_of(c, name) == method_of(*sc, name),
{
}

} // verus!
