//! The type registry boundary: per-type capabilities looked up by interned
//! type name, the saveable-name registry, and the extraction type filter.

use vstd::prelude::*;

use crate::keyed::{find, has_key, unique_keys, find_index, Keyed};

verus! {

/// One type registration: the capabilities the host runtime exposes for a
/// type, keyed by its interned name. Every registered type can be read and
/// detached; insertion as a resource, insertion-or-merge as a component, and
/// reference remapping are optional capabilities.
#[derive(Clone, Copy, PartialEq, Eq, Structural, Debug)]
pub struct TypeReg {
    pub name: u64,
    pub resource_cap: bool,
    pub component_cap: bool,
    pub map_entities_cap: bool,
}

impl Keyed for TypeReg {
    open spec fn key(&self) -> u64 {
        self.name
    }

    fn key_of(&self) -> (k: u64) {
        self.name
    }
}

/// The registry: type registrations unique by name, the set of names
/// eligible for extraction, and the name of the hierarchy-link type whose
/// single reference field denotes an entity's parent.
pub struct Registry {
    pub types: Vec<TypeReg>,
    pub saveable: Vec<u64>,
    pub parent_name: u64,
}

/// The registration for a name, if any.
pub open spec fn reg_lookup(r: Registry, name: u64) -> Option<TypeReg> {
    find(r.types@, name)
}

/// Whether a name is eligible for extraction.
pub open spec fn is_saveable(r: Registry, name: u64) -> bool {
    r.saveable@.contains(name)
}

impl Registry {
    /// Registrations carry distinct names.
    pub open spec fn wf(&self) -> bool {
        unique_keys(self.types@)
    }

    /// Look up the registration for a name.
    pub fn lookup(&self, name: u64) -> (r: Option<TypeReg>)
        ensures
            r == reg_lookup(*self, name),
    {
        match find_index(&self.types, name) {
            Some(i) => Some(self.types[i]),
            None => None,
        }
    }

    /// Whether a name is in the saveable registry.
    pub fn saveable_contains(&self, name: u64) -> (r: bool)
        ensures
            r == is_saveable(*self, name),
    {
        match find_index(&self.saveable, name) {
            Some(i) => {
                proof {
                    assert(self.saveable@[i as int] == name);
                }
                true
            },
            None => {
                proof {
                    assert(!has_key(self.saveable@, name));
                    if self.saveable@.contains(name) {
                        let i = choose|i: int|
                            0 <= i < self.saveable@.len() && self.saveable@[i] == name;
                        assert(self.saveable@[i].key() == name);
                    }
                }
                false
            },
        }
    }
}

/// The extraction type filter: accept every registration, or only those
/// whose name stands in an allow list.
pub enum TypeFilter {
    All,
    AllowList(Vec<u64>),
}

/// Whether the filter accepts a type name.
pub open spec fn filter_accepts(f: TypeFilter, name: u64) -> bool {
    match f {
        TypeFilter::All => true,
        TypeFilter::AllowList(v) => v@.contains(name),
    }
}

impl TypeFilter {
    /// Whether the filter accepts a type name.
    pub fn accepts(&self, name: u64) -> (r: bool)
        ensures
            r == filter_accepts(*self, name),
    {
        match self {
            TypeFilter::All => true,
            TypeFilter::AllowList(v) => {
                match find_index(v, name) {
                    Some(i) => {
                        proof {
                            assert(v@[i as int] == name);
                        }
                        true
                    },
                    None => {
                        proof {
                            if v@.contains(name) {
                                let i = choose|i: int| 0 <= i < v@.len() && v@[i] == name;
                                assert(v@[i].key() == name);
                            }
                        }
                        false
                    },
                }
            },
        }
    }

    /// Duplicate the filter.
    pub fn duplicate(&self) -> (r: Self)
        ensures
            forall|name: u64| filter_accepts(r, name) == filter_accepts(*self, name),
    {
        match self {
            TypeFilter::All => TypeFilter::All,
            TypeFilter::AllowList(v) => {
                let mut out: Vec<u64> = Vec::new();
                let mut i: usize = 0;
                while i < v.len()
                    invariant
                        i <= v@.len(),
                        out@ == v@.take(i as int),
                    decreases v@.len() - i,
                {
                    out.push(v[i]);
                    i = i + 1;
                }
                proof {
                    assert(out@ =~= v@);
                }
                TypeFilter::AllowList(out)
            },
        }
    }
}

} // verus!
