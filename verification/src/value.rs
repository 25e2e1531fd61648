//! Dynamic typed values and the detaching clone.

use vstd::prelude::*;

use crate::keyed::Keyed;

verus! {

/// One field of a dynamic value: either plain data or a reference to an
/// entity by identity. References are what identity remapping rewrites.
#[derive(Clone, Copy, PartialEq, Eq, Structural, Debug)]
pub enum Field {
    Data(u64),
    EntityRef(u64),
}

/// A dynamic typed value: an interned type name together with its payload
/// fields. One instance stands for one component on one entity, or for one
/// resource.
#[derive(Debug)]
pub struct DynamicValue {
    pub name: u64,
    pub fields: Vec<Field>,
}

impl Keyed for DynamicValue {
    open spec fn key(&self) -> u64 {
        self.name
    }

    fn key_of(&self) -> (k: u64) {
        self.name
    }
}

/// Deep content equality of dynamic values.
pub open spec fn dv_eq(a: DynamicValue, b: DynamicValue) -> bool {
    a.name == b.name && a.fields@ == b.fields@
}

/// Pointwise content equality of two sequences of dynamic values.
pub open spec fn dvs_eq(a: Seq<DynamicValue>, b: Seq<DynamicValue>) -> bool {
    a.len() == b.len() && forall|i: int| 0 <= i < a.len() ==> dv_eq(a[i], b[i])
}

/// Clone-like trait for duplicating dynamic-value-bearing types: the copy
/// carries the same content and shares no backing storage with the original.
pub trait CloneReflect: Sized {
    /// What it means for a copy to carry the same content as the original.
    spec fn same_content(&self, other: &Self) -> bool;

    /// Clone the value, detaching it from its backing storage.
    fn clone_value(&self) -> (r: Self)
        ensures
            r.same_content(self),
    ;
}

impl CloneReflect for DynamicValue {
    open spec fn same_content(&self, other: &Self) -> bool {
        dv_eq(*self, *other)
    }

    fn clone_value(&self) -> (r: Self) {
        let mut fields: Vec<Field> = Vec::new();
        let mut i: usize = 0;
        while i < self.fields.len()
            invariant
                i <= self.fields.len(),
                fields@ == self.fields@.take(i as int),
            decreases self.fields.len() - i,
        {
            fields.push(self.fields[i]);
            i = i + 1;
        }
        proof {
            assert(fields@ =~= self.fields@);
        }
        DynamicValue { name: self.name, fields }
    }
}

impl CloneReflect for Vec<DynamicValue> {
    open spec fn same_content(&self, other: &Self) -> bool {
        dvs_eq(self@, other@)
    }

    fn clone_value(&self) -> (r: Self) {
        let mut result: Vec<DynamicValue> = Vec::new();
        let mut i: usize = 0;
        while i < self.len()
            invariant
                i <= self.len(),
                result@.len() == i,
                forall|j: int| 0 <= j < i ==> dv_eq(result@[j], self@[j]),
            decreases self.len() - i,
        {
            result.push(self[i].clone_value());
            i = i + 1;
        }
        result
    }
}

impl<T: CloneReflect> CloneReflect for Option<T> {
    open spec fn same_content(&self, other: &Self) -> bool {
        match (self, other) {
            (Option::Some(a), Option::Some(b)) => a.same_content(b),
            (Option::None, Option::None) => true,
            _ => false,
        }
    }

    fn clone_value(&self) -> (r: Self) {
        match self {
            Option::Some(value) => Option::Some(value.clone_value()),
            Option::None => Option::None,
        }
    }
}

} // verus!
