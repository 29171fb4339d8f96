use vstd::prelude::*;

use crate::hashmap::HashMap;

verus! {

/// An opaque, identity-preserving handle to one heap object: the slot index
/// in the heap's arena.  Cloning a reference yields sharing, never a copy of
/// the object.
#[derive(Debug, Clone, Copy, PartialEq, Eq, Structural)]
pub struct ObjectPtr {
    pub index: usize,
}

/// A built-in native function a function value can carry.
#[derive(Debug, Clone, Copy, PartialEq, Eq, Structural)]
pub enum NativeFunction {
    /// Prints a human-readable form of its argument and returns null.
    Println,
    /// Returns a string rendering of its argument.
    Str,
}

#[derive(Debug, Clone, Copy, PartialEq, Eq, Structural)]
pub enum FunctionAddress {
    Native(NativeFunction),
    Bytecode(usize),
}

#[derive(Debug, Clone, Copy, PartialEq, Eq, Structural)]
pub struct FunctionInfo {
    pub address: FunctionAddress,
    pub n_params: usize,
}

impl FunctionInfo {
    pub fn new(address: FunctionAddress, n_params: usize) -> (r: Self)
        ensures
            r.address == address,
            r.n_params == n_params,
    {
        Self { address, n_params }
    }

    pub fn address(&self) -> (r: &FunctionAddress)
        ensures
            *r == self.address,
    {
        &self.address
    }

    pub fn n_params(&self) -> (r: usize)
        ensures
            r == self.n_params,
    {
        self.n_params
    }
}

/// An instance value: an optional class reference and a field map keyed by
/// string objects.  Not surfaced by the source language, but part of the
/// object model, and the collector walks it.
#[derive(Debug)]
pub struct Instance {
    pub class: Option<ObjectPtr>,
    pub fields: HashMap,
}

impl Instance {
    /// The heap indices this instance refers to: its class, if any, and
    /// every key and value of its field map.
    pub open spec fn child_set(self) -> Set<int> {
        (match self.class {
            Some(c) => Set::<int>::empty().insert(c.index as int),
            None => Set::<int>::empty(),
        }).union(self.fields.ptrs())
    }

    pub fn new(class: Option<ObjectPtr>) -> (r: Self)
        ensures
            r.class == class,
            forall|i: int| 0 <= i < r.fields.data@.len() ==> !(#[trigger] r.fields.data@[i]).occupied,
    {
        Self { class, fields: HashMap::new_default() }
    }

    pub fn class(&self) -> (r: Option<ObjectPtr>)
        ensures
            r == self.class,
    {
        self.class
    }

    /// Binds a field, named by a string object, to a value object.  Writing
    /// through any reference to this instance is observable through every
    /// other reference to it, because the instance itself lives in the heap.
    pub fn set_field(&mut self, heap: &crate::gc::GCSystem, key: ObjectPtr, value: ObjectPtr)
        requires
            old(self).fields.inv(*heap),
            heap.live(key.index as int),
            heap.value_at(key.index as int) is String,
            crate::hashmap::count_occupied(old(self).fields.data@) < old(self).fields.map_size
                || old(self).fields.has_key(*heap, heap.value_at(key.index as int)->String_0@),
        ensures
            final(self).class == old(self).class,
            final(self).fields.inv(*heap),
            final(self).fields.map_size == old(self).fields.map_size,
            final(self).fields.data@.len() == old(self).fields.data@.len(),
            final(self).fields.has_key(*heap, heap.value_at(key.index as int)->String_0@),
            forall|i: int|
                0 <= i < final(self).fields.data@.len()
                    && (#[trigger] final(self).fields.data@[i]).occupied
                    && final(self).fields.key_str(*heap, i)
                    == heap.value_at(key.index as int)->String_0@
                    ==> final(self).fields.data@[i].value == value,
            // every other field keeps its slot, its key object and its value
            forall|i: int|
                0 <= i < old(self).fields.data@.len()
                    && (#[trigger] old(self).fields.data@[i]).occupied ==> {
                    &&& final(self).fields.data@[i].occupied
                    &&& final(self).fields.data@[i].key == old(self).fields.data@[i].key
                    &&& (old(self).fields.key_str(*heap, i) != heap.value_at(
                        key.index as int,
                    )->String_0@ ==> final(self).fields.data@[i].value == old(
                        self,
                    ).fields.data@[i].value)
                },
            // at most one fresh slot is taken, and only for a new key
            forall|i: int|
                0 <= i < final(self).fields.data@.len()
                    && (#[trigger] final(self).fields.data@[i]).occupied && !old(
                    self,
                ).fields.data@[i].occupied ==> final(self).fields.data@[i].key == key
                    && final(self).fields.data@[i].value == value,
            crate::hashmap::count_occupied(final(self).fields.data@) == crate::hashmap::count_occupied(
                old(self).fields.data@,
            ) + (if old(self).fields.has_key(*heap, heap.value_at(key.index as int)->String_0@) {
                0int
            } else {
                1int
            }),
    {
        self.fields.put(heap, key, value);
        proof {
            let ks = heap.value_at(key.index as int)->String_0@;
            assert forall|i: int|
                0 <= i < self.fields.data@.len() && (#[trigger] self.fields.data@[i]).occupied
                    && self.fields.key_str(*heap, i) == ks implies self.fields.data@[i].value
                == value by {
                if old(self).fields.data@[i].occupied {
                    assert(self.fields.data@[i].key == old(self).fields.data@[i].key);
                    assert(old(self).fields.key_str(*heap, i) == ks);
                }
            }
        }
    }

    /// Looks a field up by its string-object key.
    pub fn get_field(&self, heap: &crate::gc::GCSystem, key: ObjectPtr) -> (r: Option<ObjectPtr>)
        requires
            self.fields.inv(*heap),
            heap.live(key.index as int),
            heap.value_at(key.index as int) is String,
        ensures
            match r {
                Some(v) => exists|i: int|
                    0 <= i < self.fields.data@.len() && (#[trigger] self.fields.data@[i]).occupied
                        && self.fields.key_str(*heap, i) == heap.value_at(
                        key.index as int,
                    )->String_0@ && self.fields.data@[i].value == v,
                None => !self.fields.has_key(*heap, heap.value_at(key.index as int)->String_0@),
            },
    {
        self.fields.get(heap, key)
    }

    pub fn children(&self) -> (r: Vec<ObjectPtr>)
        ensures
            forall|j: int| 0 <= j < r@.len() ==> self.child_set().contains((#[trigger] r@[j]).index as int),
            forall|x: int| self.child_set().contains(x) ==> crate::hashmap::holds_index(r@, x),
    {
        let mut pointers: Vec<ObjectPtr> = Vec::new();
        match self.class {
            Some(c) => {
                pointers.push(c);
            }
            None => {}
        }
        let ghost p0 = pointers@;
        let mut rest = self.fields.pointer();
        let ghost restsnap = rest@;
        pointers.append(&mut rest);
        proof {
            assert forall|x: int| self.child_set().contains(x) implies crate::hashmap::holds_index(
                pointers@,
                x,
            ) by {
                if self.fields.ptrs().contains(x) {
                    let j = choose|j: int|
                        0 <= j < restsnap.len() && (#[trigger] restsnap[j]).index == x;
                    assert(pointers@[p0.len() as int + j] == restsnap[j]);
                } else {
                    assert(self.class is Some && x == self.class->Some_0.index);
                    assert(pointers@[0].index == x);
                }
            }
        }
        pointers
    }
}

/// The tagged runtime value sum type.
#[derive(Debug)]
pub enum Value {
    /// Sentinel for uninitialised slots; using one is a fatal error.
    Invalid,
    Null,
    Integer(i64),
    Boolean(bool),
    Function(Box<FunctionInfo>),
    String(String),
    Instance(Instance),
}

impl Value {
    /// The heap indices a value refers to.  Only instances refer to other
    /// objects; a native function pointer is not a collector root.
    pub open spec fn child_set(self) -> Set<int> {
        match self {
            Value::Instance(i) => i.child_set(),
            _ => Set::<int>::empty(),
        }
    }

    pub fn const_int(value: i64) -> (r: Self)
        ensures
            r == Value::Integer(value),
    {
        Value::Integer(value)
    }

    pub fn const_bool(value: bool) -> (r: Self)
        ensures
            r == Value::Boolean(value),
    {
        Value::Boolean(value)
    }

    pub fn const_string(value: String) -> (r: Self)
        ensures
            r == Value::String(value),
    {
        Value::String(value)
    }

    pub fn children(&self) -> (r: Vec<ObjectPtr>)
        ensures
            forall|j: int| 0 <= j < r@.len() ==> self.child_set().contains((#[trigger] r@[j]).index as int),
            forall|x: int| self.child_set().contains(x) ==> crate::hashmap::holds_index(r@, x),
    {
        match self {
            Value::Instance(i) => i.children(),
            _ => Vec::new(),
        }
    }

    pub fn children_mut(&mut self) -> (r: Vec<ObjectPtr>)
        ensures
            *final(self) == *old(self),
            forall|j: int|
                0 <= j < r@.len() ==> old(self).child_set().contains((#[trigger] r@[j]).index as int),
            forall|x: int| old(self).child_set().contains(x) ==> crate::hashmap::holds_index(r@, x),
    {
        self.children()
    }
}

/// A heap node: the value, the collector's mark bit, and nothing else the
/// program can observe.
#[derive(Debug)]
pub struct Object {
    pub marked: bool,
    pub value: Value,
}

impl Object {
    pub fn new(value: Value) -> (r: Self)
        ensures
            r.value == value,
            !r.marked,
    {
        Self { value, marked: false }
    }

    pub fn new_from_value(value: Value) -> (r: Self)
        ensures
            r.value == value,
            !r.marked,
    {
        Self::new(value)
    }

    pub fn const_int(value: i64) -> (r: Self)
        ensures
            r.value == Value::Integer(value),
            !r.marked,
    {
        Self::new_from_value(Value::const_int(value))
    }

    pub fn const_bool(value: bool) -> (r: Self)
        ensures
            r.value == Value::Boolean(value),
            !r.marked,
    {
        Self::new_from_value(Value::const_bool(value))
    }

    pub fn const_string(value: String) -> (r: Self)
        ensures
            r.value == Value::String(value),
            !r.marked,
    {
        Self::new_from_value(Value::const_string(value))
    }

    pub fn const_null() -> (r: Self)
        ensures
            r.value == Value::Null,
            !r.marked,
    {
        Self::new_from_value(Value::Null)
    }

    pub fn make_invalid() -> (r: Self)
        ensures
            r.value == Value::Invalid,
            !r.marked,
    {
        Self::new_from_value(Value::Invalid)
    }

    pub fn value(&self) -> (r: &Value)
        ensures
            *r == self.value,
    {
        &self.value
    }
}

} // verus!
