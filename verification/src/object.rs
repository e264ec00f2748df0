//! The concrete payload type: scalars, text, symbols, and cons pairs.
//!
//! Only the pair variant carries outgoing edges; every other variant is a
//! traceable leaf. Pairs hold handles, so mutating a pair in place can
//! build cycles, which the collector's mark pass handles.

use crate::gc::{slot_data, slot_live, swapped, Gc, Heap, HeapBox, Trace};
use vstd::prelude::*;

verus! {

/// A heap-stored value. The decimal variant carries the bit pattern of an
/// IEEE 754 binary64 number, produced and consumed by the host with
/// `f64::to_bits` / `f64::from_bits`; the collector never does arithmetic
/// on it.
#[derive(Debug)]
pub enum Object {
    Integer(i64),
    Decimal(u64),
    Literal(String),
    Symbol(String),
    List(Gc<Object>, Gc<Object>),
    Null,
}

/// The mathematical value of an `Object`: scalars as numbers, text as its
/// characters, and a pair as the slot indices of its head and tail.
pub enum ObjectV {
    Integer(int),
    Decimal(u64),
    Literal(Seq<char>),
    Symbol(Seq<char>),
    List(int, int),
    Null,
}

impl View for Object {
    type V = ObjectV;

    open spec fn view(&self) -> ObjectV {
        match self {
            Object::Integer(n) => ObjectV::Integer(*n as int),
            Object::Decimal(bits) => ObjectV::Decimal(*bits),
            Object::Literal(s) => ObjectV::Literal(s@),
            Object::Symbol(s) => ObjectV::Symbol(s@),
            Object::List(h, t) => ObjectV::List(h.idx as int, t.idx as int),
            Object::Null => ObjectV::Null,
        }
    }
}

impl Trace for Object {
    open spec fn edges(&self) -> Seq<int> {
        match self {
            Object::List(h, t) => seq![h.idx as int, t.idx as int],
            _ => Seq::empty(),
        }
    }

    fn trace(&self) -> (r: Vec<Gc<Object>>) {
        match self {
            Object::List(h, t) => {
                let mut r: Vec<Gc<Object>> = Vec::new();
                r.push(*h);
                r.push(*t);
                r
            },
            _ => Vec::new(),
        }
    }
}

impl Clone for Object {
    /// An exact copy of the value; a copied pair references the same boxes.
    fn clone(&self) -> (r: Object)
        ensures
            r == *self,
    {
        match self {
            Object::Integer(n) => Object::Integer(*n),
            Object::Decimal(bits) => Object::Decimal(*bits),
            Object::Literal(s) => Object::Literal(s.clone()),
            Object::Symbol(s) => Object::Symbol(s.clone()),
            Object::List(h, t) => Object::List(*h, *t),
            Object::Null => Object::Null,
        }
    }
}

impl PartialEq for Object {
    /// Values compare by content: scalars by value, text by characters,
    /// pairs by the boxes they reference.
    fn eq(&self, other: &Object) -> (r: bool)
    {
        match (self, other) {
            (Object::Integer(a), Object::Integer(b)) => *a == *b,
            (Object::Decimal(a), Object::Decimal(b)) => *a == *b,
            (Object::Literal(a), Object::Literal(b)) => *a == *b,
            (Object::Symbol(a), Object::Symbol(b)) => *a == *b,
            (Object::List(h1, t1), Object::List(h2, t2)) => h1.idx == h2.idx && t1.idx == t2.idx,
            (Object::Null, Object::Null) => true,
            _ => false,
        }
    }
}

impl vstd::std_specs::cmp::PartialEqSpecImpl for Object {
    open spec fn obeys_eq_spec() -> bool {
        true
    }

    open spec fn eq_spec(&self, other: &Object) -> bool {
        self@ == other@
    }
}

/// The slot index a pair's head handle refers to.
pub open spec fn car_idx(o: Object) -> int
    recommends
        o is List,
{
    o->List_0.idx as int
}

/// The slot index a pair's tail handle refers to.
pub open spec fn cdr_idx(o: Object) -> int
    recommends
        o is List,
{
    o->List_1.idx as int
}

impl Object {
    /// The handle to a pair's head; any other variant is refused.
    pub fn car(&self) -> (r: Result<Gc<Object>, String>)
        ensures
            r is Ok <==> self is List,
            r is Ok ==> r->Ok_0.idx as int == car_idx(*self),
            r is Err ==> r->Err_0@ == "function car expects list"@,
    {
        match self {
            Object::List(h, _) => Ok(*h),
            _ => Err("function car expects list".to_string()),
        }
    }

    /// The handle to a pair's tail; any other variant is refused.
    pub fn cdr(&self) -> (r: Result<Gc<Object>, String>)
        ensures
            r is Ok <==> self is List,
            r is Ok ==> r->Ok_0.idx as int == cdr_idx(*self),
            r is Err ==> r->Err_0@ == "function car expects list"@,
    {
        match self {
            Object::List(_, t) => Ok(*t),
            _ => Err("function car expects list".to_string()),
        }
    }
}

impl Heap<Object> {
    /// Handles compare by the payloads of the boxes they refer to, never by
    /// which box holds them: two handles to distinct boxes with equal
    /// payloads compare equal, and handles to boxes with differing payloads
    /// do not.
    pub fn handle_eq(&self, a: Gc<Object>, b: Gc<Object>) -> (r: bool)
        requires
            slot_live(self@, a.idx as int),
            slot_live(self@, b.idx as int),
        ensures
            r == (slot_data(self@, a.idx as int)@ == slot_data(self@, b.idx as int)@),
    {
        self.dereference(a) == self.dereference(b)
    }

    /// Replaces the payload of the head box of the pair in `target`'s box
    /// with a copy of `other`'s payload and returns the head handle; a
    /// non-pair target is refused and the heap is untouched.
    pub fn set_car(&mut self, target: Gc<Object>, other: Gc<Object>) -> (r: Result<
        Gc<Object>,
        String,
    >)
        requires
            slot_live(old(self)@, target.idx as int),
            slot_live(old(self)@, other.idx as int),
            slot_data(old(self)@, target.idx as int) is List ==> slot_live(
                old(self)@,
                car_idx(slot_data(old(self)@, target.idx as int)),
            ),
        ensures
            r is Ok <==> slot_data(old(self)@, target.idx as int) is List,
            r is Ok ==> {
                let h = car_idx(slot_data(old(self)@, target.idx as int));
                &&& r->Ok_0.idx as int == h
                &&& final(self)@ == swapped(
                    old(self)@,
                    h,
                    slot_data(old(self)@, other.idx as int),
                )
            },
            r is Err ==> final(self)@ == old(self)@ && r->Err_0@ == "function car expects list"@,
    {
        let h = match self.dereference(target) {
            Object::List(h, _) => *h,
            _ => {
                return Err("function car expects list".to_string());
            },
        };
        let v = self.dereference(other).clone();
        let _prev = self.swap(h, v);
        Ok(h)
    }

    /// Replaces the payload of the tail box of the pair in `target`'s box
    /// with a copy of `other`'s payload and returns the tail handle; a
    /// non-pair target is refused and the heap is untouched.
    pub fn set_cdr(&mut self, target: Gc<Object>, other: Gc<Object>) -> (r: Result<
        Gc<Object>,
        String,
    >)
        requires
            slot_live(old(self)@, target.idx as int),
            slot_live(old(self)@, other.idx as int),
            slot_data(old(self)@, target.idx as int) is List ==> slot_live(
                old(self)@,
                cdr_idx(slot_data(old(self)@, target.idx as int)),
            ),
        ensures
            r is Ok <==> slot_data(old(self)@, target.idx as int) is List,
            r is Ok ==> {
                let t = cdr_idx(slot_data(old(self)@, target.idx as int));
                &&& r->Ok_0.idx as int == t
                &&& final(self)@ == swapped(
                    old(self)@,
                    t,
                    slot_data(old(self)@, other.idx as int),
                )
            },
            r is Err ==> final(self)@ == old(self)@ && r->Err_0@ == "function car expects list"@,
    {
        let t = match self.dereference(target) {
            Object::List(_, t) => *t,
            _ => {
                return Err("function car expects list".to_string());
            },
        };
        let v = self.dereference(other).clone();
        let _prev = self.swap(t, v);
        Ok(t)
    }

    /// Allocates an integer scalar.
    pub fn allocate_integer(&mut self, data: i64) -> (h: Gc<Object>)
        ensures
            final(self)@ == old(self)@.push(
                Some(HeapBox { marked: false, data: Object::Integer(data) }),
            ),
            h.idx == old(self)@.len(),
    {
        self.allocate(Object::Integer(data))
    }

    /// Allocates a decimal scalar from the bit pattern of a binary64 value.
    pub fn allocate_decimal(&mut self, bits: u64) -> (h: Gc<Object>)
        ensures
            final(self)@ == old(self)@.push(
                Some(HeapBox { marked: false, data: Object::Decimal(bits) }),
            ),
            h.idx == old(self)@.len(),
    {
        self.allocate(Object::Decimal(bits))
    }

    /// Allocates a text literal.
    pub fn allocate_literal(&mut self, data: String) -> (h: Gc<Object>)
        ensures
            final(self)@ == old(self)@.push(
                Some(HeapBox { marked: false, data: Object::Literal(data) }),
            ),
            h.idx == old(self)@.len(),
    {
        self.allocate(Object::Literal(data))
    }

    /// Allocates a symbol.
    pub fn allocate_symbol(&mut self, data: String) -> (h: Gc<Object>)
        ensures
            final(self)@ == old(self)@.push(
                Some(HeapBox { marked: false, data: Object::Symbol(data) }),
            ),
            h.idx == old(self)@.len(),
    {
        self.allocate(Object::Symbol(data))
    }

    /// Allocates a pair referencing `head` and `tail`.
    pub fn allocate_list(&mut self, head: Gc<Object>, tail: Gc<Object>) -> (h: Gc<Object>)
        ensures
            final(self)@ == old(self)@.push(
                Some(HeapBox { marked: false, data: Object::List(head, tail) }),
            ),
            h.idx == old(self)@.len(),
    {
        self.allocate(Object::List(head, tail))
    }

    /// Allocates the empty marker.
    pub fn allocate_null(&mut self) -> (h: Gc<Object>)
        ensures
            final(self)@ == old(self)@.push(Some(HeapBox { marked: false, data: Object::Null })),
            h.idx == old(self)@.len(),
    {
        self.allocate(Object::Null)
    }
}

} // verus!
