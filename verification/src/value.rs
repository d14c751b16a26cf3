use vstd::prelude::*;

verus! {

/// The tag of an ordinary pair.
pub const PAIR_TAG: u16 = 0;

/// An error of the virtual machine.
#[derive(Clone, Copy, Debug, PartialEq, Eq, Structural)]
pub enum Error {
    /// A cons was expected.
    ConsExpected,
    /// A number was expected.
    NumberExpected,
    /// A memory location outside of the heap, a range or a vector was accessed.
    InvalidMemoryAccess,
    /// A primitive that the set does not know was called.
    IllegalPrimitive,
    /// The program halted.
    Halt,
    /// The heap has no room for another cell.
    OutOfMemory,
    /// A value was taken from an empty stack.
    StackUnderflow,
}

/// A reference to a cell of the heap, with a tag.
#[derive(Clone, Copy, Debug, PartialEq, Eq, Structural)]
pub struct Cons {
    /// The index of the cell in the heap.
    pub index: usize,
    /// The tag carried by this reference.
    pub tag: u16,
}

impl Cons {
    /// Returns the same reference with another tag.
    pub fn set_tag(self, tag: u16) -> (r: Cons)
        ensures
            r == (Cons { index: self.index, tag }),
    {
        Cons { index: self.index, tag }
    }

    /// Returns the tag of the reference.
    pub fn tag(self) -> (r: u16)
        ensures
            r == self.tag,
    {
        self.tag
    }
}

/// A value of the virtual machine: an integer or a reference to a cell.
#[derive(Clone, Copy, Debug, PartialEq, Eq, Structural)]
pub enum Value {
    /// An integer.
    Number(i64),
    /// A reference to a cell.
    Cons(Cons),
}

impl Value {
    /// Returns the referenced cell, if the value is one.
    pub fn to_cons(self) -> (r: Option<Cons>)
        ensures
            r == self.as_cons(),
    {
        match self {
            Value::Cons(c) => Some(c),
            Value::Number(_) => None,
        }
    }

    /// Returns the integer, if the value is one.
    pub fn to_number(self) -> (r: Option<i64>)
        ensures
            r == self.as_number(),
    {
        match self {
            Value::Number(n) => Some(n),
            Value::Cons(_) => None,
        }
    }

    /// Returns the tag of a referenced cell, or zero for an integer.
    pub fn tag(self) -> (r: u16)
        ensures
            r == self.tag_spec(),
    {
        match self {
            Value::Cons(c) => c.tag,
            Value::Number(_) => 0,
        }
    }

    /// The tag of a referenced cell, or zero for an integer.
    pub open spec fn tag_spec(self) -> u16 {
        match self {
            Value::Cons(c) => c.tag,
            Value::Number(_) => 0,
        }
    }

    /// Returns true if the value references a cell.
    pub fn is_cons(self) -> (r: bool)
        ensures
            r == self is Cons,
    {
        match self {
            Value::Cons(_) => true,
            Value::Number(_) => false,
        }
    }

    /// The referenced cell, if any.
    pub open spec fn as_cons(self) -> Option<Cons> {
        match self {
            Value::Cons(c) => Some(c),
            Value::Number(_) => None,
        }
    }

    /// The integer, if any.
    pub open spec fn as_number(self) -> Option<i64> {
        match self {
            Value::Number(n) => Some(n),
            Value::Cons(_) => None,
        }
    }
}

/// The cell a value references, or `ConsExpected`.
pub open spec fn cons_of(v: Value) -> Result<Cons, Error> {
    match v {
        Value::Cons(c) => Ok(c),
        Value::Number(_) => Err(Error::ConsExpected),
    }
}

/// The integer a value holds, or `NumberExpected`.
pub open spec fn number_of(v: Value) -> Result<i64, Error> {
    match v {
        Value::Number(n) => Ok(n),
        Value::Cons(_) => Err(Error::NumberExpected),
    }
}

/// Returns the referenced cell or `ConsExpected`.
pub fn expect_cons(v: Value) -> (r: Result<Cons, Error>)
    ensures
        r == cons_of(v),
{
    match v {
        Value::Cons(c) => Ok(c),
        Value::Number(_) => Err(Error::ConsExpected),
    }
}

/// Returns the integer or `NumberExpected`.
pub fn expect_number(v: Value) -> (r: Result<i64, Error>)
    ensures
        r == number_of(v),
{
    match v {
        Value::Number(n) => Ok(n),
        Value::Cons(_) => Err(Error::NumberExpected),
    }
}

} // verus!
