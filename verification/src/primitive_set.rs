use vstd::prelude::*;
use crate::copy::{bytevector_copy, bytevector_copy_outcome};
use crate::decode::{utf8_decode, utf8_decode_outcome};
use crate::file::{
    file_outcome, primitive_spec, reaches_file_system, FileError, FilePrimitiveSet, FileSystem, Primitive,
    PrimitiveError,
};
use crate::filled::{make_bytevector, make_bytevector_outcome};
use crate::memory::{
    allocate_push_outcome, car_of, cdr_of, holds, is_null, pop_values, push_outcome, Memory,
};
use crate::small::{
    list_argument_ends, utf8_encode, utf8_encode_outcome, utf8_encoded_length,
    utf8_encoded_length_outcome,
};
use crate::string::{copy_code_points, copy_code_points_outcome, make_string, make_string_outcome};
use crate::value::{cons_of, expect_cons, expect_number, number_of, Cons, Error, Value};

verus! {

/// The tag of a procedure.
pub const PROCEDURE_TAG: u16 = 3;

/// A primitive of the small set.
///
/// The set runs the primitives on ribs, the bytevector and string
/// primitives, and, through a `FilePrimitiveSet`, the file primitives. The
/// arithmetic primitives and the groups of type checks, lists, equality,
/// devices, the process context, time and inexact numbers are not part of
/// it: their meaning lives in the number type and the primitive sets of
/// other crates of the machine, which this library does not have. Naming
/// primitives by this enum rather than by number leaves no unknown number
/// to refuse here; the file primitives, which are still numbered, refuse an
/// unknown one with `IllegalPrimitive`.
#[derive(Clone, Copy, Debug, PartialEq, Eq, Structural)]
pub enum SmallPrimitive {
    /// Allocates a rib from a car, a cdr and a tag.
    Rib,
    /// Closes a procedure over the stack.
    Close,
    /// Drops the value below the top of the stack.
    Unbind,
    /// Tells whether a value is a rib.
    IsRib,
    /// Takes the car of a rib.
    Car,
    /// Takes the cdr of a rib.
    Cdr,
    /// Takes the tag of the cdr of a rib.
    Tag,
    /// Replaces the car of a rib.
    SetCar,
    /// Replaces the cdr of a rib.
    SetCdr,
    /// Compares two values for identity.
    Equal,
    /// Compares two integers.
    LessThan,
    /// Halts the program.
    Halt,
    /// Makes a bytevector.
    MakeBytevector,
    /// Copies bytes between bytevectors.
    BytevectorCopy,
    /// Measures the UTF-8 encoding of a code point list.
    Utf8EncodedLength,
    /// Encodes code points into a bytevector.
    Utf8Encode,
    /// Decodes code points from a bytevector.
    Utf8Decode,
    /// Copies code points into a new string.
    CopyCodePoints,
    /// Makes a string.
    MakeString,
    /// A primitive of the file system.
    File(Primitive),
}

/// A value with the tag of a referenced cell replaced; an integer stays as
/// it is.
pub open spec fn with_tag(value: Value, tag: u16) -> Value {
    match value {
        Value::Cons(c) => Value::Cons(Cons { index: c.index, tag }),
        Value::Number(n) => Value::Number(n),
    }
}

/// Returns a value with the tag of a referenced cell replaced.
fn set_value_tag(value: Value, tag: u16) -> (r: Value)
    ensures
        r == with_tag(value, tag),
{
    match value {
        Value::Cons(c) => Value::Cons(c.set_tag(tag)),
        Value::Number(n) => Value::Number(n),
    }
}

/// The car of the cell a value references, or the error.
pub open spec fn car_value(cars: Seq<Value>, value: Value) -> Result<Value, Error> {
    match cons_of(value) {
        Err(e) => Err(e),
        Ok(c) => car_of(cars, c),
    }
}

/// The cdr of the cell a value references, or the error.
pub open spec fn cdr_value(cdrs: Seq<Value>, value: Value) -> Result<Value, Error> {
    match cons_of(value) {
        Err(e) => Err(e),
        Ok(c) => cdr_of(cdrs, c),
    }
}

/// The tag of a referenced cell as an integer, or zero for an integer.
pub open spec fn tag_number(value: Value) -> Value {
    match value {
        Value::Cons(c) => Value::Number(c.tag as i64),
        Value::Number(_) => Value::Number(0),
    }
}

/// The error of a result of the virtual machine.
pub open spec fn vm_result(r: Result<(), PrimitiveError>) -> Result<(), Error> {
    match r {
        Ok(u) => Ok(u),
        Err(PrimitiveError::Vm(e)) => Err(e),
        Err(PrimitiveError::File(_)) => Err(Error::IllegalPrimitive),
    }
}

/// The result of a primitive that fails with errors of the virtual machine
/// only.
pub open spec fn vm_only(r: Result<(), PrimitiveError>) -> bool {
    r matches Err(e) ==> e is Vm
}

/// What replacing the value on top of the stack of `old` by `f` of it gives:
/// `new` and `r` are the heap and the result afterwards.
pub open spec fn top_outcome(old: Memory, new: Memory, r: Result<(), Error>, f: spec_fn(Value) -> Result<Value, Error>) -> bool {
    let cars = old.cars();
    let cdrs = old.cdrs();
    let stack = old.stack_cons();
    if is_null(stack) {
        r == Err::<(), Error>(Error::StackUnderflow) && holds(new, cars, cdrs, stack)
    } else {
        match car_of(cars, stack) {
            Err(e) => r == Err::<(), Error>(e) && holds(new, cars, cdrs, stack),
            Ok(v) => match f(v) {
                Err(e) => r == Err::<(), Error>(e) && holds(new, cars, cdrs, stack),
                Ok(w) => r is Ok && holds(new, cars.update(stack.index as int, w), cdrs, stack),
            },
        }
    }
}

/// What a small primitive, other than those of the file system, does to the
/// heap `old`: `new` and `r` are the heap and the result afterwards.
pub open spec fn small_outcome(primitive: SmallPrimitive, old: Memory, new: Memory, r: Result<(), Error>) -> bool {
    let cars = old.cars();
    let cdrs = old.cdrs();
    let stack = old.stack_cons();
    let popped = |n: nat| pop_values(cars, cdrs, stack, n);
    match primitive {
        SmallPrimitive::Rib => match popped(3).0 {
            Err(e) => r == Err::<(), Error>(e) && holds(new, cars, cdrs, popped(3).1),
            Ok(args) => match number_of(args[2]) {
                Err(e) => r == Err::<(), Error>(e) && holds(new, cars, cdrs, popped(3).1),
                Ok(t) => allocate_push_outcome(
                    cars,
                    cdrs,
                    popped(3).1,
                    args[0],
                    with_tag(args[1], t as u16),
                    new,
                    r,
                ),
            },
        },
        SmallPrimitive::Close => match popped(1).0 {
            Err(e) => r == Err::<(), Error>(e) && holds(new, cars, cdrs, popped(1).1),
            Ok(args) => match car_value(cars, args[0]) {
                Err(e) => r == Err::<(), Error>(e) && holds(new, cars, cdrs, popped(1).1),
                Ok(code) => allocate_push_outcome(
                    cars,
                    cdrs,
                    popped(1).1,
                    code,
                    Value::Cons(Cons { index: popped(1).1.index, tag: PROCEDURE_TAG }),
                    new,
                    r,
                ),
            },
        },
        SmallPrimitive::Unbind => match popped(2).0 {
            Err(e) => r == Err::<(), Error>(e) && holds(new, cars, cdrs, popped(2).1),
            Ok(args) => push_outcome(cars, cdrs, popped(2).1, args[1], new, r),
        },
        SmallPrimitive::IsRib => top_outcome(
            old,
            new,
            r,
            |v: Value| Ok(Value::Cons(Memory::boolean_spec(v is Cons))),
        ),
        SmallPrimitive::Car => top_outcome(old, new, r, |v: Value| car_value(cars, v)),
        SmallPrimitive::Cdr => top_outcome(old, new, r, |v: Value| cdr_value(cdrs, v)),
        SmallPrimitive::Tag => top_outcome(
            old,
            new,
            r,
            |v: Value|
                match cdr_value(cdrs, v) {
                    Err(e) => Err(e),
                    Ok(w) => Ok(tag_number(w)),
                },
        ),
        SmallPrimitive::SetCar => match popped(2).0 {
            Err(e) => r == Err::<(), Error>(e) && holds(new, cars, cdrs, popped(2).1),
            Ok(args) => match cons_of(args[0]) {
                Err(e) => r == Err::<(), Error>(e) && holds(new, cars, cdrs, popped(2).1),
                Ok(c) => if c.index < cars.len() {
                    push_outcome(
                        cars.update(c.index as int, args[1]),
                        cdrs,
                        popped(2).1,
                        args[1],
                        new,
                        r,
                    )
                } else {
                    r == Err::<(), Error>(Error::InvalidMemoryAccess) && holds(
                        new,
                        cars,
                        cdrs,
                        popped(2).1,
                    )
                },
            },
        },
        SmallPrimitive::SetCdr => match popped(2).0 {
            Err(e) => r == Err::<(), Error>(e) && holds(new, cars, cdrs, popped(2).1),
            Ok(args) => match cons_of(args[0]) {
                Err(e) => r == Err::<(), Error>(e) && holds(new, cars, cdrs, popped(2).1),
                Ok(c) => if c.index < cdrs.len() {
                    push_outcome(
                        cars,
                        cdrs.update(c.index as int, args[1]),
                        popped(2).1,
                        args[1],
                        new,
                        r,
                    )
                } else {
                    r == Err::<(), Error>(Error::InvalidMemoryAccess) && holds(
                        new,
                        cars,
                        cdrs,
                        popped(2).1,
                    )
                },
            },
        },
        SmallPrimitive::Equal => match popped(2).0 {
            Err(e) => r == Err::<(), Error>(e) && holds(new, cars, cdrs, popped(2).1),
            Ok(args) => push_outcome(
                cars,
                cdrs,
                popped(2).1,
                Value::Cons(Memory::boolean_spec(args[0] == args[1])),
                new,
                r,
            ),
        },
        SmallPrimitive::LessThan => match popped(2).0 {
            Err(e) => r == Err::<(), Error>(e) && holds(new, cars, cdrs, popped(2).1),
            Ok(args) => match (number_of(args[0]), number_of(args[1])) {
                (Ok(x), Ok(y)) => push_outcome(
                    cars,
                    cdrs,
                    popped(2).1,
                    Value::Cons(Memory::boolean_spec(x < y)),
                    new,
                    r,
                ),
                _ => r == Err::<(), Error>(Error::NumberExpected) && holds(
                    new,
                    cars,
                    cdrs,
                    popped(2).1,
                ),
            },
        },
        SmallPrimitive::Halt => r == Err::<(), Error>(Error::Halt) && holds(new, cars, cdrs, stack),
        SmallPrimitive::MakeBytevector => make_bytevector_outcome(old, new, r),
        SmallPrimitive::BytevectorCopy => bytevector_copy_outcome(old, new, r),
        SmallPrimitive::Utf8EncodedLength => utf8_encoded_length_outcome(old, new, r),
        SmallPrimitive::Utf8Encode => utf8_encode_outcome(old, new, r),
        SmallPrimitive::Utf8Decode => utf8_decode_outcome(old, new, r),
        SmallPrimitive::CopyCodePoints => copy_code_points_outcome(old, new, r),
        SmallPrimitive::MakeString => make_string_outcome(old, new, r),
        SmallPrimitive::File(_) => true,
    }
}

/// The number a file primitive goes by.
pub open spec fn file_number(primitive: Primitive) -> usize {
    match primitive {
        Primitive::OpenFile => 0,
        Primitive::CloseFile => 1,
        Primitive::ReadFile => 2,
        Primitive::WriteFile => 3,
        Primitive::DeleteFile => 4,
        Primitive::ExistsFile => 5,
        Primitive::FlushFile => 6,
        Primitive::ReadFileBulk => 7,
        Primitive::WriteFileBulk => 8,
    }
}

/// Returns the number a file primitive goes by.
fn number_of_file_primitive(primitive: Primitive) -> (r: usize)
    ensures
        r == file_number(primitive),
        primitive_spec(r) == Some(primitive),
{
    match primitive {
        Primitive::OpenFile => 0,
        Primitive::CloseFile => 1,
        Primitive::ReadFile => 2,
        Primitive::WriteFile => 3,
        Primitive::DeleteFile => 4,
        Primitive::ExistsFile => 5,
        Primitive::FlushFile => 6,
        Primitive::ReadFileBulk => 7,
        Primitive::WriteFileBulk => 8,
    }
}

/// Wraps an error of the virtual machine.
fn lift(r: Result<(), Error>) -> (s: Result<(), PrimitiveError>)
    ensures
        vm_result(s) == r,
        vm_only(s),
{
    match r {
        Ok(u) => Ok(u),
        Err(e) => Err(PrimitiveError::Vm(e)),
    }
}

/// A primitive set that covers the primitives of the small language over a
/// cons-cell heap, with a file system.
pub struct SmallPrimitiveSet<F: FileSystem> {
    file: FilePrimitiveSet<F>,
}

impl<F: FileSystem> SmallPrimitiveSet<F> {
    /// The file system the file primitives operate on.
    pub closed spec fn files(&self) -> F {
        self.file.files()
    }

    /// Creates a primitive set over a file system.
    pub fn new(file_system: F) -> (r: Self)
        ensures
            r.files() == file_system,
    {
        Self { file: FilePrimitiveSet::new(file_system) }
    }

    /// Allocates a rib and pushes it.
    fn rib(memory: &mut Memory, car: Value, cdr: Value, tag: u16) -> (r: Result<(), Error>)
        requires
            old(memory).wf(),
        ensures
            final(memory).wf(),
            final(memory).capacity() == old(memory).capacity(),
            allocate_push_outcome(
                old(memory).cars(),
                old(memory).cdrs(),
                old(memory).stack_cons(),
                car,
                with_tag(cdr, tag),
                *final(memory),
                r,
            ),
    {
        let rib = memory.allocate(car, set_value_tag(cdr, tag))?;
        memory.push(Value::Cons(rib))
    }

    /// Replaces the value on top of the stack by the car of the cell it
    /// references.
    fn top_car(memory: &mut Memory) -> (r: Result<(), Error>)
        requires
            old(memory).wf(),
        ensures
            final(memory).wf(),
            final(memory).capacity() == old(memory).capacity(),
            top_outcome(*old(memory), *final(memory), r, |v: Value| car_value(old(memory).cars(), v)),
    {
        let v = memory.top()?;
        let w = memory.car(expect_cons(v)?)?;
        memory.set_top(w)
    }

    /// Replaces the value on top of the stack by the cdr of the cell it
    /// references.
    fn top_cdr(memory: &mut Memory) -> (r: Result<(), Error>)
        requires
            old(memory).wf(),
        ensures
            final(memory).wf(),
            final(memory).capacity() == old(memory).capacity(),
            top_outcome(*old(memory), *final(memory), r, |v: Value| cdr_value(old(memory).cdrs(), v)),
    {
        let v = memory.top()?;
        let w = memory.cdr(expect_cons(v)?)?;
        memory.set_top(w)
    }

    /// Replaces the value on top of the stack by the tag of the cdr of the
    /// cell it references, or zero where that cdr is an integer.
    fn tag(memory: &mut Memory) -> (r: Result<(), Error>)
        requires
            old(memory).wf(),
        ensures
            final(memory).wf(),
            final(memory).capacity() == old(memory).capacity(),
            top_outcome(
                *old(memory),
                *final(memory),
                r,
                |v: Value|
                    match cdr_value(old(memory).cdrs(), v) {
                        Err(e) => Err(e),
                        Ok(w) => Ok(tag_number(w)),
                    },
            ),
    {
        let v = memory.top()?;
        let w = memory.cdr(expect_cons(v)?)?;
        let t = match w {
            Value::Cons(c) => Value::Number(c.tag as i64),
            Value::Number(_) => Value::Number(0),
        };
        memory.set_top(t)
    }

    /// Replaces the value on top of the stack by whether it references a
    /// cell.
    fn is_rib(memory: &mut Memory) -> (r: Result<(), Error>)
        requires
            old(memory).wf(),
        ensures
            final(memory).wf(),
            final(memory).capacity() == old(memory).capacity(),
            top_outcome(
                *old(memory),
                *final(memory),
                r,
                |v: Value| Ok(Value::Cons(Memory::boolean_spec(v is Cons))),
            ),
    {
        let v = memory.top()?;
        let b = memory.boolean(v.is_cons());
        memory.set_top(Value::Cons(b))
    }

    /// Takes a cell and a value from the stack, stores the value in the car
    /// of the cell, or in its cdr, and pushes the value.
    fn set_field(memory: &mut Memory, car: bool) -> (r: Result<(), Error>)
        requires
            old(memory).wf(),
        ensures
            final(memory).wf(),
            final(memory).capacity() == old(memory).capacity(),
            small_outcome(
                if car {
                    SmallPrimitive::SetCar
                } else {
                    SmallPrimitive::SetCdr
                },
                *old(memory),
                *final(memory),
                r,
            ),
    {
        let args = memory.pop_many(2)?;
        let c = expect_cons(args[0])?;
        if car {
            memory.set_car(c, args[1])?;
        } else {
            memory.set_cdr(c, args[1])?;
        }
        memory.push(args[1])
    }

    /// Takes two integers from the stack and pushes whether the first is
    /// less than the second.
    fn operate_comparison(memory: &mut Memory) -> (r: Result<(), Error>)
        requires
            old(memory).wf(),
        ensures
            final(memory).wf(),
            final(memory).capacity() == old(memory).capacity(),
            small_outcome(SmallPrimitive::LessThan, *old(memory), *final(memory), r),
    {
        let args = memory.pop_many(2)?;
        let (x, y) = match (args[0], args[1]) {
            (Value::Number(x), Value::Number(y)) => (x, y),
            _ => {
                return Err(Error::NumberExpected);
            },
        };
        let b = memory.boolean(x < y);
        memory.push(Value::Cons(b))
    }

    /// Runs a primitive of the small set on the stack of the heap.
    #[verifier::rlimit(40)]
    pub fn operate(&mut self, memory: &mut Memory, primitive: SmallPrimitive) -> (r: Result<
        (),
        PrimitiveError,
    >)
        requires
            old(memory).wf(),
            primitive == SmallPrimitive::Utf8EncodedLength ==> (pop_values(
                old(memory).cars(),
                old(memory).cdrs(),
                old(memory).stack_cons(),
                1,
            ).0 matches Ok(args) ==> list_argument_ends(*old(memory), args[0])),
        ensures
            final(memory).wf(),
            final(memory).capacity() == old(memory).capacity(),
            match primitive {
                SmallPrimitive::File(p) => {
                    &&& file_outcome(file_number(p), *old(memory), *final(memory), r, old(self).files(), final(self).files())
                    &&& !reaches_file_system(file_number(p), *old(memory)) || r == Err::<
                        (),
                        PrimitiveError,
                    >(PrimitiveError::File(FileError::PathDecode)) ==> final(self).files() == old(
                        self,
                    ).files()
                },
                _ => {
                    &&& vm_only(r)
                    &&& small_outcome(primitive, *old(memory), *final(memory), vm_result(r))
                    &&& final(self).files() == old(self).files()
                },
            },
    {
        match primitive {
            SmallPrimitive::Rib => {
                let args = lift_values(memory.pop_many(3))?;
                let t = lift_number(expect_number(args[2]))?;
                lift(Self::rib(memory, args[0], args[1], t as u16))
            },
            SmallPrimitive::Close => {
                let args = lift_values(memory.pop_many(1))?;
                let closure = lift_cons(expect_cons(args[0]))?;
                let code = lift_value(memory.car(closure))?;
                let stack = memory.stack();
                lift(Self::rib(memory, code, Value::Cons(stack), PROCEDURE_TAG))
            },
            SmallPrimitive::Unbind => {
                let args = lift_values(memory.pop_many(2))?;
                lift(memory.push(args[1]))
            },
            SmallPrimitive::IsRib => lift(Self::is_rib(memory)),
            SmallPrimitive::Car => lift(Self::top_car(memory)),
            SmallPrimitive::Cdr => lift(Self::top_cdr(memory)),
            SmallPrimitive::Tag => lift(Self::tag(memory)),
            SmallPrimitive::SetCar => lift(Self::set_field(memory, true)),
            SmallPrimitive::SetCdr => lift(Self::set_field(memory, false)),
            SmallPrimitive::Equal => {
                let args = lift_values(memory.pop_many(2))?;
                let b = memory.boolean(args[0] == args[1]);
                lift(memory.push(Value::Cons(b)))
            },
            SmallPrimitive::LessThan => lift(Self::operate_comparison(memory)),
            SmallPrimitive::Halt => Err(PrimitiveError::Vm(Error::Halt)),
            SmallPrimitive::MakeBytevector => lift(make_bytevector(memory)),
            SmallPrimitive::BytevectorCopy => lift(bytevector_copy(memory)),
            SmallPrimitive::Utf8EncodedLength => lift(utf8_encoded_length(memory)),
            SmallPrimitive::Utf8Encode => lift(utf8_encode(memory)),
            SmallPrimitive::Utf8Decode => lift(utf8_decode(memory)),
            SmallPrimitive::CopyCodePoints => lift(copy_code_points(memory)),
            SmallPrimitive::MakeString => lift(make_string(memory)),
            SmallPrimitive::File(p) => {
                let number = number_of_file_primitive(p);
                self.file.operate(memory, number)
            },
        }
    }
}

/// Wraps an error of the virtual machine around a result of values.
fn lift_values(r: Result<Vec<Value>, Error>) -> (s: Result<Vec<Value>, PrimitiveError>)
    ensures
        match r {
            Ok(v) => s == Ok::<Vec<Value>, PrimitiveError>(v),
            Err(e) => s == Err::<Vec<Value>, PrimitiveError>(PrimitiveError::Vm(e)),
        },
{
    match r {
        Ok(v) => Ok(v),
        Err(e) => Err(PrimitiveError::Vm(e)),
    }
}

/// Wraps an error of the virtual machine around a result of a value.
fn lift_value(r: Result<Value, Error>) -> (s: Result<Value, PrimitiveError>)
    ensures
        match r {
            Ok(v) => s == Ok::<Value, PrimitiveError>(v),
            Err(e) => s == Err::<Value, PrimitiveError>(PrimitiveError::Vm(e)),
        },
{
    match r {
        Ok(v) => Ok(v),
        Err(e) => Err(PrimitiveError::Vm(e)),
    }
}

/// Wraps an error of the virtual machine around a result of a cell.
fn lift_cons(r: Result<Cons, Error>) -> (s: Result<Cons, PrimitiveError>)
    ensures
        match r {
            Ok(v) => s == Ok::<Cons, PrimitiveError>(v),
            Err(e) => s == Err::<Cons, PrimitiveError>(PrimitiveError::Vm(e)),
        },
{
    match r {
        Ok(v) => Ok(v),
        Err(e) => Err(PrimitiveError::Vm(e)),
    }
}

/// Wraps an error of the virtual machine around a result of an integer.
fn lift_number(r: Result<i64, Error>) -> (s: Result<i64, PrimitiveError>)
    ensures
        match r {
            Ok(v) => s == Ok::<i64, PrimitiveError>(v),
            Err(e) => s == Err::<i64, PrimitiveError>(PrimitiveError::Vm(e)),
        },
{
    match r {
        Ok(v) => Ok(v),
        Err(e) => Err(PrimitiveError::Vm(e)),
    }
}

} // verus!
