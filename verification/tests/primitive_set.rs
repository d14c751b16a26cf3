use lib::file::{FileDescriptor, FileSystem, Primitive, PrimitiveError};
use lib::memory::Memory;
use lib::primitive_set::{SmallPrimitive, SmallPrimitiveSet, PROCEDURE_TAG};
use lib::value::{Error, Value};

struct VoidFileSystem;

impl FileSystem for VoidFileSystem {
    type PathBuf = ();
    type Error = ();

    fn open(&mut self, _: &(), _: bool) -> Result<FileDescriptor, ()> {
        Err(())
    }

    fn close(&mut self, _: FileDescriptor) -> Result<(), ()> {
        Err(())
    }

    fn read(&mut self, _: FileDescriptor) -> Result<Option<u8>, ()> {
        Err(())
    }

    fn write(&mut self, _: FileDescriptor, _: u8) -> Result<(), ()> {
        Err(())
    }

    fn flush(&mut self, _: FileDescriptor) -> Result<(), ()> {
        Err(())
    }

    fn delete(&mut self, _: &()) -> Result<(), ()> {
        Err(())
    }

    fn file_exists(&self, _: &()) -> Result<bool, ()> {
        Err(())
    }

    fn decode_path(_: &Memory, _: Value) -> Result<(), ()> {
        Ok(())
    }
}

fn number(value: i64) -> Value {
    Value::Number(value)
}

fn set() -> SmallPrimitiveSet<VoidFileSystem> {
    SmallPrimitiveSet::new(VoidFileSystem)
}

#[test]
fn a_rib_holds_its_car_cdr_and_tag() {
    let mut memory = Memory::new(64).unwrap();
    let mut set = set();
    let null = Value::Cons(memory.null());
    memory.push(number(1)).unwrap();
    memory.push(null).unwrap();
    memory.push(number(5)).unwrap();
    set.operate(&mut memory, SmallPrimitive::Rib).unwrap();
    let rib = memory.top().unwrap();
    assert_eq!(memory.car(rib.to_cons().unwrap()), Ok(number(1)));

    set.operate(&mut memory, SmallPrimitive::Tag).unwrap();
    assert_eq!(memory.pop(), Ok(number(5)));

    memory.push(rib).unwrap();
    set.operate(&mut memory, SmallPrimitive::Car).unwrap();
    assert_eq!(memory.pop(), Ok(number(1)));

    memory.push(rib).unwrap();
    set.operate(&mut memory, SmallPrimitive::Cdr).unwrap();
    assert_eq!(memory.pop().unwrap().to_cons().unwrap().index, memory.null().index);

    memory.push(rib).unwrap();
    set.operate(&mut memory, SmallPrimitive::IsRib).unwrap();
    assert_eq!(memory.pop(), Ok(Value::Cons(memory.boolean(true))));

    memory.push(number(3)).unwrap();
    set.operate(&mut memory, SmallPrimitive::IsRib).unwrap();
    assert_eq!(memory.pop(), Ok(Value::Cons(memory.boolean(false))));
}

#[test]
fn setting_a_field_pushes_the_value_set() {
    let mut memory = Memory::new(64).unwrap();
    let mut set = set();
    let rib = Value::Cons(memory.allocate(number(1), number(2)).unwrap());
    memory.push(rib).unwrap();
    memory.push(number(7)).unwrap();
    set.operate(&mut memory, SmallPrimitive::SetCar).unwrap();
    assert_eq!(memory.pop(), Ok(number(7)));
    memory.push(rib).unwrap();
    memory.push(number(8)).unwrap();
    set.operate(&mut memory, SmallPrimitive::SetCdr).unwrap();
    assert_eq!(memory.pop(), Ok(number(8)));
    assert_eq!(memory.car(rib.to_cons().unwrap()), Ok(number(7)));
    assert_eq!(memory.cdr(rib.to_cons().unwrap()), Ok(number(8)));

    memory.push(number(1)).unwrap();
    memory.push(number(8)).unwrap();
    assert_eq!(
        set.operate(&mut memory, SmallPrimitive::SetCar),
        Err(PrimitiveError::Vm(Error::ConsExpected))
    );
}

#[test]
fn comparisons_push_booleans() {
    let mut memory = Memory::new(64).unwrap();
    let mut set = set();
    for (x, y, equal, less) in [(1, 1, true, false), (1, 2, false, true), (3, 2, false, false)] {
        memory.push(number(x)).unwrap();
        memory.push(number(y)).unwrap();
        set.operate(&mut memory, SmallPrimitive::Equal).unwrap();
        assert_eq!(memory.pop(), Ok(Value::Cons(memory.boolean(equal))));
        memory.push(number(x)).unwrap();
        memory.push(number(y)).unwrap();
        set.operate(&mut memory, SmallPrimitive::LessThan).unwrap();
        assert_eq!(memory.pop(), Ok(Value::Cons(memory.boolean(less))));
    }
    let null = Value::Cons(memory.null());
    memory.push(null).unwrap();
    memory.push(number(1)).unwrap();
    assert_eq!(
        set.operate(&mut memory, SmallPrimitive::LessThan),
        Err(PrimitiveError::Vm(Error::NumberExpected))
    );
}

#[test]
fn unbinding_drops_the_value_below_the_top() {
    let mut memory = Memory::new(64).unwrap();
    let mut set = set();
    memory.push(number(1)).unwrap();
    memory.push(number(2)).unwrap();
    set.operate(&mut memory, SmallPrimitive::Unbind).unwrap();
    assert_eq!(memory.pop(), Ok(number(2)));
    assert_eq!(memory.pop(), Err(Error::StackUnderflow));
}

#[test]
fn closing_captures_the_stack() {
    let mut memory = Memory::new(64).unwrap();
    let mut set = set();
    let procedure = Value::Cons(memory.allocate(number(42), number(0)).unwrap());
    memory.push(number(9)).unwrap();
    let below = memory.stack();
    memory.push(procedure).unwrap();
    set.operate(&mut memory, SmallPrimitive::Close).unwrap();
    let closure = memory.pop().unwrap().to_cons().unwrap();
    assert_eq!(memory.car(closure), Ok(number(42)));
    let stack = memory.cdr(closure).unwrap();
    assert_eq!(stack.tag(), PROCEDURE_TAG);
    assert_eq!(stack.to_cons().unwrap().index, below.index);
}

#[test]
fn halting_and_failing_file_operations_are_errors() {
    let mut memory = Memory::new(64).unwrap();
    let mut set = set();
    assert_eq!(set.operate(&mut memory, SmallPrimitive::Halt), Err(PrimitiveError::Vm(Error::Halt)));
    assert_eq!(
        set.operate(&mut memory, SmallPrimitive::Car),
        Err(PrimitiveError::Vm(Error::StackUnderflow))
    );
    memory.push(number(0)).unwrap();
    assert_eq!(
        set.operate(&mut memory, SmallPrimitive::File(Primitive::CloseFile)),
        Err(PrimitiveError::File(lib::file::FileError::Close))
    );
}

#[test]
fn small_primitives_reach_the_string_primitives() {
    let mut memory = Memory::new(64).unwrap();
    let mut set = set();
    memory.push(number(2)).unwrap();
    memory.push(number(65)).unwrap();
    set.operate(&mut memory, SmallPrimitive::MakeString).unwrap();
    let string = memory.pop().unwrap().to_cons().unwrap();
    assert_eq!(memory.car(string), Ok(number(2)));
}
