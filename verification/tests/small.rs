use lib::bytevector::{bytevector_get, bytevector_info, bytevector_set, STRING_TAG, BYTEVECTOR_TAG};
use lib::file::{FileDescriptor, FileSystem, PrimitiveError};
use lib::memory::Memory;
use lib::primitive_set::{SmallPrimitive, SmallPrimitiveSet};
use lib::value::{Error, Value};

struct VoidFileSystem;

impl FileSystem for VoidFileSystem {
    type PathBuf = ();
    type Error = ();

    fn open(&mut self, _: &(), _: bool) -> Result<FileDescriptor, ()> {
        Err(())
    }

    fn close(&mut self, _: FileDescriptor) -> Result<(), ()> {
        Err(())
    }

    fn read(&mut self, _: FileDescriptor) -> Result<Option<u8>, ()> {
        Err(())
    }

    fn write(&mut self, _: FileDescriptor, _: u8) -> Result<(), ()> {
        Err(())
    }

    fn flush(&mut self, _: FileDescriptor) -> Result<(), ()> {
        Err(())
    }

    fn delete(&mut self, _: &()) -> Result<(), ()> {
        Err(())
    }

    fn file_exists(&self, _: &()) -> Result<bool, ()> {
        Err(())
    }

    fn decode_path(_: &Memory, _: Value) -> Result<(), ()> {
        Err(())
    }
}

fn operate(memory: &mut Memory, primitive: SmallPrimitive) -> Result<(), Error> {
    match SmallPrimitiveSet::new(VoidFileSystem).operate(memory, primitive) {
        Ok(()) => Ok(()),
        Err(PrimitiveError::Vm(error)) => Err(error),
        Err(PrimitiveError::File(error)) => panic!("file error {:?}", error),
    }
}

fn number(value: i64) -> Value {
    Value::Number(value)
}

fn make_bytevector(memory: &mut Memory, length: usize, fill: u8) -> Value {
    memory.push(number(length as i64)).unwrap();
    memory.push(number(fill as i64)).unwrap();
    operate(memory, SmallPrimitive::MakeBytevector).unwrap();
    memory.pop().unwrap()
}

fn stack_value(memory: &Memory, index: usize) -> Value {
    let cell = memory.tail(memory.stack(), index).unwrap();
    memory.car(cell).unwrap()
}

fn car_value(memory: &Memory, value: Value) -> Value {
    memory.car(value.to_cons().unwrap()).unwrap()
}

fn cdr_value(memory: &Memory, value: Value) -> Value {
    memory.cdr(value.to_cons().unwrap()).unwrap()
}

fn integer(value: Value) -> i64 {
    value.to_number().unwrap()
}

fn copy_bytevector(
    memory: &mut Memory,
    destination_index: usize,
    destination_offset: usize,
    source_index: usize,
    source_start: usize,
    source_end: usize,
) -> Result<(), Error> {
    let destination = stack_value(memory, destination_index);
    memory.push(destination).unwrap();
    memory.push(number(destination_offset as i64)).unwrap();
    let source = stack_value(memory, source_index + 2);
    memory.push(source).unwrap();
    memory.push(number(source_start as i64)).unwrap();
    memory.push(number(source_end as i64)).unwrap();

    operate(memory, SmallPrimitive::BytevectorCopy)?;
    memory.pop().unwrap();
    Ok(())
}

fn decode_bytevector(
    memory: &mut Memory,
    source_index: usize,
    start: usize,
    end: usize,
    maximum: usize,
    final_input: bool,
    strict: bool,
) -> Value {
    let source = stack_value(memory, source_index);
    memory.push(source).unwrap();
    memory.push(number(start as i64)).unwrap();
    memory.push(number(end as i64)).unwrap();
    memory.push(number(maximum as i64)).unwrap();
    let final_input = memory.boolean(final_input);
    memory.push(Value::Cons(final_input)).unwrap();
    let strict = memory.boolean(strict);
    memory.push(Value::Cons(strict)).unwrap();
    operate(memory, SmallPrimitive::Utf8Decode).unwrap();
    memory.pop().unwrap()
}

#[test]
fn bytevector_copy_crosses_vector_boundaries() {
    let mut memory = Memory::new(50000).unwrap();
    let source = make_bytevector(&mut memory, 4097, 0);
    memory.push(source).unwrap();
    let destination = make_bytevector(&mut memory, 4097, 255);
    memory.push(destination).unwrap();
    let source = stack_value(&memory, 1);

    let source_root = bytevector_info(&memory, source).unwrap().0;
    for (index, byte) in [(0, 11), (63, 22), (64, 33), (4095, 44), (4096, 55)] {
        bytevector_set(&mut memory, source_root, 4097, index, byte).unwrap();
    }

    copy_bytevector(&mut memory, 0, 0, 1, 0, 4097).unwrap();
    let destination = stack_value(&memory, 0);
    let (destination_root, destination_length) = bytevector_info(&memory, destination).unwrap();
    for (index, expected) in [(0, 11), (63, 22), (64, 33), (4095, 44), (4096, 55)] {
        assert_eq!(
            bytevector_get(&memory, destination_root, destination_length, index).unwrap(),
            expected
        );
    }
    for index in 0..destination_length {
        if !matches!(index, 0 | 63 | 64 | 4095 | 4096) {
            assert_eq!(
                bytevector_get(&memory, destination_root, destination_length, index).unwrap(),
                0
            );
        }
    }
}

#[test]
fn bytevector_copy_handles_overlap_in_both_directions() {
    let mut memory = Memory::new(50000).unwrap();
    let bytevector = make_bytevector(&mut memory, 4, 0);
    memory.push(bytevector).unwrap();
    let bytevector = stack_value(&memory, 0);
    let root = bytevector_info(&memory, bytevector).unwrap().0;

    for (index, byte) in [(0, 0), (1, 1), (2, 2), (3, 3)] {
        bytevector_set(&mut memory, root, 4, index, byte).unwrap();
    }
    copy_bytevector(&mut memory, 0, 1, 0, 0, 3).unwrap();
    let bytevector = stack_value(&memory, 0);
    let root = bytevector_info(&memory, bytevector).unwrap().0;
    assert_eq!(bytevector_get(&memory, root, 4, 0).unwrap(), 0);
    assert_eq!(bytevector_get(&memory, root, 4, 1).unwrap(), 0);
    assert_eq!(bytevector_get(&memory, root, 4, 2).unwrap(), 1);
    assert_eq!(bytevector_get(&memory, root, 4, 3).unwrap(), 2);

    let root = bytevector_info(&memory, bytevector).unwrap().0;
    for (index, byte) in [(0, 0), (1, 1), (2, 2), (3, 3)] {
        bytevector_set(&mut memory, root, 4, index, byte).unwrap();
    }
    copy_bytevector(&mut memory, 0, 0, 0, 1, 4).unwrap();
    let bytevector = stack_value(&memory, 0);
    let root = bytevector_info(&memory, bytevector).unwrap().0;
    assert_eq!(bytevector_get(&memory, root, 4, 0).unwrap(), 1);
    assert_eq!(bytevector_get(&memory, root, 4, 1).unwrap(), 2);
    assert_eq!(bytevector_get(&memory, root, 4, 2).unwrap(), 3);
    assert_eq!(bytevector_get(&memory, root, 4, 3).unwrap(), 3);
}

#[test]
fn bytevector_copy_rejects_invalid_ranges() {
    for (destination_offset, source_start, source_end) in [(0, 2, 1), (0, 0, 4), (3, 0, 2)] {
        let mut memory = Memory::new(50000).unwrap();
        let source = make_bytevector(&mut memory, 3, 65);
        memory.push(source).unwrap();
        let destination = make_bytevector(&mut memory, 4, 0);
        memory.push(destination).unwrap();

        assert_eq!(
            copy_bytevector(
                &mut memory,
                0,
                destination_offset,
                1,
                source_start,
                source_end,
            ),
            Err(Error::InvalidMemoryAccess)
        );
    }
}

#[test]
fn bytevector_copy_accepts_empty_ranges_and_empty_bytevectors() {
    let mut memory = Memory::new(50000).unwrap();
    let source = make_bytevector(&mut memory, 0, 0);
    memory.push(source).unwrap();
    let destination = make_bytevector(&mut memory, 0, 0);
    memory.push(destination).unwrap();

    copy_bytevector(&mut memory, 0, 0, 1, 0, 0).unwrap();
    let destination = stack_value(&memory, 0);
    assert_eq!(bytevector_info(&memory, destination).unwrap().1, 0);
}

#[test]
fn utf8_codec_handles_multibyte_sequences() {
    let mut memory = Memory::new(50000).unwrap();
    let mut code_points = memory.null();
    for code_point in [65, 233, 12354].into_iter().rev() {
        code_points = memory.cons(number(code_point), code_points).unwrap();
    }
    memory.push(Value::Cons(code_points)).unwrap();

    let destination = make_bytevector(&mut memory, 6, 0);
    memory.push(destination).unwrap();
    let code_points = stack_value(&memory, 1);
    memory.push(code_points).unwrap();
    let destination = stack_value(&memory, 1);
    memory.push(destination).unwrap();
    memory.push(number(0)).unwrap();
    memory.push(number(6)).unwrap();
    operate(&mut memory, SmallPrimitive::Utf8Encode).unwrap();

    let result = memory.pop().unwrap();
    assert_eq!(car_value(&memory, result), Value::Cons(memory.null()));
    assert_eq!(integer(cdr_value(&memory, result)), 6);
    let destination = stack_value(&memory, 0);
    let (root, length) = bytevector_info(&memory, destination).unwrap();
    for (index, expected) in [65, 195, 169, 227, 129, 130].into_iter().enumerate() {
        assert_eq!(bytevector_get(&memory, root, length, index).unwrap(), expected);
    }

    let source = stack_value(&memory, 0);
    memory.push(source).unwrap();
    memory.push(number(0)).unwrap();
    memory.push(number(6)).unwrap();
    memory.push(number(64)).unwrap();
    let true_value = memory.boolean(true);
    memory.push(Value::Cons(true_value)).unwrap();
    let true_value = memory.boolean(true);
    memory.push(Value::Cons(true_value)).unwrap();
    operate(&mut memory, SmallPrimitive::Utf8Decode).unwrap();

    let result = memory.pop().unwrap();
    let endpoints = car_value(&memory, result);
    let counts = cdr_value(&memory, result);
    assert_eq!(integer(cdr_value(&memory, counts)), 6);
    assert_eq!(integer(car_value(&memory, counts)), 3);
    let tail = cdr_value(&memory, endpoints).to_cons().unwrap();
    assert_eq!(integer(memory.car(tail).unwrap()), 12354);
    assert_eq!(memory.cdr(tail).unwrap(), Value::Cons(memory.null()));
    let mut list = car_value(&memory, endpoints).to_cons().unwrap();
    for expected in [65, 233, 12354] {
        assert_eq!(integer(memory.car(list).unwrap()), expected);
        list = memory.cdr(list).unwrap().to_cons().unwrap();
    }
    assert_eq!(list, memory.null());
}

#[test]
fn utf8_decoder_rejects_malformed_sequences_without_panicking() {
    for bytes in [
        &[192, 128][..],
        &[128],
        &[226, 128],
        &[237, 160, 128],
        &[244, 144, 128, 128],
        &[245, 128, 128, 128],
    ] {
        let mut memory = Memory::new(50000).unwrap();
        let source = make_bytevector(&mut memory, bytes.len(), 0);
        memory.push(source).unwrap();
        let source = stack_value(&memory, 0);
        let (root, length) = bytevector_info(&memory, source).unwrap();
        for (index, &byte) in bytes.iter().enumerate() {
            bytevector_set(&mut memory, root, length, index, byte).unwrap();
        }

        let result = decode_bytevector(&mut memory, 0, 0, bytes.len(), 64, true, true);
        assert_eq!(result, Value::Cons(memory.boolean(false)));
    }
}

#[test]
fn utf8_decoder_defers_an_incomplete_nonfinal_sequence() {
    let mut memory = Memory::new(50000).unwrap();
    let source = make_bytevector(&mut memory, 3, 0);
    memory.push(source).unwrap();
    let source = stack_value(&memory, 0);
    let (root, length) = bytevector_info(&memory, source).unwrap();
    for (index, byte) in [227, 129, 130].into_iter().enumerate() {
        bytevector_set(&mut memory, root, length, index, byte).unwrap();
    }

    let result = decode_bytevector(&mut memory, 0, 0, 2, 64, false, true);
    let endpoints = car_value(&memory, result);
    let counts = cdr_value(&memory, result);
    assert_eq!(car_value(&memory, endpoints), Value::Cons(memory.null()));
    assert_eq!(integer(cdr_value(&memory, counts)), 0);

    let result = decode_bytevector(&mut memory, 0, 0, 3, 64, true, true);
    let endpoints = car_value(&memory, result);
    let counts = cdr_value(&memory, result);
    assert_eq!(integer(cdr_value(&memory, counts)), 3);
    let code_points = car_value(&memory, endpoints).to_cons().unwrap();
    assert_eq!(integer(memory.car(code_points).unwrap()), 12354);
    assert_eq!(memory.cdr(code_points).unwrap(), Value::Cons(memory.null()));
}

#[test]
fn copy_code_points_returns_an_independent_prefix_and_remainder() {
    let mut memory = Memory::new(50000).unwrap();
    let mut source = memory.null();
    for code_point in [65, 66, 67].into_iter().rev() {
        source = memory.cons(number(code_point), source).unwrap();
    }
    memory.push(Value::Cons(source)).unwrap();

    let source = stack_value(&memory, 0);
    memory.push(source).unwrap();
    memory.push(number(2)).unwrap();
    operate(&mut memory, SmallPrimitive::CopyCodePoints).unwrap();

    let result = memory.pop().unwrap();
    let string = car_value(&memory, result);
    assert_eq!(integer(car_value(&memory, string)), 2);
    assert_eq!(cdr_value(&memory, string).tag(), STRING_TAG);

    let metadata = cdr_value(&memory, result);
    let tail = car_value(&memory, metadata).to_cons().unwrap();
    let remainder = cdr_value(&memory, metadata).to_cons().unwrap();
    let copied = cdr_value(&memory, string).to_cons().unwrap();
    assert_eq!(integer(memory.car(copied).unwrap()), 65);
    assert_eq!(integer(memory.car(tail).unwrap()), 66);
    assert_eq!(integer(memory.car(remainder).unwrap()), 67);

    memory.set_car(copied, number(90)).unwrap();
    let source = stack_value(&memory, 0).to_cons().unwrap();
    assert_eq!(integer(memory.car(source).unwrap()), 65);
}

#[test]
fn make_string_preserves_the_list_backed_representation() {
    let mut memory = Memory::new(64).unwrap();
    memory.push(number(3)).unwrap();
    memory.push(number(233)).unwrap();

    operate(&mut memory, SmallPrimitive::MakeString).unwrap();

    let string = memory.pop().unwrap();
    assert_eq!(integer(car_value(&memory, string)), 3);
    assert_eq!(cdr_value(&memory, string).tag(), STRING_TAG);

    let mut code_points = cdr_value(&memory, string).to_cons().unwrap();
    for _ in 0..3 {
        assert_eq!(integer(memory.car(code_points).unwrap()), 233);
        code_points = memory.cdr(code_points).unwrap().to_cons().unwrap();
    }
    assert_eq!(code_points, memory.null());
}

#[test]
fn make_string_rejects_an_invalid_code_point() {
    let mut memory = Memory::new(64).unwrap();
    memory.push(number(1)).unwrap();
    memory.push(number(0x110000)).unwrap();

    assert_eq!(operate(&mut memory, SmallPrimitive::MakeString), Err(Error::NumberExpected));
}

#[test]
fn make_bytevector_relocates_the_filled_root() {
    let mut memory = Memory::new(24).unwrap();
    memory.push(number(1)).unwrap();
    memory.push(number(37)).unwrap();

    operate(&mut memory, SmallPrimitive::MakeBytevector).unwrap();

    let bytevector = memory.pop().unwrap();
    assert_eq!(integer(car_value(&memory, bytevector)), 1);
    assert_eq!(cdr_value(&memory, bytevector).tag(), BYTEVECTOR_TAG);
}

#[test]
fn make_bytevector_rejects_nonnumeric_length() {
    let mut memory = Memory::new(64).unwrap();
    let false_value = memory.boolean(false);
    memory.push(Value::Cons(false_value)).unwrap();
    memory.push(number(0)).unwrap();

    assert_eq!(operate(&mut memory, SmallPrimitive::MakeBytevector), Err(Error::NumberExpected));
}

#[test]
fn make_bytevector_rejects_nonnumeric_fill() {
    let mut memory = Memory::new(64).unwrap();
    let false_value = memory.boolean(false);
    memory.push(Value::Cons(false_value)).unwrap();
    memory.push(number(1)).unwrap();
    let false_value = memory.boolean(false);
    memory.push(Value::Cons(false_value)).unwrap();

    assert_eq!(operate(&mut memory, SmallPrimitive::MakeBytevector), Err(Error::NumberExpected));
}

#[test]
fn utf8_encode_stops_on_a_cyclic_list_when_the_range_is_full() {
    let mut memory = Memory::new(2000).unwrap();
    let bytevector = make_bytevector(&mut memory, 3, 0);
    memory.push(bytevector).unwrap();
    let null = memory.null();
    let cell = memory.cons(number(65), null).unwrap();
    memory.set_cdr(cell, Value::Cons(cell)).unwrap();
    memory.push(Value::Cons(cell)).unwrap();
    memory.push(bytevector).unwrap();
    memory.push(number(0)).unwrap();
    memory.push(number(3)).unwrap();
    operate(&mut memory, SmallPrimitive::Utf8Encode).unwrap();
    let result = memory.pop().unwrap();
    assert_eq!(integer(cdr_value(&memory, result)), 3);
    let (root, length) = bytevector_info(&memory, bytevector).unwrap();
    for index in 0..3 {
        assert_eq!(bytevector_get(&memory, root, length, index).unwrap(), 65);
    }
}

#[test]
fn a_bytevector_of_one_byte_has_the_list_of_that_byte_as_its_root() {
    let mut memory = Memory::new(24).unwrap();
    let bytevector = make_bytevector(&mut memory, 1, 37);
    let root = cdr_value(&memory, bytevector);
    assert_eq!(root.tag(), BYTEVECTOR_TAG);
    assert_eq!(integer(car_value(&memory, root)), 37);
    assert_eq!(cdr_value(&memory, root).to_cons().unwrap().index, memory.null().index);
}
