use lib::bytevector::{bytevector_get, bytevector_info, bytevector_set};
use lib::copy::bytevector_copy;
use lib::decode::utf8_decode;
use lib::filled::{build_filled_vector_node, make_bytevector};
use lib::list_vector::{list_vector_cell, ListVectorCursor};
use lib::memory::Memory;
use lib::small::{utf8_encode, utf8_encoded_length};
use lib::string::copy_code_points;
use lib::value::{Cons, Error, Value};

fn number(value: i64) -> Value {
    Value::Number(value)
}

fn new_bytevector(memory: &mut Memory, length: usize, fill: u8) -> Value {
    memory.push(number(length as i64)).unwrap();
    memory.push(number(fill as i64)).unwrap();
    make_bytevector(memory).unwrap();
    memory.pop().unwrap()
}

fn list(memory: &mut Memory, values: &[i64]) -> Cons {
    let mut list = memory.null();
    for &value in values.iter().rev() {
        list = memory.cons(number(value), list).unwrap();
    }
    list
}

#[test]
fn a_fresh_heap_holds_the_constant_cells() {
    let memory = Memory::new(16).unwrap();
    assert_eq!(memory.stack(), memory.null());
    assert_ne!(memory.boolean(true), memory.boolean(false));
    assert_eq!(memory.car(memory.null()), Ok(number(0)));
    assert_eq!(Memory::new(5).err(), Some(Error::OutOfMemory));
}

#[test]
fn a_pop_gives_back_what_a_push_pushed() {
    let mut memory = Memory::new(16).unwrap();
    memory.push(number(1)).unwrap();
    memory.push(number(2)).unwrap();
    assert_eq!(memory.top(), Ok(number(2)));
    assert_eq!(memory.pop(), Ok(number(2)));
    assert_eq!(memory.pop(), Ok(number(1)));
    assert_eq!(memory.pop(), Err(Error::StackUnderflow));
    assert_eq!(memory.top(), Err(Error::StackUnderflow));
}

#[test]
fn pop_many_returns_the_deepest_value_first() {
    let mut memory = Memory::new(32).unwrap();
    for value in [1, 2, 3] {
        memory.push(number(value)).unwrap();
    }
    assert_eq!(memory.pop_many(2), Ok(vec![number(2), number(3)]));
    assert_eq!(memory.pop_many(2), Err(Error::StackUnderflow));
}

#[test]
fn a_full_heap_refuses_cells() {
    let mut memory = Memory::new(8).unwrap();
    memory.push(number(1)).unwrap();
    assert_eq!(memory.push(number(2)), Err(Error::OutOfMemory));
    assert_eq!(memory.allocate(number(1), number(2)), Err(Error::OutOfMemory));
    assert_eq!(memory.top(), Ok(number(1)));
}

#[test]
fn cells_outside_the_heap_are_refused() {
    let mut memory = Memory::new(16).unwrap();
    let outside = Cons { index: 100, tag: 0 };
    assert_eq!(memory.car(outside), Err(Error::InvalidMemoryAccess));
    assert_eq!(memory.set_cdr(outside, number(1)), Err(Error::InvalidMemoryAccess));
    assert_eq!(memory.tail(outside, 0), Ok(outside));
    assert_eq!(memory.tail(outside, 1), Err(Error::InvalidMemoryAccess));
}

#[test]
fn tail_follows_cdrs() {
    let mut memory = Memory::new(64).unwrap();
    let values = list(&mut memory, &[10, 20, 30]);
    let cell = memory.tail(values, 2).unwrap();
    assert_eq!(memory.car(cell), Ok(number(30)));
    assert_eq!(memory.tail(values, 3), Ok(memory.null()));
    assert_eq!(memory.tail(values, 4), Err(Error::ConsExpected));
}

#[test]
fn a_made_bytevector_holds_its_fill_everywhere() {
    let mut memory = Memory::new(4000).unwrap();
    let bytevector = new_bytevector(&mut memory, 130, 7);
    let (root, length) = bytevector_info(&memory, bytevector).unwrap();
    assert_eq!(length, 130);
    for index in 0..length {
        assert_eq!(bytevector_get(&memory, root, length, index), Ok(7));
    }
    assert_eq!(bytevector_get(&memory, root, length, 130), Err(Error::InvalidMemoryAccess));
}

#[test]
fn a_read_gives_back_what_a_write_wrote() {
    let mut memory = Memory::new(4000).unwrap();
    let bytevector = new_bytevector(&mut memory, 100, 0);
    let (root, length) = bytevector_info(&memory, bytevector).unwrap();
    bytevector_set(&mut memory, root, length, 64, 9).unwrap();
    assert_eq!(bytevector_get(&memory, root, length, 64), Ok(9));
    assert_eq!(bytevector_get(&memory, root, length, 63), Ok(0));
    assert_eq!(bytevector_get(&memory, root, length, 65), Ok(0));
}

#[test]
fn building_a_filled_node_takes_a_cell_per_element_and_child() {
    let mut memory = Memory::new(4000).unwrap();
    let before = memory.stack();
    let node = build_filled_vector_node(&mut memory, 0, 70, 1, 3).unwrap();
    assert_eq!(memory.top(), Ok(Value::Cons(node)));
    assert_eq!(memory.pop(), Ok(Value::Cons(node)));
    assert_eq!(memory.stack(), before);
    let first = memory.car(node).unwrap().to_cons().unwrap();
    let second = memory.car(memory.tail(node, 1).unwrap()).unwrap().to_cons().unwrap();
    assert_eq!(memory.tail(first, 63).map(|cell| memory.car(cell)), Ok(Ok(number(3))));
    assert_eq!(memory.tail(first, 64), Ok(memory.null()));
    assert_eq!(memory.tail(second, 6), Ok(memory.null()));
}

#[test]
fn list_vector_cells_descend_the_tree() {
    let mut memory = Memory::new(4000).unwrap();
    let bytevector = new_bytevector(&mut memory, 100, 0);
    let (root, length) = bytevector_info(&memory, bytevector).unwrap();
    let root = root.to_cons().unwrap();
    let first_leaf = memory.car(root).unwrap().to_cons().unwrap();
    let second_leaf = memory.car(memory.tail(root, 1).unwrap()).unwrap().to_cons().unwrap();
    assert_eq!(list_vector_cell::<64>(&memory, root, length, 0), Ok(first_leaf));
    assert_eq!(list_vector_cell::<64>(&memory, root, length, 63), memory.tail(first_leaf, 63));
    assert_eq!(list_vector_cell::<64>(&memory, root, length, 64), Ok(second_leaf));
    assert_eq!(list_vector_cell::<64>(&memory, root, length, 99), memory.tail(second_leaf, 35));
    assert_eq!(list_vector_cell::<64>(&memory, root, length, 100), Err(Error::InvalidMemoryAccess));
    assert_eq!(list_vector_cell::<1>(&memory, root, length, 0), Err(Error::InvalidMemoryAccess));
}

#[test]
fn a_cursor_yields_the_cells_of_consecutive_elements() {
    let mut memory = Memory::new(4000).unwrap();
    let bytevector = new_bytevector(&mut memory, 100, 0);
    let (root, length) = bytevector_info(&memory, bytevector).unwrap();
    let root = root.to_cons().unwrap();
    let mut cursor = ListVectorCursor::<64>::new(&memory, root, length, 60).unwrap();
    for index in 60..100 {
        assert_eq!(cursor.next(&memory), list_vector_cell::<64>(&memory, root, length, index));
    }
    assert_eq!(cursor.next(&memory), Err(Error::InvalidMemoryAccess));
}

#[test]
fn encoded_length_counts_the_utf8_bytes() {
    let mut memory = Memory::new(64).unwrap();
    let values = list(&mut memory, &[65, 233, 12354, 0x1f600]);
    memory.push(Value::Cons(values)).unwrap();
    utf8_encoded_length(&mut memory).unwrap();
    assert_eq!(memory.pop(), Ok(number(10)));

    let values = list(&mut memory, &[65, 0xd800]);
    memory.push(Value::Cons(values)).unwrap();
    assert_eq!(utf8_encoded_length(&mut memory), Err(Error::NumberExpected));

    memory.push(number(3)).unwrap();
    assert_eq!(utf8_encoded_length(&mut memory), Err(Error::ConsExpected));
}

#[test]
fn encoding_stops_before_a_code_point_that_does_not_fit() {
    let mut memory = Memory::new(4000).unwrap();
    let values = list(&mut memory, &[65, 12354, 66]);
    let bytevector = new_bytevector(&mut memory, 4, 0);
    memory.push(bytevector).unwrap();
    memory.push(Value::Cons(values)).unwrap();
    memory.push(bytevector).unwrap();
    memory.push(number(0)).unwrap();
    memory.push(number(4)).unwrap();
    utf8_encode(&mut memory).unwrap();
    let result = memory.pop().unwrap().to_cons().unwrap();
    let rest = memory.car(result).unwrap().to_cons().unwrap();
    assert_eq!(memory.car(rest), Ok(number(66)));
    assert_eq!(memory.cdr(result), Ok(number(4)));
    let (root, length) = bytevector_info(&memory, bytevector).unwrap();
    let bytes: Vec<u8> = (0..length).map(|index| bytevector_get(&memory, root, length, index).unwrap()).collect();
    assert_eq!(bytes, vec![65, 227, 129, 130]);
}

#[test]
fn encoding_rejects_a_range_beyond_the_bytevector() {
    let mut memory = Memory::new(4000).unwrap();
    let values = list(&mut memory, &[65]);
    let bytevector = new_bytevector(&mut memory, 2, 0);
    memory.push(Value::Cons(values)).unwrap();
    memory.push(bytevector).unwrap();
    memory.push(number(1)).unwrap();
    memory.push(number(3)).unwrap();
    assert_eq!(utf8_encode(&mut memory), Err(Error::InvalidMemoryAccess));
}

#[test]
fn lenient_decoding_of_a_bytevector_replaces_malformed_bytes() {
    let mut memory = Memory::new(4000).unwrap();
    let bytevector = new_bytevector(&mut memory, 2, 0x80);
    memory.push(bytevector).unwrap();
    memory.push(number(0)).unwrap();
    memory.push(number(2)).unwrap();
    memory.push(number(1)).unwrap();
    let true_value = Value::Cons(memory.boolean(true));
    let false_value = Value::Cons(memory.boolean(false));
    memory.push(true_value).unwrap();
    memory.push(false_value).unwrap();
    utf8_decode(&mut memory).unwrap();
    let result = memory.pop().unwrap().to_cons().unwrap();
    let endpoints = memory.car(result).unwrap().to_cons().unwrap();
    let counts = memory.cdr(result).unwrap().to_cons().unwrap();
    assert_eq!(memory.car(counts), Ok(number(1)));
    assert_eq!(memory.cdr(counts), Ok(number(1)));
    let head = memory.car(endpoints).unwrap().to_cons().unwrap();
    assert_eq!(memory.car(head), Ok(number(0xfffd)));
}

#[test]
fn decoding_rejects_a_start_after_the_end() {
    let mut memory = Memory::new(4000).unwrap();
    let bytevector = new_bytevector(&mut memory, 2, 65);
    memory.push(bytevector).unwrap();
    memory.push(number(2)).unwrap();
    memory.push(number(1)).unwrap();
    memory.push(number(1)).unwrap();
    let true_value = Value::Cons(memory.boolean(true));
    memory.push(true_value).unwrap();
    memory.push(true_value).unwrap();
    assert_eq!(utf8_decode(&mut memory), Err(Error::InvalidMemoryAccess));
}

#[test]
fn copying_a_byte_that_is_no_byte_fails() {
    let mut memory = Memory::new(4000).unwrap();
    let source = new_bytevector(&mut memory, 3, 1);
    let destination = new_bytevector(&mut memory, 3, 2);
    let (root, length) = bytevector_info(&memory, source).unwrap();
    let cell = list_vector_cell::<64>(&memory, root.to_cons().unwrap(), length, 1).unwrap();
    memory.set_car(cell, number(300)).unwrap();
    memory.push(destination).unwrap();
    memory.push(number(0)).unwrap();
    memory.push(source).unwrap();
    memory.push(number(0)).unwrap();
    memory.push(number(3)).unwrap();
    assert_eq!(bytevector_copy(&mut memory), Err(Error::NumberExpected));
}

#[test]
fn copying_needs_a_bytevector() {
    let mut memory = Memory::new(4000).unwrap();
    let destination = new_bytevector(&mut memory, 3, 2);
    let values = list(&mut memory, &[1, 2, 3]);
    memory.push(destination).unwrap();
    memory.push(number(0)).unwrap();
    memory.push(Value::Cons(values)).unwrap();
    memory.push(number(0)).unwrap();
    memory.push(number(3)).unwrap();
    assert_eq!(bytevector_copy(&mut memory), Err(Error::ConsExpected));
}

#[test]
fn copying_code_points_stops_at_the_end_of_the_source() {
    let mut memory = Memory::new(4000).unwrap();
    let values = list(&mut memory, &[65, 66]);
    memory.push(Value::Cons(values)).unwrap();
    memory.push(number(5)).unwrap();
    copy_code_points(&mut memory).unwrap();
    let result = memory.pop().unwrap().to_cons().unwrap();
    let string = memory.car(result).unwrap().to_cons().unwrap();
    assert_eq!(memory.car(string), Ok(number(2)));
    let metadata = memory.cdr(result).unwrap().to_cons().unwrap();
    assert_eq!(memory.cdr(metadata), Ok(Value::Cons(memory.null())));
}

#[test]
fn copying_no_code_points_gives_an_empty_string() {
    let mut memory = Memory::new(4000).unwrap();
    let values = list(&mut memory, &[65, 66]);
    memory.push(Value::Cons(values)).unwrap();
    memory.push(number(0)).unwrap();
    copy_code_points(&mut memory).unwrap();
    let result = memory.pop().unwrap().to_cons().unwrap();
    let string = memory.car(result).unwrap().to_cons().unwrap();
    assert_eq!(memory.car(string), Ok(number(0)));
    assert_eq!(memory.cdr(string).unwrap().to_cons().unwrap().index, memory.null().index);
    let metadata = memory.cdr(result).unwrap().to_cons().unwrap();
    assert_eq!(memory.car(metadata), Ok(Value::Cons(memory.null())));
    assert_eq!(memory.cdr(metadata).unwrap().to_cons().unwrap().index, values.index);
}

#[test]
fn copying_code_points_rejects_a_non_number() {
    let mut memory = Memory::new(4000).unwrap();
    let values = list(&mut memory, &[65]);
    memory.push(Value::Cons(values)).unwrap();
    let false_value = Value::Cons(memory.boolean(false));
    memory.push(false_value).unwrap();
    assert_eq!(copy_code_points(&mut memory), Err(Error::NumberExpected));
}
