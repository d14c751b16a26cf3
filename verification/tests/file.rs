use lib::bytevector::{bytevector_get, bytevector_info};
use lib::file::{
    chunk_bytes, decode_path_bytes, finish_done, finish_exists, finish_open, finish_read, FileDescriptor, FileError,
    FilePrimitiveSet, FileSystem, Primitive, PrimitiveError,
};
use lib::filled::make_bytevector;
use lib::memory::Memory;
use lib::value::{Error, Value};
use std::cell::RefCell;
use std::collections::HashMap;
use std::rc::Rc;

#[derive(Debug)]
struct TestError;

#[derive(Default)]
struct TestFileSystem {
    files: HashMap<Vec<i64>, Vec<u8>>,
    open: HashMap<FileDescriptor, (Vec<i64>, usize, bool)>,
    next: FileDescriptor,
}

impl FileSystem for TestFileSystem {
    type PathBuf = Vec<i64>;
    type Error = TestError;

    fn open(&mut self, path: &Vec<i64>, output: bool) -> Result<FileDescriptor, TestError> {
        if output {
            self.files.insert(path.clone(), Vec::new());
        } else if !self.files.contains_key(path) {
            return Err(TestError);
        }
        let descriptor = self.next;
        self.next += 1;
        self.open.insert(descriptor, (path.clone(), 0, output));
        Ok(descriptor)
    }

    fn close(&mut self, descriptor: FileDescriptor) -> Result<(), TestError> {
        self.open.remove(&descriptor).map(|_| ()).ok_or(TestError)
    }

    fn read(&mut self, descriptor: FileDescriptor) -> Result<Option<u8>, TestError> {
        let (path, position, output) = self.open.get_mut(&descriptor).ok_or(TestError)?;
        if *output {
            return Err(TestError);
        }
        let byte = self.files[path].get(*position).copied();
        if byte.is_some() {
            *position += 1;
        }
        Ok(byte)
    }

    fn write(&mut self, descriptor: FileDescriptor, byte: u8) -> Result<(), TestError> {
        let (path, _, output) = self.open.get(&descriptor).ok_or(TestError)?;
        if !*output {
            return Err(TestError);
        }
        self.files.get_mut(path).unwrap().push(byte);
        Ok(())
    }

    fn flush(&mut self, descriptor: FileDescriptor) -> Result<(), TestError> {
        self.open.get(&descriptor).map(|_| ()).ok_or(TestError)
    }

    fn delete(&mut self, path: &Vec<i64>) -> Result<(), TestError> {
        self.files.remove(path).map(|_| ()).ok_or(TestError)
    }

    fn file_exists(&self, path: &Vec<i64>) -> Result<bool, TestError> {
        Ok(self.files.contains_key(path))
    }

    fn decode_path(memory: &Memory, list: Value) -> Result<Vec<i64>, TestError> {
        let mut path = Vec::new();
        let mut cell = list.to_cons().ok_or(TestError)?;
        while cell != memory.null() {
            path.push(memory.car(cell).map_err(|_| TestError)?.to_number().ok_or(TestError)?);
            cell = memory.next(cell).map_err(|_| TestError)?;
        }
        Ok(path)
    }
}

fn number(value: i64) -> Value {
    Value::Number(value)
}

fn path(memory: &mut Memory, name: &[i64]) -> Value {
    let mut list = memory.null();
    for &code_point in name.iter().rev() {
        list = memory.cons(number(code_point), list).unwrap();
    }
    Value::Cons(list)
}

fn operate(
    set: &mut FilePrimitiveSet<TestFileSystem>,
    memory: &mut Memory,
    primitive: Primitive,
) -> Result<(), PrimitiveError> {
    let number = match primitive {
        Primitive::OpenFile => 0,
        Primitive::CloseFile => 1,
        Primitive::ReadFile => 2,
        Primitive::WriteFile => 3,
        Primitive::DeleteFile => 4,
        Primitive::ExistsFile => 5,
        Primitive::FlushFile => 6,
        Primitive::ReadFileBulk => 7,
        Primitive::WriteFileBulk => 8,
    };
    assert_eq!(Primitive::from_number(number), Some(primitive));
    set.operate(memory, number)
}

fn open(set: &mut FilePrimitiveSet<TestFileSystem>, memory: &mut Memory, name: &[i64], output: bool) -> Value {
    let name = path(memory, name);
    memory.push(name).unwrap();
    let output = Value::Cons(memory.boolean(output));
    memory.push(output).unwrap();
    operate(set, memory, Primitive::OpenFile).unwrap();
    memory.pop().unwrap()
}

#[test]
fn written_bytes_read_back() {
    let mut memory = Memory::new(2000).unwrap();
    let mut set = FilePrimitiveSet::new(TestFileSystem::default());
    let output = open(&mut set, &mut memory, &[102, 111, 111], true);
    for byte in [42, 43] {
        memory.push(output).unwrap();
        memory.push(number(byte)).unwrap();
        operate(&mut set, &mut memory, Primitive::WriteFile).unwrap();
        assert_eq!(memory.pop(), Ok(Value::Cons(memory.boolean(false))));
    }
    memory.push(output).unwrap();
    operate(&mut set, &mut memory, Primitive::FlushFile).unwrap();
    memory.pop().unwrap();
    memory.push(output).unwrap();
    operate(&mut set, &mut memory, Primitive::CloseFile).unwrap();
    memory.pop().unwrap();

    let input = open(&mut set, &mut memory, &[102, 111, 111], false);
    for expected in [number(42), number(43), Value::Cons(memory.boolean(false))] {
        memory.push(input).unwrap();
        operate(&mut set, &mut memory, Primitive::ReadFile).unwrap();
        assert_eq!(memory.pop(), Ok(expected));
    }
}

#[test]
fn a_file_exists_until_deleted() {
    let mut memory = Memory::new(2000).unwrap();
    let mut set = FilePrimitiveSet::new(TestFileSystem::default());
    open(&mut set, &mut memory, &[120], true);
    let name = path(&mut memory, &[120]);
    memory.push(name).unwrap();
    operate(&mut set, &mut memory, Primitive::ExistsFile).unwrap();
    assert_eq!(memory.pop(), Ok(Value::Cons(memory.boolean(true))));
    memory.push(name).unwrap();
    operate(&mut set, &mut memory, Primitive::DeleteFile).unwrap();
    memory.pop().unwrap();
    memory.push(name).unwrap();
    operate(&mut set, &mut memory, Primitive::ExistsFile).unwrap();
    assert_eq!(memory.pop(), Ok(Value::Cons(memory.boolean(false))));
    memory.push(name).unwrap();
    assert_eq!(
        operate(&mut set, &mut memory, Primitive::DeleteFile),
        Err(PrimitiveError::File(FileError::Delete))
    );
}

#[test]
fn file_errors_name_the_operation() {
    let mut memory = Memory::new(2000).unwrap();
    let mut set = FilePrimitiveSet::new(TestFileSystem::default());
    let name = path(&mut memory, &[121]);
    memory.push(name).unwrap();
    let false_value = Value::Cons(memory.boolean(false));
    memory.push(false_value).unwrap();
    assert_eq!(
        operate(&mut set, &mut memory, Primitive::OpenFile),
        Err(PrimitiveError::File(FileError::Open))
    );
    memory.push(number(7)).unwrap();
    assert_eq!(
        operate(&mut set, &mut memory, Primitive::CloseFile),
        Err(PrimitiveError::File(FileError::Close))
    );
    memory.push(number(7)).unwrap();
    assert_eq!(
        operate(&mut set, &mut memory, Primitive::ReadFile),
        Err(PrimitiveError::File(FileError::Read))
    );
    memory.push(number(7)).unwrap();
    memory.push(number(1)).unwrap();
    assert_eq!(
        operate(&mut set, &mut memory, Primitive::WriteFile),
        Err(PrimitiveError::File(FileError::Write))
    );
    memory.push(number(7)).unwrap();
    assert_eq!(
        operate(&mut set, &mut memory, Primitive::FlushFile),
        Err(PrimitiveError::File(FileError::Flush))
    );
    memory.push(number(7)).unwrap();
    assert_eq!(
        operate(&mut set, &mut memory, Primitive::ExistsFile),
        Err(PrimitiveError::File(FileError::PathDecode))
    );
}

#[test]
fn file_primitives_check_their_arguments() {
    let mut memory = Memory::new(2000).unwrap();
    let mut set = FilePrimitiveSet::new(TestFileSystem::default());
    assert_eq!(set.operate(&mut memory, 9), Err(PrimitiveError::Vm(Error::IllegalPrimitive)));
    assert_eq!(Primitive::from_number(9), None);
    assert_eq!(
        operate(&mut set, &mut memory, Primitive::CloseFile),
        Err(PrimitiveError::Vm(Error::StackUnderflow))
    );
    let false_value = Value::Cons(memory.boolean(false));
    memory.push(false_value).unwrap();
    assert_eq!(
        operate(&mut set, &mut memory, Primitive::ReadFile),
        Err(PrimitiveError::Vm(Error::NumberExpected))
    );
}

fn new_bytevector(memory: &mut Memory, length: usize, fill: u8) -> Value {
    memory.push(number(length as i64)).unwrap();
    memory.push(number(fill as i64)).unwrap();
    make_bytevector(memory).unwrap();
    memory.pop().unwrap()
}

#[test]
fn bulk_transfers_move_ranges_of_bytevectors() {
    let mut memory = Memory::new(8000).unwrap();
    let mut set = FilePrimitiveSet::new(TestFileSystem::default());
    let source = new_bytevector(&mut memory, 150, 5);
    memory.push(source).unwrap();
    let output = open(&mut set, &mut memory, &[98], true);
    memory.push(output).unwrap();
    memory.push(source).unwrap();
    memory.push(number(10)).unwrap();
    memory.push(number(140)).unwrap();
    operate(&mut set, &mut memory, Primitive::WriteFileBulk).unwrap();
    assert_eq!(memory.pop(), Ok(Value::Cons(memory.boolean(false))));

    let destination = new_bytevector(&mut memory, 200, 0);
    memory.push(destination).unwrap();
    let input = open(&mut set, &mut memory, &[98], false);
    memory.push(input).unwrap();
    memory.push(destination).unwrap();
    memory.push(number(50)).unwrap();
    memory.push(number(200)).unwrap();
    operate(&mut set, &mut memory, Primitive::ReadFileBulk).unwrap();
    assert_eq!(memory.pop(), Ok(number(130)));

    let (root, length) = bytevector_info(&memory, destination).unwrap();
    for index in 0..length {
        let expected = if (50..180).contains(&index) { 5 } else { 0 };
        assert_eq!(bytevector_get(&memory, root, length, index), Ok(expected));
    }
}

#[test]
fn bulk_transfers_reject_ranges_beyond_the_bytevector() {
    let mut memory = Memory::new(8000).unwrap();
    let mut set = FilePrimitiveSet::new(TestFileSystem::default());
    let bytevector = new_bytevector(&mut memory, 4, 0);
    memory.push(number(0)).unwrap();
    memory.push(bytevector).unwrap();
    memory.push(number(3)).unwrap();
    memory.push(number(5)).unwrap();
    assert_eq!(
        operate(&mut set, &mut memory, Primitive::ReadFileBulk),
        Err(PrimitiveError::Vm(Error::InvalidMemoryAccess))
    );
}

#[test]
fn default_bulk_reads_stop_at_the_end_of_a_file() {
    let mut file_system = TestFileSystem::default();
    file_system.files.insert(vec![1], vec![7, 8, 9]);
    let descriptor = file_system.open(&vec![1], false).unwrap();
    let mut buffer = [0u8; 5];
    assert_eq!(file_system.read_into(descriptor, &mut buffer).unwrap(), 3);
    assert_eq!(buffer, [7, 8, 9, 0, 0]);
    assert_eq!(file_system.read_into(descriptor, &mut buffer).unwrap(), 0);
}

#[test]
fn a_bulk_read_stores_the_bytes_read_at_the_start_of_the_range() {
    let mut memory = Memory::new(2000).unwrap();
    let mut set = FilePrimitiveSet::new(TestFileSystem::default());
    let output = open(&mut set, &mut memory, &[112], true);
    memory.push(output).unwrap();
    memory.push(number(42)).unwrap();
    operate(&mut set, &mut memory, Primitive::WriteFile).unwrap();
    memory.pop().unwrap();
    let input = open(&mut set, &mut memory, &[112], false);
    let bytevector = new_bytevector(&mut memory, 4, 0);
    memory.push(bytevector).unwrap();
    memory.push(input).unwrap();
    memory.push(bytevector).unwrap();
    memory.push(number(2)).unwrap();
    memory.push(number(4)).unwrap();
    operate(&mut set, &mut memory, Primitive::ReadFileBulk).unwrap();
    assert_eq!(memory.pop(), Ok(number(1)));
    let (root, length) = bytevector_info(&memory, bytevector).unwrap();
    let bytes: Vec<u8> = (0..length)
        .map(|index| bytevector_get(&memory, root, length, index).unwrap())
        .collect();
    assert_eq!(bytes, vec![0, 0, 42, 0]);
}

#[test]
fn empty_bulk_transfers_do_not_call_the_file_system() {
    let mut memory = Memory::new(2000).unwrap();
    let mut set = FilePrimitiveSet::new(TestFileSystem::default());
    let bytevector = new_bytevector(&mut memory, 4, 7);
    memory.push(bytevector).unwrap();
    for (primitive, expected) in [
        (Primitive::ReadFileBulk, number(0)),
        (Primitive::WriteFileBulk, Value::Cons(memory.boolean(false))),
    ] {
        memory.push(number(99)).unwrap();
        memory.push(bytevector).unwrap();
        memory.push(number(3)).unwrap();
        memory.push(number(3)).unwrap();
        operate(&mut set, &mut memory, primitive).unwrap();
        assert_eq!(memory.pop(), Ok(expected));
    }
}

#[test]
fn finishing_a_file_operation_pushes_what_it_returned() {
    let mut memory = Memory::new(200).unwrap();
    finish_open(&mut memory, Ok::<FileDescriptor, TestError>(3)).unwrap();
    assert_eq!(memory.pop(), Ok(number(3)));
    assert_eq!(
        finish_open(&mut memory, Err::<FileDescriptor, TestError>(TestError)),
        Err(PrimitiveError::File(FileError::Open))
    );
    finish_read(&mut memory, Ok::<Option<u8>, TestError>(Some(42))).unwrap();
    assert_eq!(memory.pop(), Ok(number(42)));
    finish_read(&mut memory, Ok::<Option<u8>, TestError>(None)).unwrap();
    assert_eq!(memory.pop(), Ok(Value::Cons(memory.boolean(false))));
    assert_eq!(
        finish_read(&mut memory, Err::<Option<u8>, TestError>(TestError)),
        Err(PrimitiveError::File(FileError::Read))
    );
    finish_exists(&mut memory, Ok::<bool, TestError>(true)).unwrap();
    assert_eq!(memory.pop(), Ok(Value::Cons(memory.boolean(true))));
    finish_done(&mut memory, Ok::<(), TestError>(()), FileError::Close).unwrap();
    assert_eq!(memory.pop(), Ok(Value::Cons(memory.boolean(false))));
    assert_eq!(
        finish_done(&mut memory, Err::<(), TestError>(TestError), FileError::Flush),
        Err(PrimitiveError::File(FileError::Flush))
    );
}

#[test]
fn chunks_hold_the_bytes_of_their_range() {
    let mut memory = Memory::new(2000).unwrap();
    let bytevector = new_bytevector(&mut memory, 100, 9);
    let (root, length) = bytevector_info(&memory, bytevector).unwrap();
    let root_cons = root.to_cons().unwrap();
    lib::bytevector::bytevector_set(&mut memory, root, length, 70, 1).unwrap();
    let chunk = chunk_bytes(&memory, root_cons, length, 64, 10).unwrap();
    let mut expected = vec![9u8; 10];
    expected[6] = 1;
    assert_eq!(chunk, expected);
    assert_eq!(
        chunk_bytes(&memory, root_cons, length, 95, 10),
        Err(Error::InvalidMemoryAccess)
    );
}

#[test]
fn path_lists_decode_to_utf8_bytes() {
    let mut memory = Memory::new(2000).unwrap();
    let name = path(&mut memory, &[102, 111, 111]);
    assert_eq!(decode_path_bytes(&memory, name), Some(vec![102, 111, 111]));
    let name = path(&mut memory, &[233, 12354]);
    assert_eq!(decode_path_bytes(&memory, name), Some(vec![195, 169, 227, 129, 130]));
    let name = path(&mut memory, &[0xd800]);
    assert_eq!(decode_path_bytes(&memory, name), None);
    assert_eq!(decode_path_bytes(&memory, number(3)), None);
    let long = vec![97; 257];
    let name = path(&mut memory, &long);
    assert_eq!(decode_path_bytes(&memory, name), None);
    let null = memory.null();
    let cell = memory.cons(number(97), null).unwrap();
    memory.set_cdr(cell, Value::Cons(cell)).unwrap();
    assert_eq!(decode_path_bytes(&memory, Value::Cons(cell)), None);
}

#[derive(Default)]
struct RecordingFileSystem {
    calls: Rc<RefCell<Vec<String>>>,
    written: Rc<RefCell<Vec<Vec<u8>>>>,
}

impl FileSystem for RecordingFileSystem {
    type PathBuf = Vec<i64>;
    type Error = TestError;

    fn open(&mut self, path: &Vec<i64>, output: bool) -> Result<FileDescriptor, TestError> {
        self.calls.borrow_mut().push(format!("open {:?} {}", path, output));
        Ok(5)
    }

    fn close(&mut self, descriptor: FileDescriptor) -> Result<(), TestError> {
        self.calls.borrow_mut().push(format!("close {}", descriptor));
        Ok(())
    }

    fn read(&mut self, descriptor: FileDescriptor) -> Result<Option<u8>, TestError> {
        self.calls.borrow_mut().push(format!("read {}", descriptor));
        Ok(None)
    }

    fn write(&mut self, descriptor: FileDescriptor, byte: u8) -> Result<(), TestError> {
        self.calls.borrow_mut().push(format!("write {} {}", descriptor, byte));
        Ok(())
    }

    fn read_into(&mut self, descriptor: FileDescriptor, destination: &mut [u8]) -> Result<usize, TestError> {
        self.calls.borrow_mut().push(format!("read_into {} {}", descriptor, destination.len()));
        for byte in destination.iter_mut() {
            *byte = 7;
        }
        Ok(destination.len())
    }

    fn write_from(&mut self, descriptor: FileDescriptor, source: &[u8]) -> Result<(), TestError> {
        self.calls.borrow_mut().push(format!("write_from {} {}", descriptor, source.len()));
        self.written.borrow_mut().push(source.to_vec());
        Ok(())
    }

    fn flush(&mut self, descriptor: FileDescriptor) -> Result<(), TestError> {
        self.calls.borrow_mut().push(format!("flush {}", descriptor));
        Ok(())
    }

    fn delete(&mut self, path: &Vec<i64>) -> Result<(), TestError> {
        self.calls.borrow_mut().push(format!("delete {:?}", path));
        Ok(())
    }

    fn file_exists(&self, _: &Vec<i64>) -> Result<bool, TestError> {
        Ok(true)
    }

    fn decode_path(memory: &Memory, list: Value) -> Result<Vec<i64>, TestError> {
        TestFileSystem::decode_path(memory, list)
    }
}

fn recording_operate(
    set: &mut FilePrimitiveSet<RecordingFileSystem>,
    memory: &mut Memory,
    number: usize,
) -> Result<(), PrimitiveError> {
    set.operate(memory, number)
}

#[test]
fn file_primitives_hand_their_arguments_to_the_file_system() {
    let mut memory = Memory::new(4000).unwrap();
    let files = RecordingFileSystem::default();
    let calls = files.calls.clone();
    let written = files.written.clone();
    let mut set = FilePrimitiveSet::new(files);
    let name = path(&mut memory, &[97]);
    memory.push(name).unwrap();
    memory.push(number(0)).unwrap();
    recording_operate(&mut set, &mut memory, 0).unwrap();
    assert_eq!(memory.pop(), Ok(number(5)));
    memory.push(number(3)).unwrap();
    recording_operate(&mut set, &mut memory, 1).unwrap();
    memory.pop().unwrap();
    memory.push(number(4)).unwrap();
    memory.push(number(200)).unwrap();
    recording_operate(&mut set, &mut memory, 3).unwrap();
    memory.pop().unwrap();
    memory.push(number(6)).unwrap();
    recording_operate(&mut set, &mut memory, 6).unwrap();
    memory.pop().unwrap();
    let bytevector = new_bytevector(&mut memory, 150, 9);
    memory.push(bytevector).unwrap();
    memory.push(number(2)).unwrap();
    memory.push(bytevector).unwrap();
    memory.push(number(0)).unwrap();
    memory.push(number(150)).unwrap();
    recording_operate(&mut set, &mut memory, 7).unwrap();
    assert_eq!(memory.pop(), Ok(number(150)));
    memory.push(number(8)).unwrap();
    memory.push(bytevector).unwrap();
    memory.push(number(10)).unwrap();
    memory.push(number(150)).unwrap();
    recording_operate(&mut set, &mut memory, 8).unwrap();
    memory.pop().unwrap();
    assert_eq!(
        *calls.borrow(),
        vec![
            "open [97] true".to_string(),
            "close 3".to_string(),
            "write 4 200".to_string(),
            "flush 6".to_string(),
            "read_into 2 64".to_string(),
            "read_into 2 64".to_string(),
            "read_into 2 22".to_string(),
            "write_from 8 64".to_string(),
            "write_from 8 64".to_string(),
            "write_from 8 12".to_string(),
        ]
    );
    assert_eq!(written.borrow()[2], vec![7u8; 12]);
}
