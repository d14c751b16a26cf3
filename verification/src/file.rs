use vstd::prelude::*;
use crate::bytevector::{
    element_cell, lemma_element_cell, lemma_leaf_linked_ok, lemma_write_elements,
    nonnegative_integer_spec, vector_ok, write_elements, BYTEVECTOR_TAG, VECTOR_FACTOR,
};
use crate::list_vector::{
    descend_from, lemma_list_vector_cell_frame, lemma_power_monotone, lemma_power_positive,
    list_vector_cell_spec, power, tree_cell, vector_height_spec,
};
use crate::codec::{code_point_spec, encode_utf8_code_point};
use crate::memory::{car_of, cdr_of, holds, is_null, next_of, pop_values, Memory};
use vstd::utf8::encode_scalar;
use crate::value::{cons_of, expect_cons, expect_number, number_of, Cons, Error, Value, PAIR_TAG};

verus! {

/// The number of bytes a bulk read or write moves in one call of the file
/// system.
pub const BULK_BUFFER_SIZE: usize = 64;

/// The non-negative integer a value holds, or the error.
pub open spec fn nonnegative_value(value: Value) -> Result<usize, Error> {
    match number_of(value) {
        Err(e) => Err(e),
        Ok(n) => nonnegative_integer_spec(n),
    }
}

/// Returns the non-negative integer a value holds.
fn nonnegative_integer(value: Value) -> (r: Result<usize, Error>)
    ensures
        r == nonnegative_value(value),
{
    let n = expect_number(value)?;
    crate::bytevector::nonnegative_integer(n)
}

/// The root, the length and the range of a bytevector, or the error reading
/// them.
pub open spec fn bytevector_range_spec(memory: Memory, value: Value, start: Value, end: Value) -> Result<
    (Cons, usize, usize, usize),
    Error,
> {
    match cons_of(value) {
        Err(e) => Err(e),
        Ok(bytevector) => match cdr_of(memory.cdrs(), bytevector) {
            Err(e) => Err(e),
            Ok(root) => if root.tag_spec() != BYTEVECTOR_TAG {
                Err(Error::ConsExpected)
            } else {
                match car_of(memory.cars(), bytevector) {
                    Err(e) => Err(e),
                    Ok(l) => match nonnegative_value(l) {
                        Err(e) => Err(e),
                        Ok(length) => match nonnegative_value(start) {
                            Err(e) => Err(e),
                            Ok(s) => match nonnegative_value(end) {
                                Err(e) => Err(e),
                                Ok(t) => if s > t || t > length {
                                    Err(Error::InvalidMemoryAccess)
                                } else {
                                    match cons_of(root) {
                                        Err(e) => Err(e),
                                        Ok(r) => Ok((r, length, s, t)),
                                    }
                                },
                            },
                        },
                    },
                }
            },
        },
    }
}

/// Returns the root, the length and the range of a bytevector.
fn bytevector_range(memory: &Memory, value: Value, start: Value, end: Value) -> (r: Result<
    (Cons, usize, usize, usize),
    Error,
>)
    requires
        memory.wf(),
    ensures
        r == bytevector_range_spec(*memory, value, start, end),
{
    let bytevector = expect_cons(value)?;
    let root = memory.cdr(bytevector)?;
    if root.tag() != BYTEVECTOR_TAG {
        return Err(Error::ConsExpected);
    }
    let length = nonnegative_integer(memory.car(bytevector)?)?;
    let start = nonnegative_integer(start)?;
    let end = nonnegative_integer(end)?;
    if start > end || end > length {
        return Err(Error::InvalidMemoryAccess);
    }
    let root = expect_cons(root)?;
    Ok((root, length, start, end))
}

/// The number of levels above the leaves of a bytevector of `length` bytes.
fn vector_height(length: usize) -> (r: usize)
    ensures
        r == vector_height_spec(VECTOR_FACTOR as nat, length as nat),
{
    let ghost f = VECTOR_FACTOR as nat;
    let mut height: usize = 0;
    let mut node_length = length;
    while node_length > VECTOR_FACTOR
        invariant
            f == VECTOR_FACTOR as nat,
            vector_height_spec(f, length as nat) == height + vector_height_spec(
                f,
                node_length as nat,
            ),
            height + node_length <= length,
        decreases node_length,
    {
        assert(((node_length - 1) as int) / (VECTOR_FACTOR as int) < node_length - 1)
            by (nonlinear_arith)
            requires
                node_length > VECTOR_FACTOR,
        ;
        node_length = 1 + (node_length - 1) / VECTOR_FACTOR;
        height = height + 1;
    }
    height
}

/// Returns the cell of element `index` of the bytevector tree rooted at
/// `root`.
fn vector_cell(memory: &Memory, root: Cons, length: usize, index: usize) -> (r: Result<Cons, Error>)
    requires
        memory.wf(),
    ensures
        r == list_vector_cell_spec(*memory, root, length as nat, index as nat, VECTOR_FACTOR as nat),
{
    if index >= length {
        return Err(Error::InvalidMemoryAccess);
    }
    let ghost f = VECTOR_FACTOR as nat;
    let height = vector_height(length);
    let ghost h = height as nat;
    let mut p: usize = 1;
    let mut i: usize = 0;
    while i < height
        invariant
            index < length,
            f == VECTOR_FACTOR as nat,
            h == vector_height_spec(f, length as nat),
            height == h,
            i <= height,
            p as nat == power(f, i as nat),
        decreases height - i,
    {
        proof {
            assert(power(f, (i + 1) as nat) == f * power(f, i as nat));
            assert(f * power(f, i as nat) == p * VECTOR_FACTOR) by (nonlinear_arith)
                requires
                    f == VECTOR_FACTOR as nat,
                    p as nat == power(f, i as nat),
            ;
        }
        p = match p.checked_mul(VECTOR_FACTOR) {
            Some(q) => q,
            None => {
                proof {
                    lemma_power_monotone(f, (i + 1) as nat, h);
                }
                return Err(Error::InvalidMemoryAccess);
            },
        };
        i = i + 1;
    }
    proof {
        lemma_power_positive(f, h);
    }
    let ghost goal = tree_cell(memory.cars(), memory.cdrs(), root, index as nat, h, f);
    assert(list_vector_cell_spec(*memory, root, length as nat, index as nat, f) == goal);
    let mut list = root;
    let mut rem = index;
    let mut first = true;
    let ghost whole = index;
    let ghost mut k: int = h as int;
    while p > 0
        invariant
            memory.wf(),
            f == VECTOR_FACTOR as nat,
            k <= h,
            k >= -1,
            k >= 0 ==> p as nat == power(f, k as nat),
            k < 0 ==> p == 0,
            k >= 0 ==> p > 0,
            whole == index,
            goal == tree_cell(memory.cars(), memory.cdrs(), root, whole as nat, h, f),
            goal == list_vector_cell_spec(*memory, root, length as nat, whole as nat, f),
            first ==> list == root && rem == whole && k == h,
            !first ==> goal == descend_from(*memory, list, rem as nat, k, f),
        decreases p,
    {
        if !first {
            let v = memory.car(list)?;
            list = expect_cons(v)?;
        }
        list = memory.tail(list, rem / p)?;
        rem = rem % p;
        proof {
            if k >= 1 {
                let q = power(f, (k - 1) as nat);
                assert(power(f, k as nat) == f * q);
                assert((f * q) / f == q) by (nonlinear_arith)
                    requires
                        f > 1,
                ;
                lemma_power_positive(f, (k - 1) as nat);
            } else {
                assert(1nat / f == 0) by (nonlinear_arith)
                    requires
                        f > 1,
                ;
            }
            assert(p / VECTOR_FACTOR < p) by (nonlinear_arith)
                requires
                    p > 0,
            ;
        }
        p = p / VECTOR_FACTOR;
        first = false;
        proof {
            k = k - 1;
        }
    }
    Ok(list)
}

/// The byte at `index` of the bytevector rooted at `root`, or the error.
pub open spec fn file_byte_at(memory: Memory, root: Cons, length: nat, index: nat) -> Result<u8, Error> {
    match list_vector_cell_spec(memory, root, length, index, VECTOR_FACTOR as nat) {
        Err(e) => Err(e),
        Ok(cell) => match car_of(memory.cars(), cell) {
            Err(e) => Err(e),
            Ok(v) => match number_of(v) {
                Err(e) => Err(e),
                Ok(n) => crate::bytevector::byte_spec(n),
            },
        },
    }
}

/// Returns the byte at an index of a bytevector.
fn bytevector_get(memory: &Memory, root: Cons, length: usize, index: usize) -> (r: Result<u8, Error>)
    requires
        memory.wf(),
    ensures
        r == file_byte_at(*memory, root, length as nat, index as nat),
{
    let cell = vector_cell(memory, root, length, index)?;
    let n = expect_number(memory.car(cell)?)?;
    crate::bytevector::byte(n)
}

/// Replaces the byte at an index of a bytevector.
fn bytevector_set(memory: &mut Memory, root: Cons, length: usize, index: usize, b: u8) -> (r: Result<
    (),
    Error,
>)
    requires
        old(memory).wf(),
    ensures
        final(memory).wf(),
        final(memory).cdrs() == old(memory).cdrs(),
        final(memory).capacity() == old(memory).capacity(),
        final(memory).stack_cons() == old(memory).stack_cons(),
        match list_vector_cell_spec(*old(memory), root, length as nat, index as nat, VECTOR_FACTOR as nat) {
            Err(e) => r == Err::<(), Error>(e) && final(memory).cars() == old(memory).cars(),
            Ok(cell) => if cell.index < old(memory).size() {
                r is Ok && final(memory).cars() == old(memory).cars().update(
                    cell.index as int,
                    Value::Number(b as i64),
                )
            } else {
                r == Err::<(), Error>(Error::InvalidMemoryAccess) && final(memory).cars() == old(
                    memory,
                ).cars()
            },
        },
{
    let cell = vector_cell(memory, root, length, index)?;
    memory.set_car(cell, Value::Number(b as i64))
}

/// A primitive of a file system.
#[derive(Clone, Copy, Debug, PartialEq, Eq, Structural)]
pub enum Primitive {
    /// Open a file.
    OpenFile,
    /// Close a file.
    CloseFile,
    /// Read a file.
    ReadFile,
    /// Write a file.
    WriteFile,
    /// Delete a file.
    DeleteFile,
    /// Check if a file exists.
    ExistsFile,
    /// Flush a file.
    FlushFile,
    /// Reads a bytevector from a file.
    ReadFileBulk,
    /// Writes a bytevector to a file.
    WriteFileBulk,
}

/// The primitive a number names: the primitives are numbered in the order
/// of their declaration, from zero.
pub open spec fn primitive_spec(number: usize) -> Option<Primitive> {
    if number == 0 {
        Some(Primitive::OpenFile)
    } else if number == 1 {
        Some(Primitive::CloseFile)
    } else if number == 2 {
        Some(Primitive::ReadFile)
    } else if number == 3 {
        Some(Primitive::WriteFile)
    } else if number == 4 {
        Some(Primitive::DeleteFile)
    } else if number == 5 {
        Some(Primitive::ExistsFile)
    } else if number == 6 {
        Some(Primitive::FlushFile)
    } else if number == 7 {
        Some(Primitive::ReadFileBulk)
    } else if number == 8 {
        Some(Primitive::WriteFileBulk)
    } else {
        None
    }
}

impl Primitive {
    /// Returns the primitive a number names.
    pub fn from_number(number: usize) -> (r: Option<Primitive>)
        ensures
            r == primitive_spec(number),
    {
        match number {
            0 => Some(Primitive::OpenFile),
            1 => Some(Primitive::CloseFile),
            2 => Some(Primitive::ReadFile),
            3 => Some(Primitive::WriteFile),
            4 => Some(Primitive::DeleteFile),
            5 => Some(Primitive::ExistsFile),
            6 => Some(Primitive::FlushFile),
            7 => Some(Primitive::ReadFileBulk),
            8 => Some(Primitive::WriteFileBulk),
            _ => None,
        }
    }
}

/// An error of a file system operation.
#[derive(Clone, Copy, Debug, PartialEq, Eq, Structural)]
pub enum FileError {
    /// A file could not be opened.
    Open,
    /// A file could not be closed.
    Close,
    /// A file could not be read.
    Read,
    /// A file could not be written.
    Write,
    /// A file could not be deleted.
    Delete,
    /// Whether a file exists could not be told.
    Exists,
    /// A file could not be flushed.
    Flush,
    /// A path could not be decoded.
    PathDecode,
}

/// An error of a file primitive.
#[derive(Clone, Copy, Debug, PartialEq, Eq, Structural)]
pub enum PrimitiveError {
    /// An error of the virtual machine.
    Vm(Error),
    /// An error of the file system.
    File(FileError),
}

/// The longest path, in bytes of its UTF-8 encoding, that a path list may
/// name.
pub const PATH_SIZE: usize = 256;

/// The UTF-8 bytes of the path that the list from `c` names, after the
/// bytes `acc` of the code points before it: the list holds code points and
/// ends at the null cell, and the path is at most `PATH_SIZE` bytes long;
/// else nothing.
pub open spec fn path_bytes_from(cars: Seq<Value>, cdrs: Seq<Value>, c: Cons, acc: Seq<u8>) -> Option<Seq<u8>>
    decreases PATH_SIZE + 1 - acc.len(),
{
    if acc.len() > PATH_SIZE {
        None
    } else if is_null(c) {
        Some(acc)
    } else {
        match car_of(cars, c) {
            Err(_) => None,
            Ok(v) => match number_of(v) {
                Err(_) => None,
                Ok(n) => match code_point_spec(n) {
                    Err(_) => None,
                    Ok(scalar) => {
                        let next = acc + encode_scalar(scalar);
                        if next.len() > PATH_SIZE {
                            None
                        } else {
                            match next_of(cdrs, c) {
                                Err(_) => None,
                                Ok(d) => path_bytes_from(cars, cdrs, d, next),
                            }
                        }
                    },
                },
            },
        }
    }
}

/// The UTF-8 bytes of the path that a list of code points names, or
/// nothing where the value is no such list or the path is longer than
/// `PATH_SIZE` bytes.
pub open spec fn path_bytes(memory: Memory, list: Value) -> Option<Seq<u8>> {
    match cons_of(list) {
        Err(_) => None,
        Ok(c) => path_bytes_from(memory.cars(), memory.cdrs(), c, seq![]),
    }
}

/// Returns the UTF-8 bytes of the path that a list of code points names, for
/// a file system to turn into a path of its own.
pub fn decode_path_bytes(memory: &Memory, list: Value) -> (r: Option<Vec<u8>>)
    requires
        memory.wf(),
    ensures
        match r {
            Some(v) => path_bytes(*memory, list) == Some(v@),
            None => path_bytes(*memory, list) is None,
        },
{
    let mut cell = match list {
        Value::Cons(c) => c,
        Value::Number(_) => {
            return None;
        },
    };
    let mut path: Vec<u8> = Vec::new();
    let ghost goal = path_bytes(*memory, list);
    proof {
        assert(path@ =~= Seq::<u8>::empty());
    }
    while cell.index != crate::memory::NULL_INDEX
        invariant
            memory.wf(),
            path@.len() <= PATH_SIZE,
            goal == path_bytes(*memory, list),
            goal == path_bytes_from(memory.cars(), memory.cdrs(), cell, path@),
        decreases PATH_SIZE + 1 - path@.len(),
    {
        let v = match memory.car(cell) {
            Ok(v) => v,
            Err(_) => {
                return None;
            },
        };
        let n = match v {
            Value::Number(n) => n,
            Value::Cons(_) => {
                return None;
            },
        };
        let mut bytes = [0u8; 4];
        let size = match encode_utf8_code_point(n, &mut bytes) {
            Ok(size) => size,
            Err(_) => {
                return None;
            },
        };
        let ghost before = path@;
        let ghost scalar = code_point_spec(n)->Ok_0;
        let mut k: usize = 0;
        while k < size
            invariant
                size == encode_scalar(scalar).len(),
                size <= 4,
                bytes@.subrange(0, size as int) == encode_scalar(scalar),
                k <= size,
                before.len() <= PATH_SIZE,
                path@ == before + bytes@.subrange(0, k as int),
            decreases size - k,
        {
            path.push(bytes[k]);
            k = k + 1;
            proof {
                assert(path@ =~= before + bytes@.subrange(0, k as int));
            }
        }
        proof {
            assert(path@ =~= before + encode_scalar(scalar));
            assert(encode_scalar(scalar).len() >= 1);
        }
        if path.len() > PATH_SIZE {
            return None;
        }
        cell = match memory.next(cell) {
            Ok(d) => d,
            Err(_) => {
                return None;
            },
        };
    }
    Some(path)
}

/// A file descriptor.
pub type FileDescriptor = usize;

/// A file system.
///
/// Each operation comes with a spec function that relates the file system
/// before the call, the arguments, the file system after it and what it
/// returned. An implementation that states what it does gives those spec
/// functions a body; by default they claim nothing.
pub trait FileSystem: Sized {
    /// A path.
    type PathBuf;

    /// An error.
    type Error;

    /// Opening `path`, for output or not, takes this file system to `after`
    /// and returns `r`.
    open spec fn opens(&self, path: Self::PathBuf, output: bool, after: &Self, r: Result<FileDescriptor, Self::Error>) -> bool {
        true
    }

    /// Closing `descriptor` takes this file system to `after` and returns `r`.
    open spec fn closes(&self, descriptor: FileDescriptor, after: &Self, r: Result<(), Self::Error>) -> bool {
        true
    }

    /// Reading a byte from `descriptor` takes this file system to `after`
    /// and returns `r`: a byte, or nothing at the end of the file.
    open spec fn reads(&self, descriptor: FileDescriptor, after: &Self, r: Result<Option<u8>, Self::Error>) -> bool {
        true
    }

    /// Writing `byte` to `descriptor` takes this file system to `after` and
    /// returns `r`.
    open spec fn writes(&self, descriptor: FileDescriptor, byte: u8, after: &Self, r: Result<(), Self::Error>) -> bool {
        true
    }

    /// Reading from `descriptor` into a buffer that held `destination` takes
    /// this file system to `after`, leaves `filled` in the buffer and
    /// returns `r`, in an implementation of its own of `read_into`.
    open spec fn reads_into(
        &self,
        descriptor: FileDescriptor,
        destination: Seq<u8>,
        after: &Self,
        filled: Seq<u8>,
        r: Result<usize, Self::Error>,
    ) -> bool {
        true
    }

    /// Writing the bytes `source` to `descriptor` takes this file system to
    /// `after` and returns `r`, in an implementation of its own of
    /// `write_from`.
    open spec fn writes_from(&self, descriptor: FileDescriptor, source: Seq<u8>, after: &Self, r: Result<(), Self::Error>) -> bool {
        true
    }

    /// Flushing `descriptor` takes this file system to `after` and returns
    /// `r`.
    open spec fn flushes(&self, descriptor: FileDescriptor, after: &Self, r: Result<(), Self::Error>) -> bool {
        true
    }

    /// Deleting `path` takes this file system to `after` and returns `r`.
    open spec fn deletes(&self, path: Self::PathBuf, after: &Self, r: Result<(), Self::Error>) -> bool {
        true
    }

    /// Asking whether `path` exists returns `r`.
    open spec fn answers_exists(&self, path: Self::PathBuf, r: Result<bool, Self::Error>) -> bool {
        true
    }

    /// Decoding the path list `list` in a heap of the cells `cars`, `cdrs`
    /// returns `r`.
    open spec fn decodes_path(cars: Seq<Value>, cdrs: Seq<Value>, list: Value, r: Result<Self::PathBuf, Self::Error>) -> bool {
        true
    }

    /// Opens a file and returns its descriptor.
    fn open(&mut self, path: &Self::PathBuf, output: bool) -> (r: Result<FileDescriptor, Self::Error>)
        ensures
            old(self).opens(*path, output, final(self), r),
    ;

    /// Closes a file.
    fn close(&mut self, descriptor: FileDescriptor) -> (r: Result<(), Self::Error>)
        ensures
            old(self).closes(descriptor, final(self), r),
    ;

    /// Reads a file.
    fn read(&mut self, descriptor: FileDescriptor) -> (r: Result<Option<u8>, Self::Error>)
        ensures
            old(self).reads(descriptor, final(self), r),
    ;

    /// Writes a file.
    fn write(&mut self, descriptor: FileDescriptor, byte: u8) -> (r: Result<(), Self::Error>)
        ensures
            old(self).writes(descriptor, byte, final(self), r),
    ;

    /// Reads up to the length of `destination` bytes.
    ///
    /// A successful read may be short, and the end of a file is reported as
    /// `Ok(0)`. For a valid readable descriptor, an empty destination is a
    /// successful no-op. Implementations may validate the descriptor and
    /// direction before applying that no-op. The default implementation
    /// reads byte by byte, for file systems that read only single bytes,
    /// until the destination is full or the file ends.
    fn read_into(&mut self, descriptor: FileDescriptor, destination: &mut [u8]) -> (r: Result<
        usize,
        Self::Error,
    >)
        ensures
            final(destination)@.len() == old(destination)@.len(),
            r matches Ok(n) ==> n <= old(destination)@.len(),
            old(self).reads_into(descriptor, old(destination)@, final(self), final(destination)@, r)
                || default_read_into(
                *old(self),
                old(destination)@,
                *final(self),
                final(destination)@,
                r,
                |a: Self, b: Self, x: Result<Option<u8>, Self::Error>| a.reads(descriptor, &b, x),
            ),
        default_ensures
            default_read_into(
                *old(self),
                old(destination)@,
                *final(self),
                final(destination)@,
                r,
                |a: Self, b: Self, x: Result<Option<u8>, Self::Error>| a.reads(descriptor, &b, x),
            ),
    {
        let ghost start: Self = *self;
        let ghost reads = |a: Self, b: Self, x: Result<Option<u8>, Self::Error>| a.reads(descriptor, &b, x);
        let ghost mut states: Seq<Self> = seq![start];
        let mut count: usize = 0;
        let mut ended = false;
        let ghost mut last: Self = start;
        proof {
            assert(destination@.subrange(0, 0) =~= Seq::<u8>::empty());
        }
        while count < destination.len() && !ended
            invariant
                count <= destination@.len(),
                destination@.len() == old(destination)@.len(),
                forall|k: int| count <= k < destination@.len() ==> #[trigger] destination@[k] == old(destination)@[k],
                start == *old(self),
                states.len() == count + 1,
                states[0] == start,
                read_run(states, destination@.subrange(0, count as int), reads),
                forall|a: Self, b: Self, x: Result<Option<u8>, Self::Error>| #[trigger] reads(a, b, x) == a.reads(descriptor, &b, x),
                !ended ==> states.last() == *self,
                ended ==> count < destination@.len() && states.last().reads(descriptor, &*self, Ok(None)),
            decreases destination@.len() - count, if ended { 0int } else { 1int },
        {
            let ghost before: Self = *self;
            let read = self.read(descriptor);
            match read {
                Ok(Some(b)) => {
                    let ghost bytes = destination@.subrange(0, count as int);
                    destination[count] = b;
                    count = count + 1;
                    proof {
                        let now = destination@.subrange(0, count as int);
                        assert(now =~= bytes.push(b));
                        let next = states.push(*self);
                        assert forall|i: int| 0 <= i < now.len() implies #[trigger] reads(
                            next[i],
                            next[i + 1],
                            Ok(Some(now[i])),
                        ) by {
                            if i < bytes.len() {
                                assert(next[i] == states[i] && next[i + 1] == states[i + 1]);
                                assert(now[i] == bytes[i]);
                            } else {
                                assert(next[i] == before);
                                assert(next[i + 1] == *self);
                                assert(now[i] == b);
                            }
                        }
                        states = next;
                    }
                },
                Ok(None) => {
                    ended = true;
                },
                Err(e) => {
                    proof {
                        let k = count as nat;
                        assert(read_run(states, destination@.subrange(0, k as int), reads));
                        assert(destination@.subrange(k as int, destination@.len() as int)
                            =~= old(destination)@.subrange(k as int, destination@.len() as int));
                        assert(states.last() == before);
                        assert(before.reads(descriptor, &*self, Err(e)));
                        assert(reads(states.last(), *self, Err(e)));
                        assert(default_read_into(start, old(destination)@, *self, destination@, Err(e), reads));
                        assert(reads =~= (|a: Self, b: Self, x: Result<Option<u8>, Self::Error>| a.reads(descriptor, &b, x)));
                    }
                    return Err(e);
                },
            }
        }
        proof {
            let k = count as nat;
            assert(read_run(states, destination@.subrange(0, k as int), reads));
            assert(destination@.subrange(k as int, destination@.len() as int)
                =~= old(destination)@.subrange(k as int, destination@.len() as int));
        }
        Ok(count)
    }

    /// Writes all bytes in `source` or returns an error.
    ///
    /// An empty source is a successful no-op. The default implementation
    /// writes byte by byte, for file systems that write only single bytes,
    /// and stops at the first error.
    fn write_from(&mut self, descriptor: FileDescriptor, source: &[u8]) -> (r: Result<(), Self::Error>)
        ensures
            old(self).writes_from(descriptor, source@, final(self), r) || default_write_from(
                *old(self),
                source@,
                *final(self),
                r,
                |a: Self, byte: u8, b: Self, x: Result<(), Self::Error>| a.writes(descriptor, byte, &b, x),
            ),
        default_ensures
            default_write_from(
                *old(self),
                source@,
                *final(self),
                r,
                |a: Self, byte: u8, b: Self, x: Result<(), Self::Error>| a.writes(descriptor, byte, &b, x),
            ),
    {
        let ghost start: Self = *self;
        let ghost writes = |a: Self, byte: u8, b: Self, x: Result<(), Self::Error>| a.writes(descriptor, byte, &b, x);
        let ghost mut states: Seq<Self> = seq![start];
        let mut i: usize = 0;
        proof {
            assert(source@.subrange(0, 0) =~= Seq::<u8>::empty());
        }
        while i < source.len()
            invariant
                i <= source@.len(),
                start == *old(self),
                states.len() == i + 1,
                states[0] == start,
                states.last() == *self,
                write_run(states, source@.subrange(0, i as int), writes),
                forall|a: Self, byte: u8, b: Self, x: Result<(), Self::Error>| #[trigger] writes(a, byte, b, x) == a.writes(descriptor, byte, &b, x),
            decreases source@.len() - i,
        {
            let ghost before: Self = *self;
            let written = self.write(descriptor, source[i]);
            match written {
                Ok(unit) => {
                    proof {
                        assert(unit == ());
                        assert(written == Ok::<(), Self::Error>(()));
                        let bytes = source@.subrange(0, i as int);
                        let now = source@.subrange(0, i + 1);
                        assert(now =~= bytes.push(source@[i as int]));
                        let next = states.push(*self);
                        assert forall|j: int| 0 <= j < now.len() implies #[trigger] writes(
                            next[j],
                            now[j],
                            next[j + 1],
                            Ok(()),
                        ) by {
                            if j < bytes.len() {
                                assert(next[j] == states[j] && next[j + 1] == states[j + 1]);
                                assert(now[j] == bytes[j]);
                            } else {
                                assert(next[j] == before);
                                assert(next[j + 1] == *self);
                                assert(now[j] == source@[i as int]);
                                assert(written == Ok::<(), Self::Error>(()));
                                assert(before.writes(descriptor, source@[i as int], &*self, written));
                            }
                        }
                        states = next;
                    }
                },
                Err(e) => {
                    proof {
                        assert(write_run(states, source@.subrange(0, i as int), writes));
                        assert(writes(states.last(), source@[i as int], *self, Err(e)));
                        assert(default_write_from(start, source@, *self, Err(e), writes));
                        assert(writes =~= (|a: Self, byte: u8, b: Self, x: Result<(), Self::Error>| a.writes(descriptor, byte, &b, x)));
                    }
                    return Err(e);
                },
            }
            i = i + 1;
        }
        proof {
            assert(write_run(states, source@.subrange(0, i as int), writes));
        }
        Ok(())
    }

    /// Flushes a file.
    fn flush(&mut self, descriptor: FileDescriptor) -> (r: Result<(), Self::Error>)
        ensures
            old(self).flushes(descriptor, final(self), r),
    ;

    /// Deletes a file.
    fn delete(&mut self, path: &Self::PathBuf) -> (r: Result<(), Self::Error>)
        ensures
            old(self).deletes(*path, final(self), r),
    ;

    /// Checks if a file exists.
    fn file_exists(&self, path: &Self::PathBuf) -> (r: Result<bool, Self::Error>)
        ensures
            self.answers_exists(*path, r),
    ;

    /// Decodes a path.
    fn decode_path(memory: &Memory, list: Value) -> (r: Result<Self::PathBuf, Self::Error>)
        ensures
            Self::decodes_path(memory.cars(), memory.cdrs(), list, r),
    ;
}

/// The states `states` are those that reading the bytes `bytes` one at a
/// time goes through, where `reads(a, b, r)` says that a read takes `a` to
/// `b` and returns `r`.
pub open spec fn read_run<F, E>(states: Seq<F>, bytes: Seq<u8>, reads: spec_fn(F, F, Result<Option<u8>, E>) -> bool) -> bool {
    &&& states.len() == bytes.len() + 1
    &&& forall|i: int| 0 <= i < bytes.len() ==> #[trigger] reads(states[i], states[i + 1], Ok(Some(bytes[i])))
}

/// The states `states` are those that writing the bytes `bytes` one at a
/// time, each write successful, goes through, where `writes(a, byte, b, r)`
/// says that writing `byte` takes `a` to `b` and returns `r`.
pub open spec fn write_run<F, E>(states: Seq<F>, bytes: Seq<u8>, writes: spec_fn(F, u8, F, Result<(), E>) -> bool) -> bool {
    &&& states.len() == bytes.len() + 1
    &&& forall|i: int| 0 <= i < bytes.len() ==> #[trigger] writes(states[i], bytes[i], states[i + 1], Ok(()))
}

/// What the default `read_into` does: it reads byte after byte into the
/// buffer that held `destination`, from its start, until the buffer is
/// full, a read finds the end of the file, or a read fails; it returns the
/// number of bytes read, or the error of the failed read, and leaves the
/// rest of the buffer as it was.
pub open spec fn default_read_into<F, E>(
    start: F,
    destination: Seq<u8>,
    end: F,
    filled: Seq<u8>,
    r: Result<usize, E>,
    reads: spec_fn(F, F, Result<Option<u8>, E>) -> bool,
) -> bool {
    let n = destination.len();
    &&& filled.len() == n
    &&& exists|states: Seq<F>, k: nat|
        #[trigger] read_run(states, filled.subrange(0, k as int), reads) && {
            &&& k <= n
            &&& states[0] == start
            &&& filled.subrange(k as int, n as int) == destination.subrange(k as int, n as int)
            &&& match r {
                Ok(count) => count == k && if k == n {
                    states.last() == end
                } else {
                    reads(states.last(), end, Ok(None))
                },
                Err(e) => k < n && reads(states.last(), end, Err(e)),
            }
        }
}

/// What the default `write_from` does: it writes the bytes of `source` one
/// at a time, in order, and stops at the first write that fails, returning
/// its error.
pub open spec fn default_write_from<F, E>(
    start: F,
    source: Seq<u8>,
    end: F,
    r: Result<(), E>,
    writes: spec_fn(F, u8, F, Result<(), E>) -> bool,
) -> bool {
    exists|states: Seq<F>, k: nat|
        #[trigger] write_run(states, source.subrange(0, k as int), writes) && {
            &&& k <= source.len()
            &&& states[0] == start
            &&& match r {
                Ok(()) => k == source.len() && states.last() == end,
                Err(e) => k < source.len() && writes(states.last(), source[k as int], end, Err(e)),
            }
        }
}

/// The reads of a file system from `descriptor`.
pub open spec fn reads_of<F: FileSystem>(descriptor: FileDescriptor) -> spec_fn(F, F, Result<Option<u8>, F::Error>) -> bool {
    |a: F, b: F, r: Result<Option<u8>, F::Error>| a.reads(descriptor, &b, r)
}

/// The writes of a file system to `descriptor`.
pub open spec fn writes_of<F: FileSystem>(descriptor: FileDescriptor) -> spec_fn(F, u8, F, Result<(), F::Error>) -> bool {
    |a: F, byte: u8, b: F, r: Result<(), F::Error>| a.writes(descriptor, byte, &b, r)
}

/// What a call of `read_into` does, by an implementation of its own or the
/// default one: the buffer keeps its length and at most that many bytes are
/// read.
#[verifier::opaque]
pub open spec fn read_into_done<F: FileSystem>(
    start: F,
    descriptor: FileDescriptor,
    destination: Seq<u8>,
    end: F,
    filled: Seq<u8>,
    r: Result<usize, F::Error>,
) -> bool {
    &&& filled.len() == destination.len()
    &&& r matches Ok(n) ==> n <= destination.len()
    &&& start.reads_into(descriptor, destination, &end, filled, r) || default_read_into(
        start,
        destination,
        end,
        filled,
        r,
        reads_of::<F>(descriptor),
    )
}

/// What a call of `write_from` does, by an implementation of its own or the
/// default one.
pub open spec fn write_from_done<F: FileSystem>(
    start: F,
    descriptor: FileDescriptor,
    source: Seq<u8>,
    end: F,
    r: Result<(), F::Error>,
) -> bool {
    start.writes_from(descriptor, source, &end, r) || default_write_from(
        start,
        source,
        end,
        r,
        writes_of::<F>(descriptor),
    )
}

/// What pushing `v` onto the stack `below` of the heap `cars`, `cdrs` gives:
/// `new` and `r` are the heap and the result afterwards.
pub open spec fn pushed_value(
    cars: Seq<Value>,
    cdrs: Seq<Value>,
    below: Cons,
    v: Value,
    new: Memory,
    r: Result<(), PrimitiveError>,
) -> bool {
    if cars.len() >= new.capacity() {
        r == Err::<(), PrimitiveError>(PrimitiveError::Vm(Error::OutOfMemory)) && holds(
            new,
            cars,
            cdrs,
            below,
        )
    } else {
        r is Ok && holds(
            new,
            cars.push(v),
            cdrs.push(Value::Cons(Cons { index: below.index, tag: PAIR_TAG })),
            Cons { index: cars.len() as usize, tag: PAIR_TAG },
        )
    }
}

/// Pushes a value onto the stack.
fn push(memory: &mut Memory, v: Value) -> (r: Result<(), PrimitiveError>)
    requires
        old(memory).wf(),
    ensures
        final(memory).wf(),
        final(memory).capacity() == old(memory).capacity(),
        pushed_value(
            old(memory).cars(),
            old(memory).cdrs(),
            old(memory).stack_cons(),
            v,
            *final(memory),
            r,
        ),
{
    match memory.push(v) {
        Ok(()) => Ok(()),
        Err(e) => Err(PrimitiveError::Vm(e)),
    }
}

/// Wraps an error of the virtual machine.
fn vm<T>(r: Result<T, Error>) -> (s: Result<T, PrimitiveError>)
    ensures
        match r {
            Ok(v) => s == Ok::<T, PrimitiveError>(v),
            Err(e) => s == Err::<T, PrimitiveError>(PrimitiveError::Vm(e)),
        },
{
    match r {
        Ok(v) => Ok(v),
        Err(e) => Err(PrimitiveError::Vm(e)),
    }
}

/// The number of values a primitive takes from the stack.
pub open spec fn arity(primitive: Primitive) -> nat {
    match primitive {
        Primitive::OpenFile => 2,
        Primitive::WriteFile => 2,
        Primitive::ReadFileBulk => 4,
        Primitive::WriteFileBulk => 4,
        _ => 1,
    }
}

/// Both values are integers, or the error of the first that is not.
pub open spec fn numbers_of(a: Value, b: Value) -> Result<(), Error> {
    match number_of(a) {
        Err(e) => Err(e),
        Ok(_) => match number_of(b) {
            Err(e) => Err(e),
            Ok(_) => Ok(()),
        },
    }
}

/// The number of elements that a bulk transfer of `total` elements moves
/// in one call of the file system after `done` of them: the rest, but at
/// most `BULK_BUFFER_SIZE`.
pub open spec fn chunk_size(total: nat, done: nat) -> nat {
    if total - done < BULK_BUFFER_SIZE {
        (total - done) as nat
    } else {
        BULK_BUFFER_SIZE as nat
    }
}

/// `n` zero bytes: the buffer that a bulk read hands to the file system.
pub open spec fn zeros(n: nat) -> Seq<u8> {
    Seq::new(n, |j: int| 0u8)
}

/// The bytes that the first `i` calls of a bulk read brought: of each call,
/// as many bytes of its buffer as it returned.
pub open spec fn read_chunks<E>(bufs: Seq<Seq<u8>>, rets: Seq<Result<usize, E>>, i: nat) -> Seq<u8>
    decreases i,
{
    if i == 0 {
        seq![]
    } else {
        read_chunks(bufs, rets, (i - 1) as nat) + bufs[i - 1].subrange(0, rets[i - 1]->Ok_0 as int)
    }
}

/// The calls of `read_into` that a bulk read of `total` bytes from
/// `descriptor` made: call `i` took the file system from `fss[i]` to
/// `fss[i + 1]`, was handed a zeroed buffer of the rest of the range but at
/// most `BULK_BUFFER_SIZE` bytes, left `bufs[i]` in it and returned
/// `rets[i]`; every call but the last filled its buffer.
pub open spec fn read_trace<T: FileSystem>(
    descriptor: FileDescriptor,
    total: nat,
    fss: Seq<T>,
    bufs: Seq<Seq<u8>>,
    rets: Seq<Result<usize, T::Error>>,
) -> bool {
    &&& fss.len() == rets.len() + 1
    &&& bufs.len() == rets.len()
    &&& forall|i: int| 0 <= i < rets.len() ==> #[trigger] read_call(descriptor, total, fss, bufs, rets, i)
}

/// Call `i` of the calls of a bulk read that `read_trace` describes.
pub open spec fn read_call<T: FileSystem>(
    descriptor: FileDescriptor,
    total: nat,
    fss: Seq<T>,
    bufs: Seq<Seq<u8>>,
    rets: Seq<Result<usize, T::Error>>,
    i: int,
) -> bool {
    let done = read_chunks(bufs, rets, i as nat).len();
    &&& done < total
    &&& read_into_done(fss[i], descriptor, zeros(chunk_size(total, done)), fss[i + 1], bufs[i], rets[i])
    &&& i < rets.len() - 1 ==> rets[i] == Ok::<usize, T::Error>(chunk_size(total, done) as usize)
}

/// The file system went from `fs0` to `fs1` through the calls of
/// `read_into` that a bulk read of `total` bytes from `descriptor` makes,
/// whatever the bytevector they are read into.
pub open spec fn bulk_read_calls<T: FileSystem>(descriptor: FileDescriptor, total: nat, fs0: T, fs1: T) -> bool {
    exists|fss: Seq<T>, bufs: Seq<Seq<u8>>, rets: Seq<Result<usize, T::Error>>|
        #[trigger] read_trace(descriptor, total, fss, bufs, rets) && fss[0] == fs0 && fss.last() == fs1
}

/// The outcome of a bulk read from `descriptor` into the range `start..end`
/// of a well-formed bytevector in `mem0`, where the file system goes from
/// `fs0` to `fs1`: `read_into` is called for the range a buffer at a time,
/// until the range is full or a call comes up short; the bytes it returned
/// are stored from `start` on and their number is pushed. A call that fails
/// gives the read error, with the bytes of the calls before it stored.
pub open spec fn bulk_read_outcome<T: FileSystem>(
    mem0: Memory,
    root: Cons,
    length: usize,
    start: usize,
    end: usize,
    descriptor: FileDescriptor,
    below: Cons,
    new: Memory,
    r: Result<(), PrimitiveError>,
    fs0: T,
    fs1: T,
) -> bool {
    let total = (end - start) as nat;
    exists|fss: Seq<T>, bufs: Seq<Seq<u8>>, rets: Seq<Result<usize, T::Error>>|
        #[trigger] read_trace(descriptor, total, fss, bufs, rets) && {
            let m = rets.len();
            &&& fss[0] == fs0
            &&& fss.last() == fs1
            &&& if m > 0 && rets[m - 1] is Err {
                &&& r == Err::<(), PrimitiveError>(PrimitiveError::File(FileError::Read))
                &&& holds(
                    new,
                    write_elements(
                        mem0,
                        root,
                        length as nat,
                        start as nat,
                        read_chunks(bufs, rets, (m - 1) as nat),
                    ),
                    mem0.cdrs(),
                    below,
                )
            } else {
                let bytes = read_chunks(bufs, rets, m);
                &&& bytes.len() == total || (m > 0 && rets[m - 1]->Ok_0 < chunk_size(
                    total,
                    read_chunks(bufs, rets, (m - 1) as nat).len(),
                ))
                &&& pushed_value(
                    write_elements(mem0, root, length as nat, start as nat, bytes),
                    mem0.cdrs(),
                    below,
                    Value::Number(bytes.len() as i64),
                    new,
                    r,
                )
            }
        }
}

/// The elements of a bytevector from `offset` on, `size` of them, all hold
/// bytes.
pub open spec fn chunk_holds_bytes(memory: Memory, root: Cons, length: nat, offset: nat, size: nat) -> bool {
    forall|j: nat| j < size ==> (#[trigger] file_byte_at(memory, root, length, offset + j)) is Ok
}

/// The bytes of the `size` elements of a bytevector from `offset` on.
pub open spec fn chunk_of(memory: Memory, root: Cons, length: nat, offset: nat, size: nat) -> Seq<u8> {
    Seq::new(size, |j: int| file_byte_at(memory, root, length, (offset + j) as nat)->Ok_0)
}

/// The calls of `write_from` that a bulk write of the range `start..end` of
/// a bytevector in `mem0` to `descriptor` made: call `i` took the file
/// system from `fss[i]` to `fss[i + 1]`, was handed the bytes of chunk `i`
/// of the range, `BULK_BUFFER_SIZE` elements but the last, and returned
/// `rets[i]`; every call but the last succeeded.
pub open spec fn write_trace<T: FileSystem>(
    mem0: Memory,
    root: Cons,
    length: nat,
    start: nat,
    end: nat,
    descriptor: FileDescriptor,
    fss: Seq<T>,
    rets: Seq<Result<(), T::Error>>,
) -> bool {
    let total = (end - start) as nat;
    let m = rets.len();
    &&& fss.len() == m + 1
    &&& forall|i: int|
        #![trigger rets[i]]
        0 <= i < m ==> {
            &&& BULK_BUFFER_SIZE * i < total
            &&& chunk_holds_bytes(
                mem0,
                root,
                length,
                (start + BULK_BUFFER_SIZE * i) as nat,
                chunk_size(total, (BULK_BUFFER_SIZE * i) as nat),
            )
            &&& write_from_done(
                fss[i],
                descriptor,
                chunk_of(
                    mem0,
                    root,
                    length,
                    (start + BULK_BUFFER_SIZE * i) as nat,
                    chunk_size(total, (BULK_BUFFER_SIZE * i) as nat),
                ),
                fss[i + 1],
                rets[i],
            )
            &&& i < m - 1 ==> rets[i] is Ok
        }
}

/// The outcome of a bulk write of the range `start..end` of a bytevector in
/// `mem0` to `descriptor`, where the file system goes from `fs0` to `fs1`:
/// the range is handed to `write_from` a chunk at a time, in order; the
/// first call that fails gives the write error, an element of the next
/// chunk that holds no byte gives its error, and when all is written false
/// is pushed. The heap is left as it was but for that push.
pub open spec fn bulk_write_outcome<T: FileSystem>(
    mem0: Memory,
    root: Cons,
    length: usize,
    start: usize,
    end: usize,
    descriptor: FileDescriptor,
    below: Cons,
    new: Memory,
    r: Result<(), PrimitiveError>,
    fs0: T,
    fs1: T,
) -> bool {
    let total = (end - start) as nat;
    exists|fss: Seq<T>, rets: Seq<Result<(), T::Error>>|
        #[trigger] write_trace(mem0, root, length as nat, start as nat, end as nat, descriptor, fss, rets) && {
            let m = rets.len();
            let done = BULK_BUFFER_SIZE * m;
            let offset = (start + done) as nat;
            &&& fss[0] == fs0
            &&& fss.last() == fs1
            &&& if m > 0 && rets[m - 1] is Err {
                r == Err::<(), PrimitiveError>(PrimitiveError::File(FileError::Write)) && holds(
                    new,
                    mem0.cars(),
                    mem0.cdrs(),
                    below,
                )
            } else if done >= total {
                pushed_value(
                    mem0.cars(),
                    mem0.cdrs(),
                    below,
                    Value::Cons(Memory::boolean_spec(false)),
                    new,
                    r,
                )
            } else {
                &&& holds(new, mem0.cars(), mem0.cdrs(), below)
                &&& exists|k: nat|
                    k < chunk_size(total, done as nat) && (#[trigger] file_byte_at(
                        mem0,
                        root,
                        length as nat,
                        offset + k,
                    )) is Err && r == Err::<(), PrimitiveError>(
                        PrimitiveError::Vm(file_byte_at(mem0, root, length as nat, offset + k)->Err_0),
                    ) && chunk_holds_bytes(mem0, root, length as nat, offset, k)
            }
        }
}

/// What a primitive does with the result `done` of a file operation that
/// returns nothing, over the heap `cars`, `cdrs` with the stack `below`: an
/// error of the operation fails with `error` and leaves the heap as it is,
/// and a success pushes false.
pub open spec fn done_outcome<E>(
    done: Result<(), E>,
    error: FileError,
    cars: Seq<Value>,
    cdrs: Seq<Value>,
    below: Cons,
    new: Memory,
    r: Result<(), PrimitiveError>,
) -> bool {
    match done {
        Err(_) => r == Err::<(), PrimitiveError>(PrimitiveError::File(error)) && holds(
            new,
            cars,
            cdrs,
            below,
        ),
        Ok(()) => pushed_value(cars, cdrs, below, Value::Cons(Memory::boolean_spec(false)), new, r),
    }
}

/// What opening a file does with the descriptor `opened` that the file
/// system returned: an error fails with the open error, and a descriptor is
/// pushed as an integer.
pub open spec fn opened_outcome<E>(
    opened: Result<FileDescriptor, E>,
    cars: Seq<Value>,
    cdrs: Seq<Value>,
    below: Cons,
    new: Memory,
    r: Result<(), PrimitiveError>,
) -> bool {
    match opened {
        Err(_) => r == Err::<(), PrimitiveError>(PrimitiveError::File(FileError::Open)) && holds(
            new,
            cars,
            cdrs,
            below,
        ),
        Ok(d) => pushed_value(cars, cdrs, below, Value::Number(d as i64), new, r),
    }
}

/// What reading a byte does with what the file system returned: an error
/// fails with the read error, a byte is pushed as an integer, and the end
/// of the file pushes false.
pub open spec fn read_outcome<E>(
    read: Result<Option<u8>, E>,
    cars: Seq<Value>,
    cdrs: Seq<Value>,
    below: Cons,
    new: Memory,
    r: Result<(), PrimitiveError>,
) -> bool {
    match read {
        Err(_) => r == Err::<(), PrimitiveError>(PrimitiveError::File(FileError::Read)) && holds(
            new,
            cars,
            cdrs,
            below,
        ),
        Ok(Some(b)) => pushed_value(cars, cdrs, below, Value::Number(b as i64), new, r),
        Ok(None) => pushed_value(cars, cdrs, below, Value::Cons(Memory::boolean_spec(false)), new, r),
    }
}

/// What asking whether a file exists does with the answer of the file
/// system: an error fails with its error, and an answer is pushed as a
/// boolean.
pub open spec fn found_outcome<E>(
    found: Result<bool, E>,
    cars: Seq<Value>,
    cdrs: Seq<Value>,
    below: Cons,
    new: Memory,
    r: Result<(), PrimitiveError>,
) -> bool {
    match found {
        Err(_) => r == Err::<(), PrimitiveError>(PrimitiveError::File(FileError::Exists)) && holds(
            new,
            cars,
            cdrs,
            below,
        ),
        Ok(b) => pushed_value(cars, cdrs, below, Value::Cons(Memory::boolean_spec(b)), new, r),
    }
}

/// Finishes a file operation that returns nothing: fails with `error` if it
/// failed, else pushes false.
pub fn finish_done<E>(memory: &mut Memory, done: Result<(), E>, error: FileError) -> (r: Result<
    (),
    PrimitiveError,
>)
    requires
        old(memory).wf(),
    ensures
        final(memory).wf(),
        final(memory).capacity() == old(memory).capacity(),
        done_outcome(
            done,
            error,
            old(memory).cars(),
            old(memory).cdrs(),
            old(memory).stack_cons(),
            *final(memory),
            r,
        ),
{
    match done {
        Ok(()) => push(memory, Value::Cons(memory.boolean(false))),
        Err(_) => Err(PrimitiveError::File(error)),
    }
}

/// Finishes opening a file: fails with the open error, or pushes the
/// descriptor.
pub fn finish_open<E>(memory: &mut Memory, opened: Result<FileDescriptor, E>) -> (r: Result<
    (),
    PrimitiveError,
>)
    requires
        old(memory).wf(),
    ensures
        final(memory).wf(),
        final(memory).capacity() == old(memory).capacity(),
        opened_outcome(
            opened,
            old(memory).cars(),
            old(memory).cdrs(),
            old(memory).stack_cons(),
            *final(memory),
            r,
        ),
{
    match opened {
        Ok(d) => push(memory, Value::Number(d as i64)),
        Err(_) => Err(PrimitiveError::File(FileError::Open)),
    }
}

/// Finishes reading a byte: fails with the read error, or pushes the byte,
/// or false at the end of the file.
pub fn finish_read<E>(memory: &mut Memory, read: Result<Option<u8>, E>) -> (r: Result<
    (),
    PrimitiveError,
>)
    requires
        old(memory).wf(),
    ensures
        final(memory).wf(),
        final(memory).capacity() == old(memory).capacity(),
        read_outcome(
            read,
            old(memory).cars(),
            old(memory).cdrs(),
            old(memory).stack_cons(),
            *final(memory),
            r,
        ),
{
    match read {
        Ok(Some(b)) => push(memory, Value::Number(b as i64)),
        Ok(None) => push(memory, Value::Cons(memory.boolean(false))),
        Err(_) => Err(PrimitiveError::File(FileError::Read)),
    }
}

/// Finishes asking whether a file exists: fails with the error of the
/// question, or pushes the answer.
pub fn finish_exists<E>(memory: &mut Memory, found: Result<bool, E>) -> (r: Result<
    (),
    PrimitiveError,
>)
    requires
        old(memory).wf(),
    ensures
        final(memory).wf(),
        final(memory).capacity() == old(memory).capacity(),
        found_outcome(
            found,
            old(memory).cars(),
            old(memory).cdrs(),
            old(memory).stack_cons(),
            *final(memory),
            r,
        ),
{
    match found {
        Ok(b) => push(memory, Value::Cons(memory.boolean(b))),
        Err(_) => Err(PrimitiveError::File(FileError::Exists)),
    }
}

/// What opening a file does with the path list `list` in the heap `cars`, `cdrs`
/// over the stack `below`, where the file system goes from `fs0` to `fs1`:
/// the list is decoded first, and a path that does not decode fails before
/// the file system is called.
pub open spec fn open_outcome<T: FileSystem>(
    cars: Seq<Value>,
    cdrs: Seq<Value>,
    list: Value,
    output: bool,
    below: Cons,
    new: Memory,
    r: Result<(), PrimitiveError>,
    fs0: T,
    fs1: T,
) -> bool {
    exists|decoded: Result<T::PathBuf, T::Error>|
        #[trigger] T::decodes_path(cars, cdrs, list, decoded) && match decoded {
            Err(_) => r == Err::<(), PrimitiveError>(PrimitiveError::File(FileError::PathDecode)) && holds(
                new,
                cars,
                cdrs,
                below,
            ) && fs1 == fs0,
            Ok(path) => exists|ret: Result<FileDescriptor, T::Error>|
                #[trigger] fs0.opens(path, output, &fs1, ret)
                    && opened_outcome(ret, cars, cdrs, below, new, r),
        }
}

/// What deleting a file does with the path list `list` in the heap `cars`, `cdrs`
/// over the stack `below`, where the file system goes from `fs0` to `fs1`:
/// the list is decoded first, and a path that does not decode fails before
/// the file system is called.
pub open spec fn delete_outcome<T: FileSystem>(
    cars: Seq<Value>,
    cdrs: Seq<Value>,
    list: Value,
    below: Cons,
    new: Memory,
    r: Result<(), PrimitiveError>,
    fs0: T,
    fs1: T,
) -> bool {
    exists|decoded: Result<T::PathBuf, T::Error>|
        #[trigger] T::decodes_path(cars, cdrs, list, decoded) && match decoded {
            Err(_) => r == Err::<(), PrimitiveError>(PrimitiveError::File(FileError::PathDecode)) && holds(
                new,
                cars,
                cdrs,
                below,
            ) && fs1 == fs0,
            Ok(path) => exists|ret: Result<(), T::Error>|
                #[trigger] fs0.deletes(path, &fs1, ret) && done_outcome(
                    ret,
                    FileError::Delete,
                    cars,
                    cdrs,
                    below,
                    new,
                    r,
                ),
        }
}

/// What asking whether a file exists does with the path list `list` in the heap `cars`, `cdrs`
/// over the stack `below`, where the file system goes from `fs0` to `fs1`:
/// the list is decoded first, and a path that does not decode fails before
/// the file system is called.
pub open spec fn exists_outcome<T: FileSystem>(
    cars: Seq<Value>,
    cdrs: Seq<Value>,
    list: Value,
    below: Cons,
    new: Memory,
    r: Result<(), PrimitiveError>,
    fs0: T,
    fs1: T,
) -> bool {
    exists|decoded: Result<T::PathBuf, T::Error>|
        #[trigger] T::decodes_path(cars, cdrs, list, decoded) && fs1 == fs0 && match decoded {
            Err(_) => r == Err::<(), PrimitiveError>(PrimitiveError::File(FileError::PathDecode)) && holds(
                new,
                cars,
                cdrs,
                below,
            ),
            Ok(path) => exists|ret: Result<bool, T::Error>|
                #[trigger] fs0.answers_exists(path, ret) && found_outcome(ret, cars, cdrs, below, new, r),
        }
}

/// What a file primitive does with its arguments `args`, taken from the heap
/// `old`, over the stack `below` that is left, where the file system goes
/// from `fs0` to `fs1`: `new` and `r` are the heap and the result
/// afterwards. An argument of the wrong kind fails before the file system
/// is called; otherwise the operation is called once with the arguments,
/// a path decoded from its list first, and what it returned is pushed, or
/// its error becomes the file error of the operation.
pub open spec fn arguments_outcome<T: FileSystem>(
    primitive: Primitive,
    old: Memory,
    args: Seq<Value>,
    below: Cons,
    new: Memory,
    r: Result<(), PrimitiveError>,
    fs0: T,
    fs1: T,
) -> bool {
    let cars = old.cars();
    let cdrs = old.cdrs();
    let vm_fails = |e: Error|
        r == Err::<(), PrimitiveError>(PrimitiveError::Vm(e)) && holds(new, cars, cdrs, below) && fs1 == fs0;
    let output = args[1] != Value::Cons(Memory::boolean_spec(false));
    match primitive {
        Primitive::OpenFile => open_outcome(cars, cdrs, args[0], output, below, new, r, fs0, fs1),
        Primitive::CloseFile => match number_of(args[0]) {
            Err(e) => vm_fails(e),
            Ok(d) => exists|ret: Result<(), T::Error>|
                #[trigger] fs0.closes(d as usize, &fs1, ret) && done_outcome(
                    ret,
                    FileError::Close,
                    cars,
                    cdrs,
                    below,
                    new,
                    r,
                ),
        },
        Primitive::ReadFile => match number_of(args[0]) {
            Err(e) => vm_fails(e),
            Ok(d) => exists|ret: Result<Option<u8>, T::Error>|
                #[trigger] fs0.reads(d as usize, &fs1, ret) && read_outcome(ret, cars, cdrs, below, new, r),
        },
        Primitive::WriteFile => match numbers_of(args[0], args[1]) {
            Err(e) => vm_fails(e),
            Ok(_) => exists|ret: Result<(), T::Error>|
                #[trigger] fs0.writes(
                    number_of(args[0])->Ok_0 as usize,
                    number_of(args[1])->Ok_0 as u8,
                    &fs1,
                    ret,
                ) && done_outcome(ret, FileError::Write, cars, cdrs, below, new, r),
        },
        Primitive::DeleteFile => delete_outcome(cars, cdrs, args[0], below, new, r, fs0, fs1),
        Primitive::ExistsFile => exists_outcome(cars, cdrs, args[0], below, new, r, fs0, fs1),
        Primitive::FlushFile => match number_of(args[0]) {
            Err(e) => vm_fails(e),
            Ok(d) => exists|ret: Result<(), T::Error>|
                #[trigger] fs0.flushes(d as usize, &fs1, ret) && done_outcome(
                    ret,
                    FileError::Flush,
                    cars,
                    cdrs,
                    below,
                    new,
                    r,
                ),
        },
        Primitive::ReadFileBulk => match number_of(args[0]) {
            Err(e) => vm_fails(e),
            Ok(d) => match bytevector_range_spec(old, args[1], args[2], args[3]) {
                Err(e) => vm_fails(e),
                Ok((root, length, start, end)) => {
                    &&& start == end ==> fs1 == fs0 && pushed_value(cars, cdrs, below, Value::Number(0), new, r)
                    &&& bulk_read_calls(d as usize, (end - start) as nat, fs0, fs1)
                    &&& vector_ok(old, root, length as nat) ==> bulk_read_outcome(
                        old,
                        root,
                        length,
                        start,
                        end,
                        d as usize,
                        below,
                        new,
                        r,
                        fs0,
                        fs1,
                    )
                },
            },
        },
        Primitive::WriteFileBulk => match number_of(args[0]) {
            Err(e) => vm_fails(e),
            Ok(d) => match bytevector_range_spec(old, args[1], args[2], args[3]) {
                Err(e) => vm_fails(e),
                Ok((root, length, start, end)) => bulk_write_outcome(
                    old,
                    root,
                    length,
                    start,
                    end,
                    d as usize,
                    below,
                    new,
                    r,
                    fs0,
                    fs1,
                ),
            },
        },
    }
}

/// What a file primitive numbered `number` does to the heap `old`, where
/// the file system goes from `fs0` to `fs1`: `new` and `r` are the heap and
/// the result afterwards.
pub open spec fn file_outcome<T: FileSystem>(
    number: usize,
    old: Memory,
    new: Memory,
    r: Result<(), PrimitiveError>,
    fs0: T,
    fs1: T,
) -> bool {
    let cars = old.cars();
    let cdrs = old.cdrs();
    match primitive_spec(number) {
        None => r == Err::<(), PrimitiveError>(PrimitiveError::Vm(Error::IllegalPrimitive)) && holds(
            new,
            cars,
            cdrs,
            old.stack_cons(),
        ) && fs1 == fs0,
        Some(primitive) => {
            let p = pop_values(cars, cdrs, old.stack_cons(), arity(primitive));
            match p.0 {
                Err(e) => r == Err::<(), PrimitiveError>(PrimitiveError::Vm(e)) && holds(
                    new,
                    cars,
                    cdrs,
                    p.1,
                ) && fs1 == fs0,
                Ok(args) => arguments_outcome(primitive, old, args, p.1, new, r, fs0, fs1),
            }
        },
    }
}

/// True when the file primitive numbered `number`, run on the heap `old`,
/// gets as far as calling the file system: the primitive is known, its
/// arguments are on the stack and of the right kinds, and a bulk transfer
/// has a range that is not empty. Primitives that take a path may still
/// fail to decode it first.
pub open spec fn reaches_file_system(number: usize, old: Memory) -> bool {
    match primitive_spec(number) {
        None => false,
        Some(primitive) => match pop_values(old.cars(), old.cdrs(), old.stack_cons(), arity(primitive)).0 {
            Err(_) => false,
            Ok(args) => match primitive {
                Primitive::OpenFile | Primitive::DeleteFile | Primitive::ExistsFile => true,
                Primitive::WriteFile => numbers_of(args[0], args[1]) is Ok,
                Primitive::ReadFileBulk | Primitive::WriteFileBulk => number_of(args[0]) is Ok
                    && match bytevector_range_spec(old, args[1], args[2], args[3]) {
                    Ok((_, _, start, end)) => start < end,
                    Err(_) => false,
                },
                _ => number_of(args[0]) is Ok,
            },
        },
    }
}

/// Stores the first `read` bytes of `buffer`, which a read of the file
/// system filled, into the elements of a bytevector from `offset` on, where
/// the bytes `bytes` read before went into the elements from `start` on.
pub fn store_read(
    memory: &mut Memory,
    root: Cons,
    length: usize,
    start: usize,
    offset: usize,
    buffer: &[u8],
    read: usize,
    Ghost(mem0): Ghost<Memory>,
    Ghost(bytes): Ghost<Seq<u8>>,
) -> (r: Result<(), Error>)
    requires
        old(memory).wf(),
        mem0.wf(),
        old(memory).cdrs() == mem0.cdrs(),
        offset == start + bytes.len(),
        read <= buffer@.len(),
        offset + read <= length,
        vector_ok(mem0, root, length as nat) ==> old(memory).cars() == write_elements(
            mem0,
            root,
            length as nat,
            start as nat,
            bytes,
        ),
    ensures
        final(memory).wf(),
        final(memory).cdrs() == old(memory).cdrs(),
        final(memory).capacity() == old(memory).capacity(),
        final(memory).stack_cons() == old(memory).stack_cons(),
        vector_ok(mem0, root, length as nat) ==> r is Ok && final(memory).cars() == write_elements(
            mem0,
            root,
            length as nat,
            start as nat,
            bytes + buffer@.subrange(0, read as int),
        ),
{
    let ghost good = vector_ok(mem0, root, length as nat);
    let mut index: usize = 0;
    proof {
        assert(bytes + buffer@.subrange(0, 0) =~= bytes);
    }
    while index < read
        invariant
            memory.wf(),
            mem0.wf(),
            memory.cdrs() == mem0.cdrs(),
            memory.cdrs() == old(memory).cdrs(),
            memory.capacity() == old(memory).capacity(),
            memory.stack_cons() == old(memory).stack_cons(),
            offset == start + bytes.len(),
            read <= buffer@.len(),
            offset + read <= length,
            index <= read,
            good == vector_ok(mem0, root, length as nat),
            good ==> memory.cars() == write_elements(
                mem0,
                root,
                length as nat,
                start as nat,
                bytes + buffer@.subrange(0, index as int),
            ),
        decreases read - index,
    {
        let ghost before = bytes + buffer@.subrange(0, index as int);
        let ghost at = (offset + index) as nat;
        proof {
            if good {
                lemma_write_elements(mem0, root, length as nat, start as nat, before);
                lemma_list_vector_cell_frame(mem0, *memory, root, length as nat, at, VECTOR_FACTOR as nat);
                lemma_leaf_linked_ok(mem0, root, length as nat, at);
                lemma_element_cell(mem0, root, length as nat, at);
            }
        }
        bytevector_set(memory, root, length, offset + index, buffer[index])?;
        proof {
            let after = bytes + buffer@.subrange(0, index + 1);
            assert(after.drop_last() =~= before);
            assert(after.last() == buffer@[index as int]);
        }
        index = index + 1;
    }
    Ok(())
}

/// Returns the bytes of the `size` elements of a bytevector from `offset`
/// on, which a bulk write hands to the file system, or the error of the
/// first element that holds no byte.
pub fn chunk_bytes(memory: &Memory, root: Cons, length: usize, offset: usize, size: usize) -> (r: Result<
    Vec<u8>,
    Error,
>)
    requires
        memory.wf(),
        offset + size <= usize::MAX,
    ensures
        match r {
            Ok(v) => v@.len() == size && forall|i: int|
                0 <= i < size ==> file_byte_at(*memory, root, length as nat, (offset + i) as nat) == Ok::<
                    u8,
                    Error,
                >(#[trigger] v@[i]),
            Err(e) => exists|k: int|
                0 <= k < size && #[trigger] file_byte_at(*memory, root, length as nat, (offset + k) as nat)
                    == Err::<u8, Error>(e) && forall|i: int|
                    0 <= i < k ==> (#[trigger] file_byte_at(*memory, root, length as nat, (offset + i) as nat)) is Ok,
        },
{
    let mut buffer: Vec<u8> = Vec::new();
    let mut index: usize = 0;
    while index < size
        invariant
            memory.wf(),
            offset + size <= usize::MAX,
            index <= size,
            buffer@.len() == index,
            forall|i: int|
                0 <= i < index ==> file_byte_at(*memory, root, length as nat, (offset + i) as nat) == Ok::<
                    u8,
                    Error,
                >(#[trigger] buffer@[i]),
        decreases size - index,
    {
        let b = match bytevector_get(memory, root, length, offset + index) {
            Ok(b) => b,
            Err(e) => {
                proof {
                    let k = index as int;
                    assert(file_byte_at(*memory, root, length as nat, (offset + k) as nat) == Err::<u8, Error>(e));
                    assert forall|i: int| 0 <= i < k implies (#[trigger] file_byte_at(*memory, root, length as nat, (offset + i) as nat)) is Ok by {
                        assert(file_byte_at(*memory, root, length as nat, (offset + i) as nat) == Ok::<u8, Error>(buffer@[i]));
                    }
                }
                return Err(e);
            },
        };
        buffer.push(b);
        proof {
            assert forall|i: int|
                0 <= i < index + 1 implies file_byte_at(*memory, root, length as nat, (offset + i) as nat) == Ok::<
                    u8,
                    Error,
                >(#[trigger] buffer@[i]) by {
                if i < index {
                    assert(buffer@[i] == buffer@.drop_last()[i]);
                }
            }
        }
        index = index + 1;
    }
    Ok(buffer)
}

/// A primitive set for a file system.
pub struct FilePrimitiveSet<T: FileSystem> {
    file_system: T,
}

impl<T: FileSystem> FilePrimitiveSet<T> {
    /// The file system the primitives operate on.
    pub closed spec fn files(&self) -> T {
        self.file_system
    }

    /// Creates a primitive set over a file system.
    pub fn new(file_system: T) -> (r: Self)
        ensures
            r.files() == file_system,
    {
        Self { file_system }
    }

    /// Reads bytes from a file into the range `start..end` of a bytevector,
    /// a buffer at a time, until the range is full or a read comes up short,
    /// and pushes the number of bytes read.
    #[verifier::rlimit(100)]
    fn read_bulk(
        &mut self,
        memory: &mut Memory,
        descriptor: FileDescriptor,
        root: Cons,
        length: usize,
        start: usize,
        end: usize,
        Ghost(mem0): Ghost<Memory>,
    ) -> (r: Result<(), PrimitiveError>)
        requires
            old(memory).wf(),
            mem0.wf(),
            mem0.cars() == old(memory).cars(),
            mem0.cdrs() == old(memory).cdrs(),
            start <= end <= length,
        ensures
            final(memory).wf(),
            final(memory).capacity() == old(memory).capacity(),
            vector_ok(mem0, root, length as nat) ==> bulk_read_outcome(
                mem0,
                root,
                length,
                start,
                end,
                descriptor,
                old(memory).stack_cons(),
                *final(memory),
                r,
                old(self).file_system,
                final(self).file_system,
            ),
            start == end ==> *final(self) == *old(self) && pushed_value(
                old(memory).cars(),
                old(memory).cdrs(),
                old(memory).stack_cons(),
                Value::Number(0),
                *final(memory),
                r,
            ),
            r matches Err(PrimitiveError::File(e)) ==> e == FileError::Read,
            bulk_read_calls(descriptor, (end - start) as nat, old(self).file_system, final(self).file_system),
    {
        let ghost good = vector_ok(mem0, root, length as nat);
        let ghost total = (end - start) as nat;
        let ghost mut fss: Seq<T> = seq![self.file_system];
        let ghost mut bufs: Seq<Seq<u8>> = seq![];
        let ghost mut rets: Seq<Result<usize, T::Error>> = seq![];
        let ghost mut bytes: Seq<u8> = seq![];
        let mut offset = start;
        let mut count: usize = 0;
        let mut stopped = false;
        while offset < end && !stopped
            invariant
                memory.wf(),
                mem0.wf(),
                memory.cdrs() == mem0.cdrs(),
                memory.capacity() == old(memory).capacity(),
                memory.stack_cons() == old(memory).stack_cons(),
                start <= offset <= end <= length,
                offset == start + count,
                total == end - start,
                count == bytes.len(),
                rets.len() == bufs.len(),
                bytes == read_chunks(bufs, rets, rets.len()),
                read_trace(descriptor, total, fss, bufs, rets),
                fss[0] == old(self).file_system,
                fss.last() == self.file_system,
                forall|i: int| 0 <= i < rets.len() ==> (#[trigger] rets[i]) is Ok,
                !stopped && rets.len() > 0 ==> rets.last() == Ok::<usize, T::Error>(
                    chunk_size(total, read_chunks(bufs, rets, (rets.len() - 1) as nat).len()) as usize,
                ),
                stopped ==> rets.len() > 0 && rets.last()->Ok_0 < chunk_size(
                    total,
                    read_chunks(bufs, rets, (rets.len() - 1) as nat).len(),
                ),
                good == vector_ok(mem0, root, length as nat),
                good ==> memory.cars() == write_elements(mem0, root, length as nat, start as nat, bytes),
                start == end ==> *self == *old(self) && memory.cars() == mem0.cars(),
            decreases end - offset, if stopped {
                0int
            } else {
                1int
            },
        {
            let size = if end - offset < BULK_BUFFER_SIZE {
                end - offset
            } else {
                BULK_BUFFER_SIZE
            };
            let mut buffer: Vec<u8> = vec![0u8; size];
            proof {
                assert forall|j: int| 0 <= j < size implies buffer@[j] == 0u8 by {
                    assert(cloned(0u8, buffer@[j]));
                }
                assert(buffer@ =~= zeros(size as nat));
            }
            let ghost fs_before: T = self.file_system;
            let result = self.file_system.read_into(descriptor, buffer.as_mut_slice());
            proof {
                assert(reads_of::<T>(descriptor) =~= (|a: T, b: T, x: Result<Option<u8>, T::Error>|
                    a.reads(descriptor, &b, x)));
                assert(read_chunks(bufs, rets, rets.len()).len() == count);
                assert(read_into_done(
                    fs_before,
                    descriptor,
                    zeros(size as nat),
                    self.file_system,
                    buffer@,
                    result,
                )) by {
                    reveal(read_into_done);
                }
                lemma_read_trace_push(descriptor, total, fss, bufs, rets, self.file_system, buffer@, result);
                fss = fss.push(self.file_system);
                bufs = bufs.push(buffer@);
                rets = rets.push(result);
            }
            let read = match result {
                Ok(n) => n,
                Err(_) => {
                    proof {
                        let m = rets.len();
                        assert(read_chunks(bufs, rets, (m - 1) as nat) == bytes);
                        assert(rets[m - 1] is Err);
                        assert(fss[0] == old(self).file_system);
                        assert(fss.last() == self.file_system);
                        assert(read_trace(descriptor, total, fss, bufs, rets));
                        assert(read_trace(descriptor, (end - start) as nat, fss, bufs, rets));
                        if good {
                            assert(holds(
                                *memory,
                                write_elements(mem0, root, length as nat, start as nat, read_chunks(bufs, rets, (m - 1) as nat)),
                                mem0.cdrs(),
                                old(memory).stack_cons(),
                            ));
                            let rr = Err::<(), PrimitiveError>(PrimitiveError::File(FileError::Read));
                            assert(read_trace(descriptor, (end - start) as nat, fss, bufs, rets));
                            assert(bulk_read_outcome(
                                mem0,
                                root,
                                length,
                                start,
                                end,
                                descriptor,
                                old(memory).stack_cons(),
                                *memory,
                                rr,
                                old(self).file_system,
                                self.file_system,
                            ));
                        }
                    }
                    return Err(PrimitiveError::File(FileError::Read));
                },
            };
            match store_read(memory, root, length, start, offset, buffer.as_slice(), read, Ghost(mem0), Ghost(bytes)) {
                Ok(()) => {},
                Err(e) => {
                    proof {
                        assert(read_trace(descriptor, (end - start) as nat, fss, bufs, rets));
                    }
                    return Err(PrimitiveError::Vm(e));
                },
            }
            proof {
                let m = rets.len();
                assert(read_chunks(bufs, rets, (m - 1) as nat) == bytes);
                assert(bufs[m - 1] == buffer@);
                assert(rets[m - 1] == Ok::<usize, T::Error>(read));
                bytes = bytes + buffer@.subrange(0, read as int);
                assert(bytes == read_chunks(bufs, rets, m));
            }
            offset = offset + read;
            count = count + read;
            if read < size {
                stopped = true;
            }
        }
        let r = push(memory, Value::Number(count as i64));
        proof {
            assert(read_trace(descriptor, (end - start) as nat, fss, bufs, rets));
            if good {
                assert(read_trace(descriptor, total, fss, bufs, rets));
            }
        }
        r
    }

    /// Writes the bytes of the range `start..end` of a bytevector to a file, a
    /// buffer at a time, and pushes false.
    #[verifier::rlimit(100)]
    fn write_bulk(
        &mut self,
        memory: &mut Memory,
        descriptor: FileDescriptor,
        root: Cons,
        length: usize,
        start: usize,
        end: usize,
        Ghost(mem0): Ghost<Memory>,
    ) -> (r: Result<(), PrimitiveError>)
        requires
            old(memory).wf(),
            mem0.wf(),
            mem0.cars() == old(memory).cars(),
            mem0.cdrs() == old(memory).cdrs(),
            start <= end <= length,
        ensures
            final(memory).wf(),
            final(memory).capacity() == old(memory).capacity(),
            bulk_write_outcome(
                mem0,
                root,
                length,
                start,
                end,
                descriptor,
                old(memory).stack_cons(),
                *final(memory),
                r,
                old(self).file_system,
                final(self).file_system,
            ),
            start == end ==> *final(self) == *old(self) && pushed_value(
                old(memory).cars(),
                old(memory).cdrs(),
                old(memory).stack_cons(),
                Value::Cons(Memory::boolean_spec(false)),
                *final(memory),
                r,
            ),
            r matches Err(PrimitiveError::File(e)) ==> e == FileError::Write,
    {
        let ghost s0 = start as nat;
        let ghost e0 = end as nat;
        let ghost l0 = length as nat;
        let ghost total = (e0 - s0) as nat;
        let ghost mut fss: Seq<T> = seq![self.file_system];
        let ghost mut rets: Seq<Result<(), T::Error>> = seq![];
        let mut offset = start;
        while offset < end
            invariant
                memory.wf(),
                mem0.wf(),
                memory.cars() == mem0.cars(),
                memory.cdrs() == mem0.cdrs(),
                memory.capacity() == old(memory).capacity(),
                memory.stack_cons() == old(memory).stack_cons(),
                start <= offset <= end <= length,
                s0 == start,
                e0 == end,
                l0 == length,
                total == end - start,
                offset < end ==> offset - start == BULK_BUFFER_SIZE * rets.len(),
                offset == end ==> BULK_BUFFER_SIZE * rets.len() >= total,
                write_trace(mem0, root, l0, s0, e0, descriptor, fss, rets),
                fss[0] == old(self).file_system,
                fss.last() == self.file_system,
                forall|i: int| 0 <= i < rets.len() ==> (#[trigger] rets[i]) is Ok,
                start == end ==> *self == *old(self),
            decreases end - offset,
        {
            let size = if end - offset < BULK_BUFFER_SIZE {
                end - offset
            } else {
                BULK_BUFFER_SIZE
            };
            let ghost m = rets.len();
            proof {
                assert(chunk_size(total, (BULK_BUFFER_SIZE * m) as nat) == size);
                assert forall|i: int| 0 <= i < rets.len() implies #[trigger] write_from_done(
                    fss[i],
                    descriptor,
                    chunk_of(mem0, root, l0, (s0 + BULK_BUFFER_SIZE * i) as nat, chunk_size(total, (BULK_BUFFER_SIZE * i) as nat)),
                    fss[i + 1],
                    rets[i],
                ) by {}
            }
            let chunk = chunk_bytes(memory, root, length, offset, size);
            let buffer = match chunk {
                Ok(buffer) => buffer,
                Err(e) => {
                    proof {
                        let k = choose|k: int|
                            0 <= k < size && #[trigger] file_byte_at(
                                *memory,
                                root,
                                length as nat,
                                (offset + k) as nat,
                            ) == Err::<u8, Error>(e) && forall|i: int|
                                0 <= i < k ==> (#[trigger] file_byte_at(
                                    *memory,
                                    root,
                                    length as nat,
                                    (offset + i) as nat,
                                )) is Ok;
                        lemma_file_byte_at_same(*memory, mem0, root, length as nat, (offset + k) as nat);
                        assert forall|j: nat| j < k implies (#[trigger] file_byte_at(
                            mem0,
                            root,
                            length as nat,
                            offset as nat + j,
                        )) is Ok by {
                            lemma_file_byte_at_same(*memory, mem0, root, length as nat, offset as nat + j);
                            assert(file_byte_at(*memory, root, length as nat, (offset + j as int) as nat) is Ok);
                        }
                        let kk = k as nat;
                        let base = (s0 + BULK_BUFFER_SIZE * m) as nat;
                        assert(base == offset);
                        assert(file_byte_at(mem0, root, length as nat, base + kk) == Err::<u8, Error>(e));
                        assert(chunk_holds_bytes(mem0, root, length as nat, base, kk));
                        assert(kk < chunk_size(total, (BULK_BUFFER_SIZE * m) as nat));
                        assert(write_trace(mem0, root, l0, s0, e0, descriptor, fss, rets));
                    }
                    return Err(PrimitiveError::Vm(e));
                },
            };
            proof {
                assert forall|j: nat| j < size implies (#[trigger] file_byte_at(
                    mem0,
                    root,
                    length as nat,
                    offset as nat + j,
                )) is Ok by {
                    lemma_file_byte_at_same(*memory, mem0, root, length as nat, offset as nat + j);
                    assert(file_byte_at(*memory, root, length as nat, (offset + j as int) as nat) == Ok::<u8, Error>(buffer@[j as int]));
                }
                assert forall|j: int| 0 <= j < size implies buffer@[j] == chunk_of(
                    mem0,
                    root,
                    length as nat,
                    offset as nat,
                    size as nat,
                )[j] by {
                    lemma_file_byte_at_same(*memory, mem0, root, length as nat, (offset + j) as nat);
                    assert(file_byte_at(*memory, root, length as nat, (offset + j) as nat) == Ok::<u8, Error>(buffer@[j]));
                }
                assert(buffer@ =~= chunk_of(mem0, root, length as nat, offset as nat, size as nat));
            }
            let ghost fs_before: T = self.file_system;
            let written = self.file_system.write_from(descriptor, buffer.as_slice());
            proof {
                let fss2 = fss.push(self.file_system);
                let rets2 = rets.push(written);
                assert(writes_of::<T>(descriptor) =~= (|a: T, byte: u8, b: T, x: Result<(), T::Error>|
                    a.writes(descriptor, byte, &b, x)));
                assert(write_from_done(fs_before, descriptor, buffer@, self.file_system, written));
                assert forall|i: int| 0 <= i < m + 1 implies #[trigger] write_from_done(
                    fss2[i],
                    descriptor,
                    chunk_of(
                        mem0,
                        root,
                        l0,
                        (s0 + BULK_BUFFER_SIZE * i) as nat,
                        chunk_size(total, (BULK_BUFFER_SIZE * i) as nat),
                    ),
                    fss2[i + 1],
                    rets2[i],
                ) by {
                    if i < m {
                        assert(fss2[i] == fss[i] && fss2[i + 1] == fss[i + 1] && rets2[i] == rets[i]);
                        assert(write_from_done(
                            fss[i],
                            descriptor,
                            chunk_of(
                                mem0,
                                root,
                                l0,
                                (s0 + BULK_BUFFER_SIZE * i) as nat,
                                chunk_size(total, (BULK_BUFFER_SIZE * i) as nat),
                            ),
                            fss[i + 1],
                            rets[i],
                        ));
                    } else {
                        assert(fss2[i] == fs_before && fss2[i + 1] == self.file_system && rets2[i] == written);
                        assert((s0 + BULK_BUFFER_SIZE * i) as nat == offset);
                    }
                }
                assert forall|i: int| 0 <= i < m + 1 implies {
                    &&& BULK_BUFFER_SIZE * i < total
                    &&& chunk_holds_bytes(
                        mem0,
                        root,
                        l0,
                        (s0 + BULK_BUFFER_SIZE * i) as nat,
                        chunk_size(total, (BULK_BUFFER_SIZE * i) as nat),
                    )
                    &&& i < m + 1 - 1 ==> rets2[i] is Ok
                } by {
                    if i < m {
                        assert(rets2[i] == rets[i]);
                        assert(write_from_done(
                            fss[i],
                            descriptor,
                            chunk_of(
                                mem0,
                                root,
                                l0,
                                (s0 + BULK_BUFFER_SIZE * i) as nat,
                                chunk_size(total, (BULK_BUFFER_SIZE * i) as nat),
                            ),
                            fss[i + 1],
                            rets[i],
                        ));
                    } else {
                        assert((s0 + BULK_BUFFER_SIZE * i) as nat == offset);
                    }
                }
                assert(write_trace(mem0, root, l0, s0, e0, descriptor, fss2, rets2));
                fss = fss2;
                rets = rets2;
            }
            match written {
                Ok(unit) => {},
                Err(_) => {
                    proof {
                        assert(write_trace(mem0, root, l0, s0, e0, descriptor, fss, rets));
                    }
                    return Err(PrimitiveError::File(FileError::Write));
                },
            }
            offset = offset + size;
        }
        let r = push(memory, Value::Cons(memory.boolean(false)));
        proof {
            assert(write_trace(mem0, root, l0, s0, e0, descriptor, fss, rets));
        }
        r
    }

    /// Runs a file primitive, numbered as the variants of `Primitive` are
    /// declared, on the stack of the heap.
    #[verifier::rlimit(60)]
    pub fn operate(&mut self, memory: &mut Memory, primitive: usize) -> (r: Result<(), PrimitiveError>)
        requires
            old(memory).wf(),
        ensures
            final(memory).wf(),
            final(memory).capacity() == old(memory).capacity(),
            file_outcome(primitive, *old(memory), *final(memory), r, old(self).files(), final(self).files()),
            !reaches_file_system(primitive, *old(memory)) || r == Err::<(), PrimitiveError>(
                PrimitiveError::File(FileError::PathDecode),
            ) ==> final(self).files() == old(self).files(),
    {
        let p = match Primitive::from_number(primitive) {
            Some(p) => p,
            None => {
                return Err(PrimitiveError::Vm(Error::IllegalPrimitive));
            },
        };
        let false_value = Value::Cons(memory.boolean(false));
        let ghost cars = old(memory).cars();
        let ghost cdrs = old(memory).cdrs();
        let ghost fs0: T = self.file_system;
        match p {
            Primitive::OpenFile => {
                let args = vm(memory.pop_many(2))?;
                let ghost below = memory.stack_cons();
                let ghost popped = *memory;
                let decoded = T::decode_path(memory, args[0]);
                let ghost dec = decoded;
                proof {
                    assert(T::decodes_path(cars, cdrs, args@[0], dec));
                }
                let path = match decoded {
                    Ok(path) => path,
                    Err(_) => {
                        proof {
                            assert(open_outcome(cars, cdrs, args@[0], (args@[1] != Value::Cons(Memory::boolean_spec(false))), below, *memory, Err::<(), PrimitiveError>(PrimitiveError::File(FileError::PathDecode)), fs0, self.file_system));
                        }
                        return Err(PrimitiveError::File(FileError::PathDecode));
                    },
                };
                let output = args[1] != false_value;
                let opened = self.file_system.open(&path, output);
                let ghost ret = opened;
                let r = finish_open(memory, opened);
                proof {
                    assert(dec == Ok::<T::PathBuf, T::Error>(path));
                    assert(output == (args@[1] != Value::Cons(Memory::boolean_spec(false))));
                    assert(fs0.opens(path, output, &self.file_system, ret));
                    assert(opened_outcome(ret, cars, cdrs, below, *memory, r));
                    assert(open_outcome(cars, cdrs, args@[0], output, below, *memory, r, fs0, self.file_system));
                    assert(file_outcome(primitive, *old(memory), *memory, r, fs0, self.file_system));
                }
                r
            },
            Primitive::CloseFile => {
                let args = vm(memory.pop_many(1))?;
                let ghost below = memory.stack_cons();
                let descriptor = vm(expect_number(args[0]))?;
                let done = self.file_system.close(descriptor as usize);
                let ghost ret = done;
                let r = finish_done(memory, done, FileError::Close);
                proof {
                    assert(fs0.closes(descriptor as usize, &self.file_system, ret));
                    assert(done_outcome(ret, FileError::Close, cars, cdrs, below, *memory, r));
                    assert(file_outcome(primitive, *old(memory), *memory, r, fs0, self.file_system));
                }
                r
            },
            Primitive::ReadFile => {
                let args = vm(memory.pop_many(1))?;
                let ghost below = memory.stack_cons();
                let descriptor = vm(expect_number(args[0]))?;
                let read = self.file_system.read(descriptor as usize);
                let ghost ret = read;
                let r = finish_read(memory, read);
                proof {
                    assert(fs0.reads(descriptor as usize, &self.file_system, ret));
                    assert(read_outcome(ret, cars, cdrs, below, *memory, r));
                    assert(file_outcome(primitive, *old(memory), *memory, r, fs0, self.file_system));
                }
                r
            },
            Primitive::WriteFile => {
                let args = vm(memory.pop_many(2))?;
                let ghost below = memory.stack_cons();
                let descriptor = vm(expect_number(args[0]))?;
                let b = vm(expect_number(args[1]))?;
                let done = self.file_system.write(descriptor as usize, b as u8);
                let ghost ret = done;
                let r = finish_done(memory, done, FileError::Write);
                proof {
                    assert(fs0.writes(descriptor as usize, b as u8, &self.file_system, ret));
                    assert(done_outcome(ret, FileError::Write, cars, cdrs, below, *memory, r));
                    assert(file_outcome(primitive, *old(memory), *memory, r, fs0, self.file_system));
                }
                r
            },
            Primitive::DeleteFile => {
                let args = vm(memory.pop_many(1))?;
                let ghost below = memory.stack_cons();
                let ghost popped = *memory;
                let decoded = T::decode_path(memory, args[0]);
                let ghost dec = decoded;
                proof {
                    assert(T::decodes_path(cars, cdrs, args@[0], dec));
                }
                let path = match decoded {
                    Ok(path) => path,
                    Err(_) => {
                        proof {
                            assert(delete_outcome(cars, cdrs, args@[0], below, *memory, Err::<(), PrimitiveError>(PrimitiveError::File(FileError::PathDecode)), fs0, self.file_system));
                        }
                        return Err(PrimitiveError::File(FileError::PathDecode));
                    },
                };
                let done = self.file_system.delete(&path);
                let ghost ret = done;
                let r = finish_done(memory, done, FileError::Delete);
                proof {
                    assert(dec == Ok::<T::PathBuf, T::Error>(path));
                    assert(fs0.deletes(path, &self.file_system, ret));
                    assert(done_outcome(ret, FileError::Delete, cars, cdrs, below, *memory, r));
                    assert(delete_outcome(cars, cdrs, args@[0], below, *memory, r, fs0, self.file_system));
                    assert(file_outcome(primitive, *old(memory), *memory, r, fs0, self.file_system));
                }
                r
            },
            Primitive::ExistsFile => {
                let args = vm(memory.pop_many(1))?;
                let ghost below = memory.stack_cons();
                let ghost popped = *memory;
                let decoded = T::decode_path(memory, args[0]);
                let ghost dec = decoded;
                proof {
                    assert(T::decodes_path(cars, cdrs, args@[0], dec));
                }
                let path = match decoded {
                    Ok(path) => path,
                    Err(_) => {
                        proof {
                            assert(exists_outcome(cars, cdrs, args@[0], below, *memory, Err::<(), PrimitiveError>(PrimitiveError::File(FileError::PathDecode)), fs0, self.file_system));
                        }
                        return Err(PrimitiveError::File(FileError::PathDecode));
                    },
                };
                let found = self.file_system.file_exists(&path);
                let ghost ret = found;
                let r = finish_exists(memory, found);
                proof {
                    assert(dec == Ok::<T::PathBuf, T::Error>(path));
                    assert(fs0.answers_exists(path, ret));
                    assert(found_outcome(ret, cars, cdrs, below, *memory, r));
                    assert(exists_outcome(cars, cdrs, args@[0], below, *memory, r, fs0, self.file_system));
                    assert(file_outcome(primitive, *old(memory), *memory, r, fs0, self.file_system));
                }
                r
            },
            Primitive::FlushFile => {
                let args = vm(memory.pop_many(1))?;
                let ghost below = memory.stack_cons();
                let descriptor = vm(expect_number(args[0]))?;
                let done = self.file_system.flush(descriptor as usize);
                let ghost ret = done;
                let r = finish_done(memory, done, FileError::Flush);
                proof {
                    assert(fs0.flushes(descriptor as usize, &self.file_system, ret));
                    assert(done_outcome(ret, FileError::Flush, cars, cdrs, below, *memory, r));
                    assert(file_outcome(primitive, *old(memory), *memory, r, fs0, self.file_system));
                }
                r
            },
            Primitive::ReadFileBulk => {
                let args = vm(memory.pop_many(4))?;
                let descriptor = vm(expect_number(args[0]))?;
                let (root, length, start, end) = vm(bytevector_range(memory, args[1], args[2], args[3]))?;
                let r = self.read_bulk(memory, descriptor as usize, root, length, start, end, Ghost(*old(memory)));
                assert(file_outcome(primitive, *old(memory), *memory, r, fs0, self.file_system));
                r
            },
            Primitive::WriteFileBulk => {
                let args = vm(memory.pop_many(4))?;
                let descriptor = vm(expect_number(args[0]))?;
                let (root, length, start, end) = vm(bytevector_range(memory, args[1], args[2], args[3]))?;
                let r = self.write_bulk(memory, descriptor as usize, root, length, start, end, Ghost(*old(memory)));
                assert(file_outcome(primitive, *old(memory), *memory, r, fs0, self.file_system));
                r
            },
        }
    }
}

/// Looking a byte up reads only the cells of the heap.
proof fn lemma_file_byte_at_same(a: Memory, b: Memory, root: Cons, length: nat, index: nat)
    requires
        a.cars() == b.cars(),
        a.cdrs() == b.cdrs(),
    ensures
        file_byte_at(a, root, length, index) == file_byte_at(b, root, length, index),
{
}

/// One more call of `read_into`, handed the rest of the range, extends the
/// calls of a bulk read, and keeps the bytes of the calls before it.
#[verifier::rlimit(50)]
#[verifier::spinoff_prover]
proof fn lemma_read_trace_push<T: FileSystem>(
    descriptor: FileDescriptor,
    total: nat,
    fss: Seq<T>,
    bufs: Seq<Seq<u8>>,
    rets: Seq<Result<usize, T::Error>>,
    fs_after: T,
    buf: Seq<u8>,
    ret: Result<usize, T::Error>,
)
    requires
        read_trace(descriptor, total, fss, bufs, rets),
        rets.len() > 0 ==> rets.last() == Ok::<usize, T::Error>(
            chunk_size(total, read_chunks(bufs, rets, (rets.len() - 1) as nat).len()) as usize,
        ),
        read_chunks(bufs, rets, rets.len()).len() < total,
        read_into_done(
            fss.last(),
            descriptor,
            zeros(chunk_size(total, read_chunks(bufs, rets, rets.len()).len())),
            fs_after,
            buf,
            ret,
        ),
    ensures
        read_trace(descriptor, total, fss.push(fs_after), bufs.push(buf), rets.push(ret)),
        forall|j: nat|
            j <= rets.len() ==> #[trigger] read_chunks(bufs.push(buf), rets.push(ret), j) == read_chunks(
                bufs,
                rets,
                j,
            ),
{
    let m = rets.len();
    let fss2 = fss.push(fs_after);
    let bufs2 = bufs.push(buf);
    let rets2 = rets.push(ret);
    assert forall|j: nat| j <= m implies #[trigger] read_chunks(bufs2, rets2, j) == read_chunks(bufs, rets, j) by {
        lemma_read_chunks_push(bufs, rets, buf, ret, j);
    }
    assert forall|i: int| 0 <= i < rets2.len() implies #[trigger] read_call(
        descriptor,
        total,
        fss2,
        bufs2,
        rets2,
        i,
    ) by {
        assert(read_chunks(bufs2, rets2, i as nat) == read_chunks(bufs, rets, i as nat));
        if i < m {
            assert(read_call(descriptor, total, fss, bufs, rets, i));
            assert(rets[i] == rets2[i]);
            assert(fss2[i] == fss[i] && fss2[i + 1] == fss[i + 1] && bufs2[i] == bufs[i]);
        } else {
            assert(fss2[i] == fss.last() && fss2[i + 1] == fs_after && bufs2[i] == buf && rets2[i] == ret);
        }
    }
}

/// Adding one more call to the calls of a bulk read keeps the bytes of the
/// calls before it.
proof fn lemma_read_chunks_push<E>(
    bufs: Seq<Seq<u8>>,
    rets: Seq<Result<usize, E>>,
    buf: Seq<u8>,
    ret: Result<usize, E>,
    i: nat,
)
    requires
        i <= bufs.len(),
        bufs.len() == rets.len(),
    ensures
        read_chunks(bufs.push(buf), rets.push(ret), i) == read_chunks(bufs, rets, i),
    decreases i,
{
    if i > 0 {
        lemma_read_chunks_push(bufs, rets, buf, ret, (i - 1) as nat);
        assert(bufs.push(buf)[i - 1] == bufs[i - 1]);
        assert(rets.push(ret)[i - 1] == rets[i - 1]);
    }
}

} // verus!
