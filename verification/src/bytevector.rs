use vstd::prelude::*;
use crate::list_vector::{
    cursor_step, leaf_linked, list_vector_cell, list_vector_cell_spec, number_preserving, power,
    vector_height_spec, ListVectorCursor,
};
use crate::memory::{car_of, cdr_of, Memory};
use crate::value::{cons_of, expect_cons, expect_number, number_of, Cons, Error, Value};

verus! {

/// The tag that marks the root of a bytevector.
pub const BYTEVECTOR_TAG: u16 = 8;
/// The tag that marks the code point list of a string.
pub const STRING_TAG: u16 = 5;
/// The number of children of a node of a tree vector.
pub const VECTOR_FACTOR: usize = 64;

/// The non-negative integer an integer names, or `NumberExpected`.
pub open spec fn nonnegative_integer_spec(number: i64) -> Result<usize, Error> {
    if 0 <= number <= usize::MAX {
        Ok(number as usize)
    } else {
        Err(Error::NumberExpected)
    }
}

/// The byte an integer names, or `NumberExpected`.
pub open spec fn byte_spec(number: i64) -> Result<u8, Error> {
    if 0 <= number <= 255 {
        Ok(number as u8)
    } else {
        Err(Error::NumberExpected)
    }
}

/// Returns the non-negative integer an integer names.
pub fn nonnegative_integer(number: i64) -> (r: Result<usize, Error>)
    ensures
        r == nonnegative_integer_spec(number),
{
    if number < 0 {
        return Err(Error::NumberExpected);
    }
    let wide = number as u64;
    if wide as u128 > usize::MAX as u128 {
        return Err(Error::NumberExpected);
    }
    Ok(wide as usize)
}

/// Returns the byte an integer names.
pub fn byte(number: i64) -> (r: Result<u8, Error>)
    ensures
        r == byte_spec(number),
{
    let n = nonnegative_integer(number)?;
    if n > 255 {
        return Err(Error::NumberExpected);
    }
    Ok(n as u8)
}

/// The number of levels above the leaves of a bytevector of `length` bytes.
pub fn vector_height(length: usize) -> (r: usize)
    ensures
        r == vector_height_spec(VECTOR_FACTOR as nat, length as nat),
{
    let ghost f = VECTOR_FACTOR as nat;
    let mut height: usize = 0;
    let mut node_length = length;
    while node_length > VECTOR_FACTOR
        invariant
            f == VECTOR_FACTOR as nat,
            vector_height_spec(f, length as nat) == height + vector_height_spec(
                f,
                node_length as nat,
            ),
            height + node_length <= length,
        decreases node_length,
    {
        assert(((node_length - 1) as int) / (VECTOR_FACTOR as int) < node_length - 1)
            by (nonlinear_arith)
            requires
                node_length > VECTOR_FACTOR,
        ;
        node_length = 1 + (node_length - 1) / VECTOR_FACTOR;
        height = height + 1;
    }
    height
}

/// The number of elements a node `height` levels above the leaves holds,
/// saturated at `usize::MAX`.
pub open spec fn vector_capacity_spec(height: nat) -> nat {
    if power(VECTOR_FACTOR as nat, height) > usize::MAX {
        usize::MAX as nat
    } else {
        power(VECTOR_FACTOR as nat, height)
    }
}

/// Returns the number of elements a node `height` levels above the leaves
/// holds, saturated at `usize::MAX`.
pub fn vector_capacity(height: usize) -> (r: usize)
    ensures
        r == vector_capacity_spec(height as nat),
{
    let mut capacity: usize = 1;
    let mut i: usize = 0;
    while i < height
        invariant
            i <= height,
            capacity == vector_capacity_spec(i as nat),
        decreases height - i,
    {
        proof {
            let p = power(VECTOR_FACTOR as nat, i as nat);
            assert(power(VECTOR_FACTOR as nat, (i + 1) as nat) == VECTOR_FACTOR * p);
            if p > usize::MAX {
                assert(VECTOR_FACTOR * p > usize::MAX) by (nonlinear_arith)
                    requires
                        p > usize::MAX,
                ;
            }
        }
        capacity = match capacity.checked_mul(VECTOR_FACTOR) {
            Some(c) => c,
            None => usize::MAX,
        };
        i = i + 1;
    }
    capacity
}

/// The length a bytevector header holds, or the error reading it.
pub open spec fn bytevector_length_spec(memory: Memory, bytevector: Cons) -> Result<usize, Error> {
    match car_of(memory.cars(), bytevector) {
        Err(e) => Err(e),
        Ok(v) => match number_of(v) {
            Err(e) => Err(e),
            Ok(n) => nonnegative_integer_spec(n),
        },
    }
}

/// The root and length of a bytevector, or the error reading them.
pub open spec fn bytevector_info_spec(memory: Memory, value: Value) -> Result<(Value, usize), Error> {
    match cons_of(value) {
        Err(e) => Err(e),
        Ok(bytevector) => match cdr_of(memory.cdrs(), bytevector) {
            Err(e) => Err(e),
            Ok(root) => if root.tag_spec() != BYTEVECTOR_TAG {
                Err(Error::ConsExpected)
            } else {
                match bytevector_length_spec(memory, bytevector) {
                    Err(e) => Err(e),
                    Ok(length) => Ok((root, length)),
                }
            },
        },
    }
}

/// Returns the length a bytevector header holds.
pub fn bytevector_length(memory: &Memory, bytevector: Cons) -> (r: Result<usize, Error>)
    requires
        memory.wf(),
    ensures
        r == bytevector_length_spec(*memory, bytevector),
{
    let v = memory.car(bytevector)?;
    let n = expect_number(v)?;
    nonnegative_integer(n)
}

/// Returns the root and the length of a bytevector.
pub fn bytevector_info(memory: &Memory, value: Value) -> (r: Result<(Value, usize), Error>)
    requires
        memory.wf(),
    ensures
        r == bytevector_info_spec(*memory, value),
{
    let bytevector = expect_cons(value)?;
    let root = memory.cdr(bytevector)?;
    if root.tag() != BYTEVECTOR_TAG {
        return Err(Error::ConsExpected);
    }
    let length = bytevector_length(memory, bytevector)?;
    Ok((root, length))
}

/// The cell of element `index` of the bytevector rooted at `root`.
pub open spec fn byte_cell_spec(memory: Memory, root: Value, length: nat, index: nat) -> Result<
    Cons,
    Error,
> {
    match cons_of(root) {
        Err(e) => Err(e),
        Ok(root) => list_vector_cell_spec(memory, root, length, index, VECTOR_FACTOR as nat),
    }
}

/// The byte at `index` of the bytevector rooted at `root`, or the error
/// reading it.
pub open spec fn byte_at(memory: Memory, root: Value, length: nat, index: nat) -> Result<u8, Error> {
    match byte_cell_spec(memory, root, length, index) {
        Err(e) => Err(e),
        Ok(cell) => match car_of(memory.cars(), cell) {
            Err(e) => Err(e),
            Ok(v) => match number_of(v) {
                Err(e) => Err(e),
                Ok(n) => byte_spec(n),
            },
        },
    }
}

/// Returns the byte at an index of a bytevector.
pub fn bytevector_get(memory: &Memory, root: Value, length: usize, index: usize) -> (r: Result<
    u8,
    Error,
>)
    requires
        memory.wf(),
    ensures
        r == byte_at(*memory, root, length as nat, index as nat),
{
    let root = expect_cons(root)?;
    let cell = list_vector_cell::<VECTOR_FACTOR>(memory, root, length, index)?;
    let v = memory.car(cell)?;
    let n = expect_number(v)?;
    byte(n)
}

/// Replaces the byte at an index of a bytevector.
pub fn bytevector_set(
    memory: &mut Memory,
    root: Value,
    length: usize,
    index: usize,
    b: u8,
) -> (r: Result<(), Error>)
    requires
        old(memory).wf(),
    ensures
        final(memory).wf(),
        final(memory).cdrs() == old(memory).cdrs(),
        final(memory).capacity() == old(memory).capacity(),
        final(memory).stack_cons() == old(memory).stack_cons(),
        match byte_cell_spec(*old(memory), root, length as nat, index as nat) {
            Err(e) => r == Err::<(), Error>(e) && final(memory).cars() == old(memory).cars(),
            Ok(cell) => if cell.index < old(memory).size() {
                r is Ok && final(memory).cars() == old(memory).cars().update(
                    cell.index as int,
                    Value::Number(b as i64),
                )
            } else {
                r == Err::<(), Error>(Error::InvalidMemoryAccess) && final(memory).cars() == old(
                    memory,
                ).cars()
            },
        },
{
    let root = expect_cons(root)?;
    let cell = list_vector_cell::<VECTOR_FACTOR>(memory, root, length, index)?;
    memory.set_car(cell, Value::Number(b as i64))
}

/// The cell of element `index` of the bytevector tree rooted at `root`.
#[verifier::opaque]
pub open spec fn element_cell(memory: Memory, root: Cons, length: nat, index: nat) -> Cons {
    list_vector_cell_spec(memory, root, length, index, VECTOR_FACTOR as nat)->Ok_0
}

/// The tree rooted at `root` is a well-formed bytevector of `length`
/// elements: every element has its own cell in the heap, holding an integer,
/// and the cells of each leaf are linked in order.
#[verifier::opaque]
pub open spec fn vector_ok(memory: Memory, root: Cons, length: nat) -> bool {
    &&& leaf_linked(memory, root, length, VECTOR_FACTOR as nat)
    &&& forall|i: nat|
        i < length ==> (#[trigger] element_cell(memory, root, length, i)).index < memory.size()
    &&& forall|i: nat|
        i < length ==> memory.cars()[(#[trigger] element_cell(memory, root, length, i)).index as int] is Number
    &&& forall|i: nat, j: nat|
        i < length && j < length && i != j ==> (#[trigger] element_cell(memory, root, length, i)).index
            != (#[trigger] element_cell(memory, root, length, j)).index
}

/// True when heap cell `k` is the cell of an element of the bytevector.
pub open spec fn is_element_cell(memory: Memory, root: Cons, length: nat, k: int) -> bool {
    exists|i: nat| i < length && (#[trigger] element_cell(memory, root, length, i)).index == k
}

/// The cars of `memory` after `bytes` are written into the elements of the
/// bytevector from `position` on.
pub open spec fn write_elements(
    memory: Memory,
    root: Cons,
    length: nat,
    position: nat,
    bytes: Seq<u8>,
) -> Seq<Value>
    decreases bytes.len(),
{
    if bytes.len() == 0 {
        memory.cars()
    } else {
        write_elements(memory, root, length, position, bytes.drop_last()).update(
            element_cell(memory, root, length, (position + bytes.len() - 1) as nat).index as int,
            Value::Number(bytes.last() as i64),
        )
    }
}

/// Writing bytes into a well-formed bytevector changes integers into
/// integers, and only in the cells of the elements written.
pub proof fn lemma_write_elements(
    memory: Memory,
    root: Cons,
    length: nat,
    position: nat,
    bytes: Seq<u8>,
)
    requires
        memory.wf(),
        vector_ok(memory, root, length),
        position + bytes.len() <= length,
    ensures
        number_preserving(memory.cars(), write_elements(memory, root, length, position, bytes)),
        forall|k: int|
            0 <= k < memory.size() && !is_element_cell(memory, root, length, k) ==> (
            #[trigger] write_elements(memory, root, length, position, bytes)[k]) == memory.cars()[k],
    decreases bytes.len(),
{
    reveal(vector_ok);
    if bytes.len() > 0 {
        let rest = bytes.drop_last();
        lemma_write_elements(memory, root, length, position, rest);
        let i = (position + bytes.len() - 1) as nat;
        let cell = element_cell(memory, root, length, i);
        let prev = write_elements(memory, root, length, position, rest);
        let now = write_elements(memory, root, length, position, bytes);
        assert(cell.index < memory.size());
        assert(memory.cars()[cell.index as int] is Number);
        assert(is_element_cell(memory, root, length, cell.index as int));
        assert forall|k: int|
            0 <= k < memory.cars().len() && ((#[trigger] memory.cars()[k]) is Cons || now[k] is Cons)
                implies now[k] == memory.cars()[k] by {
            if k != cell.index as int {
                assert(now[k] == prev[k]);
            }
        }
    }
}

/// The cursor stands at element `index` of the bytevector tree rooted at
/// `root` and holds its cell, if there is one.
pub open spec fn cursor_on(
    cursor: ListVectorCursor<VECTOR_FACTOR>,
    memory: Memory,
    root: Cons,
    length: nat,
    index: nat,
) -> bool {
    &&& cursor.root() == root
    &&& cursor.length() == length
    &&& cursor.index() == index
    &&& index < length ==> cursor.cell() == element_cell(memory, root, length, index)
}

/// In a well-formed bytevector every element has a cell.
pub proof fn lemma_leaf_linked_ok(memory: Memory, root: Cons, length: nat, index: nat)
    requires
        vector_ok(memory, root, length),
    ensures
        index < length ==> list_vector_cell_spec(memory, root, length, index, VECTOR_FACTOR as nat)
            == Ok::<Cons, Error>(element_cell(memory, root, length, index)),
{
    reveal(vector_ok);
    reveal(element_cell);
    if index < length {
        assert(list_vector_cell_spec(memory, root, length, index, VECTOR_FACTOR as nat) is Ok);
    }
}

/// In a well-formed bytevector a cursor that holds the cell of its element
/// yields that cell and moves on to the next element.
pub proof fn lemma_leaf_linked_step(memory: Memory, root: Cons, length: nat, index: nat)
    requires
        vector_ok(memory, root, length),
        index < length,
    ensures
        element_cell(memory, root, length, index).index < memory.size(),
        cursor_step(
            memory,
            root,
            length,
            index,
            element_cell(memory, root, length, index),
            VECTOR_FACTOR as nat,
        ) == Ok::<(Cons, nat, Cons), Error>(
            (
                element_cell(memory, root, length, index),
                index + 1,
                if index + 1 < length {
                    element_cell(memory, root, length, index + 1)
                } else {
                    element_cell(memory, root, length, index)
                },
            ),
        ),
{
    reveal(vector_ok);
    let next = index + 1;
    if next < length {
        lemma_leaf_linked_ok(memory, root, length, next);
        lemma_leaf_linked_ok(memory, root, length, index);
        if !crate::list_vector::is_multiple(next, VECTOR_FACTOR as nat) {
            assert(crate::memory::next_of(
                memory.cdrs(),
                list_vector_cell_spec(memory, root, length, (next - 1) as nat, VECTOR_FACTOR as nat)->Ok_0,
            ) == list_vector_cell_spec(memory, root, length, next, VECTOR_FACTOR as nat));
        }
    }
}

/// The bytes of the `n` elements of the bytevector from `start` on, or the
/// error of the first element that holds no byte.
pub open spec fn element_bytes(memory: Memory, root: Cons, length: nat, start: nat, n: nat) -> Result<
    Seq<u8>,
    Error,
>
    decreases n,
{
    if n == 0 {
        Ok(seq![])
    } else {
        match element_bytes(memory, root, length, start, (n - 1) as nat) {
            Err(e) => Err(e),
            Ok(bytes) => match number_of(
                memory.cars()[element_cell(memory, root, length, (start + n - 1) as nat).index as int],
            ) {
                Err(e) => Err(e),
                Ok(v) => match byte_spec(v) {
                    Err(e) => Err(e),
                    Ok(b) => Ok(bytes.push(b)),
                },
            },
        }
    }
}

/// Once reading the bytes of a bytevector fails, reading more fails alike.
pub proof fn lemma_element_bytes_error(memory: Memory, root: Cons, length: nat, start: nat, j: nat, n: nat)
    requires
        j <= n,
        element_bytes(memory, root, length, start, j) is Err,
    ensures
        element_bytes(memory, root, length, start, n) == element_bytes(memory, root, length, start, j),
    decreases n,
{
    if j < n {
        lemma_element_bytes_error(memory, root, length, start, j, (n - 1) as nat);
    }
}

/// Reads `n` bytes of a bytevector from `start` on through a cursor; the
/// heap `mem0` has the same cells as `memory`.
pub fn read_elements(
    memory: &Memory,
    root_value: Value,
    length: usize,
    start: usize,
    n: usize,
    Ghost(good): Ghost<bool>,
    Ghost(mem0): Ghost<Memory>,
) -> (r: Result<Vec<u8>, Error>)
    requires
        memory.wf(),
        mem0.cars() == memory.cars(),
        mem0.cdrs() == memory.cdrs(),
        n > 0,
        start + n <= length,
        root_value is Cons,
        good ==> vector_ok(mem0, root_value->Cons_0, length as nat),
    ensures
        r matches Ok(v) ==> v@.len() == n,
        good ==> match element_bytes(mem0, root_value->Cons_0, length as nat, start as nat, n as nat) {
            Ok(bytes) => r matches Ok(v) && v@ == bytes,
            Err(e) => r == Err::<Vec<u8>, Error>(e),
        },
{
    let ghost root = root_value->Cons_0;
    let root_cons = expect_cons(root_value)?;
    proof {
        if good {
            lemma_leaf_linked_ok(mem0, root, length as nat, start as nat);
        }
        crate::list_vector::lemma_list_vector_cell_frame(
            mem0,
            *memory,
            root,
            length as nat,
            start as nat,
            VECTOR_FACTOR as nat,
        );
    }
    let mut cursor = ListVectorCursor::<VECTOR_FACTOR>::new(memory, root_cons, length, start)?;
    let mut bytes: Vec<u8> = Vec::new();
    let mut k: usize = 0;
    while k < n
        invariant
            memory.wf(),
            mem0.cars() == memory.cars(),
            mem0.cdrs() == memory.cdrs(),
            k <= n,
            start + n <= length,
            root == root_value->Cons_0,
            bytes@.len() == k,
            good ==> vector_ok(mem0, root, length as nat),
            good ==> cursor_on(cursor, mem0, root, length as nat, (start + k) as nat),
            good ==> element_bytes(mem0, root, length as nat, start as nat, k as nat) == Ok::<
                Seq<u8>,
                Error,
            >(bytes@),
        decreases n - k,
    {
        proof {
            if good {
                lemma_leaf_linked_step(mem0, root, length as nat, (start + k) as nat);
            }
            crate::list_vector::lemma_cursor_step_frame(
                mem0,
                *memory,
                cursor.root(),
                cursor.length(),
                cursor.index(),
                cursor.cell(),
                VECTOR_FACTOR as nat,
            );
        }
        let cell = cursor.next(memory)?;
        let v = memory.car(cell)?;
        let value = match expect_number(v) {
            Ok(x) => x,
            Err(e) => {
                proof {
                    if good {
                        lemma_element_bytes_error(mem0, root, length as nat, start as nat, (k + 1) as nat, n as nat);
                    }
                }
                return Err(e);
            },
        };
        let b = match byte(value) {
            Ok(x) => x,
            Err(e) => {
                proof {
                    if good {
                        lemma_element_bytes_error(mem0, root, length as nat, start as nat, (k + 1) as nat, n as nat);
                    }
                }
                return Err(e);
            },
        };
        bytes.push(b);
        k = k + 1;
    }
    Ok(bytes)
}

/// Takes the next cell of a cursor and writes a byte into it.
pub fn write_next(
    memory: &mut Memory,
    cursor: &mut ListVectorCursor<VECTOR_FACTOR>,
    b: u8,
) -> (r: Result<(), Error>)
    requires
        old(memory).wf(),
    ensures
        final(memory).wf(),
        final(memory).cdrs() == old(memory).cdrs(),
        final(memory).capacity() == old(memory).capacity(),
        final(memory).stack_cons() == old(memory).stack_cons(),
        final(cursor).root() == old(cursor).root(),
        final(cursor).length() == old(cursor).length(),
        match cursor_step(
            *old(memory),
            old(cursor).root(),
            old(cursor).length(),
            old(cursor).index(),
            old(cursor).cell(),
            VECTOR_FACTOR as nat,
        ) {
            Err(e) => r == Err::<(), Error>(e) && final(memory).cars() == old(memory).cars(),
            Ok((y, i, c)) => final(cursor).index() == i && final(cursor).cell() == c && if y.index
                < old(memory).size() {
                r is Ok && final(memory).cars() == old(memory).cars().update(
                    y.index as int,
                    Value::Number(b as i64),
                )
            } else {
                r == Err::<(), Error>(Error::InvalidMemoryAccess) && final(memory).cars() == old(
                    memory,
                ).cars()
            },
        },
{
    let cell = cursor.next(memory)?;
    memory.set_car(cell, Value::Number(b as i64))
}

} // verus!


verus! {

/// The byte that element `index` of a bytevector holds, or the error
/// reading it.
pub open spec fn element_byte(memory: Memory, root: Cons, length: nat, index: nat) -> Result<u8, Error> {
    match car_of(memory.cars(), element_cell(memory, root, length, index)) {
        Err(e) => Err(e),
        Ok(v) => match number_of(v) {
            Err(e) => Err(e),
            Ok(n) => byte_spec(n),
        },
    }
}

/// True when heap cell `k` is the cell of one of the `count` elements of the
/// bytevector from `position` on.
pub open spec fn in_written_range(memory: Memory, root: Cons, length: nat, position: nat, count: nat, k: int) -> bool {
    exists|i: nat|
        position <= i < position + count && (#[trigger] element_cell(memory, root, length, i)).index == k
}

/// Writing bytes into a well-formed bytevector puts each byte into the cell
/// of its element and leaves every other cell as it was.
pub proof fn lemma_write_elements_at(
    memory: Memory,
    root: Cons,
    length: nat,
    position: nat,
    bytes: Seq<u8>,
)
    requires
        memory.wf(),
        vector_ok(memory, root, length),
        position + bytes.len() <= length,
    ensures
        write_elements(memory, root, length, position, bytes).len() == memory.cars().len(),
        forall|i: nat|
            position <= i < position + bytes.len() ==> write_elements(memory, root, length, position, bytes)[(#[trigger] element_cell(
                memory,
                root,
                length,
                i,
            )).index as int] == Value::Number(bytes[i - position] as i64),
        forall|k: int|
            0 <= k < memory.cars().len() && !in_written_range(memory, root, length, position, bytes.len(), k)
                ==> (#[trigger] write_elements(memory, root, length, position, bytes)[k]) == memory.cars()[k],
    decreases bytes.len(),
{
    if bytes.len() > 0 {
        let rest = bytes.drop_last();
        lemma_write_elements_at(memory, root, length, position, rest);
        let last = (position + bytes.len() - 1) as nat;
        let cell = element_cell(memory, root, length, last);
        lemma_element_cell(memory, root, length, last);
        let prev = write_elements(memory, root, length, position, rest);
        let now = write_elements(memory, root, length, position, bytes);
        assert forall|i: nat| position <= i < position + bytes.len() implies now[(#[trigger] element_cell(
            memory,
            root,
            length,
            i,
        )).index as int] == Value::Number(bytes[i - position] as i64) by {
            lemma_element_cell(memory, root, length, i);
            if i < last {
                lemma_distinct_cells(memory, root, length, i, last);
                assert(rest[i - position] == bytes[i - position]);
                assert(prev[element_cell(memory, root, length, i).index as int] == Value::Number(rest[i - position] as i64));
            } else {
                assert(i == last);
                assert(bytes[i - position] == bytes.last());
            }
        }
        assert forall|k: int|
            0 <= k < memory.cars().len() && !in_written_range(memory, root, length, position, bytes.len(), k)
                implies (#[trigger] now[k]) == memory.cars()[k] by {
            if k == cell.index {
                assert(in_written_range(memory, root, length, position, bytes.len(), k));
            }
            if in_written_range(memory, root, length, position, rest.len(), k) {
                let i = choose|i: nat| position <= i < position + rest.len() && (#[trigger] element_cell(memory, root, length, i)).index == k;
                assert(in_written_range(memory, root, length, position, bytes.len(), k));
            }
        }
    }
}

} // verus!

verus! {

/// The cell of an element of a well-formed bytevector is in the heap and
/// holds an integer.
pub proof fn lemma_element_cell(memory: Memory, root: Cons, length: nat, i: nat)
    requires
        vector_ok(memory, root, length),
        i < length,
    ensures
        element_cell(memory, root, length, i).index < memory.size(),
        memory.cars()[element_cell(memory, root, length, i).index as int] is Number,
{
    reveal(vector_ok);
}

/// Distinct elements of a well-formed bytevector have distinct cells.
pub proof fn lemma_distinct_cells(memory: Memory, root: Cons, length: nat, i: nat, j: nat)
    requires
        vector_ok(memory, root, length),
        i < length,
        j < length,
        i != j,
    ensures
        element_cell(memory, root, length, i).index != element_cell(memory, root, length, j).index,
{
    reveal(vector_ok);
}

/// Reading an element of a well-formed bytevector after `bytevector_set`
/// wrote a byte into element `i` gives that byte at `i` and what the element
/// held before anywhere else; the bytevector stays well formed.
pub proof fn lemma_read_after_write(old: Memory, new: Memory, root: Cons, length: nat, i: nat, j: nat, b: u8)
    requires
        old.wf(),
        vector_ok(old, root, length),
        i < length,
        j < length,
        new.cdrs() == old.cdrs(),
        byte_cell_spec(old, Value::Cons(root), length, i) matches Ok(cell) && new.cars() == old.cars().update(
            cell.index as int,
            Value::Number(b as i64),
        ),
    ensures
        byte_at(new, Value::Cons(root), length, j) == if i == j {
            Ok::<u8, Error>(b)
        } else {
            byte_at(old, Value::Cons(root), length, j)
        },
        vector_ok(new, root, length),
{
    lemma_leaf_linked_ok(old, root, length, i);
    lemma_leaf_linked_ok(old, root, length, j);
    lemma_element_cell(old, root, length, i);
    lemma_element_cell(old, root, length, j);
    let cell = element_cell(old, root, length, i);
    assert(number_preserving(old.cars(), new.cars()));
    assert forall|k: nat| #[trigger] list_vector_cell_spec(new, root, length, k, VECTOR_FACTOR as nat)
        == list_vector_cell_spec(old, root, length, k, VECTOR_FACTOR as nat) by {
        crate::list_vector::lemma_list_vector_cell_frame(old, new, root, length, k, VECTOR_FACTOR as nat);
    }
    if i != j {
        lemma_distinct_cells(old, root, length, i, j);
    }
    assert forall|k: nat| #[trigger] element_cell(new, root, length, k) == element_cell(old, root, length, k) by {
        reveal(element_cell);
    }
    reveal(vector_ok);
    assert forall|k: nat| k < length implies new.cars()[(#[trigger] element_cell(new, root, length, k)).index as int] is Number by {
        assert(element_cell(new, root, length, k) == element_cell(old, root, length, k));
    }
    assert(leaf_linked(new, root, length, VECTOR_FACTOR as nat));
}

} // verus!
