use vstd::prelude::*;
use vstd::utf8::{encode_scalar, is_scalar};
use crate::bytevector::{
    bytevector_info, bytevector_info_spec, cursor_on, element_cell, lemma_leaf_linked_ok,
    lemma_leaf_linked_step, is_element_cell, lemma_write_elements,
    nonnegative_integer, nonnegative_integer_spec, vector_ok, write_elements, write_next,
    VECTOR_FACTOR,
};
use crate::codec::{
    code_point_spec, decode_stream, encode_all, encode_utf8_code_point, lemma_decode_stream_encoded,
};
use crate::list::{lemma_list_steps, list_ends, list_steps, stops_within, walk};
use crate::list_vector::{
    cursor_step, is_multiple, lemma_cursor_step_frame, list_vector_cell_spec, ListVectorCursor,
};
use crate::memory::{
    allocate_push_outcome, holds, lemma_tail_of_step, pop_values, push_outcome, tail_of, Memory,
    NULL_INDEX,
};
use crate::value::{cons_of, expect_cons, expect_number, number_of, Cons, Error, Value};

verus! {

/// Adds the UTF-8 lengths of the scalars `values` name to `acc`, in order:
/// the total, or `NumberExpected` at the first value that names no scalar
/// or at the first partial total beyond `usize::MAX`.
pub open spec fn utf8_length_fold(values: Seq<Value>, acc: nat) -> Result<nat, Error>
    decreases values.len(),
{
    if values.len() == 0 {
        Ok(acc)
    } else {
        match number_of(values[0]) {
            Err(e) => Err(e),
            Ok(n) => match code_point_spec(n) {
                Err(e) => Err(e),
                Ok(c) => {
                    let next = acc + encode_scalar(c).len();
                    if next > usize::MAX {
                        Err(Error::NumberExpected)
                    } else {
                        utf8_length_fold(values.drop_first(), next)
                    }
                },
            },
        }
    }
}

/// The UTF-8 length of the code points a walked list holds, added to `acc`,
/// or the first error in reading or measuring them.
pub open spec fn utf8_length_outcome(walked: (Seq<Value>, Result<(), Error>), acc: nat) -> Result<
    nat,
    Error,
> {
    match utf8_length_fold(walked.0, acc) {
        Err(e) => Err(e),
        Ok(total) => match walked.1 {
            Err(e) => Err(e),
            Ok(_) => Ok(total),
        },
    }
}

/// The argument lists the primitives read end rather than run in a cycle.
pub open spec fn list_argument_ends(memory: Memory, argument: Value) -> bool {
    match cons_of(argument) {
        Ok(c) => list_ends(memory.cdrs(), c),
        Err(_) => true,
    }
}

/// What `utf8_encoded_length` does to the heap `old`: `new` and `r` are the heap and the
/// result afterwards.
pub open spec fn utf8_encoded_length_outcome(old: Memory, new: Memory, r: Result<(), Error>) -> bool {
    let cars = old.cars();
    let cdrs = old.cdrs();
    let p = pop_values(cars, cdrs, old.stack_cons(), 1);
    match p.0 {
        Err(e) => r == Err::<(), Error>(e) && holds(new, cars, cdrs, p.1),
        Ok(args) => match cons_of(args[0]) {
            Err(e) => r == Err::<(), Error>(e) && holds(new, cars, cdrs, p.1),
            Ok(list) => match utf8_length_outcome(
                walk(cars, cdrs, list, list_steps(cdrs, list)),
                0,
            ) {
                Err(e) => r == Err::<(), Error>(e) && holds(new, cars, cdrs, p.1),
                Ok(total) => if total > i64::MAX {
                    r == Err::<(), Error>(Error::NumberExpected) && holds(
                        new,
                        cars,
                        cdrs,
                        p.1,
                    )
                } else {
                    push_outcome(
                        cars,
                        cdrs,
                        p.1,
                        Value::Number(total as i64),
                        new,
                        r,
                    )
                },
            },
        },
    }
}

/// Measures the UTF-8 encoding of a list of code points: takes the list from
/// the stack and pushes the number of bytes its encoding takes.
pub fn utf8_encoded_length(memory: &mut Memory) -> (r: Result<(), Error>)
    requires
        old(memory).wf(),
        pop_values(old(memory).cars(), old(memory).cdrs(), old(memory).stack_cons(), 1).0 matches Ok(
            args,
        ) ==> list_argument_ends(*old(memory), args[0]),
    ensures
        final(memory).wf(),
        final(memory).capacity() == old(memory).capacity(),
        utf8_encoded_length_outcome(*old(memory), *final(memory), r),
{
    let ghost cars = memory.cars();
    let ghost cdrs = memory.cdrs();
    let ghost capacity = memory.capacity();
    let args = memory.pop_many(1)?;
    let ghost below = memory.stack_cons();
    let mut code_points = expect_cons(args[0])?;
    let ghost start = code_points;
    let ghost mut m = list_steps(cdrs, code_points);
    proof {
        lemma_list_steps(cdrs, code_points);
    }
    let ghost goal = utf8_length_outcome(walk(cars, cdrs, start, m), 0);
    assert(goal == utf8_length_outcome(walk(cars, cdrs, start, list_steps(cdrs, start)), 0));
    let mut length: usize = 0;
    while code_points.index != NULL_INDEX
        invariant
            memory.wf(),
            memory.cars() == cars,
            memory.cdrs() == cdrs,
            memory.capacity() == capacity,
            memory.stack_cons() == below,
            cars == old(memory).cars(),
            cdrs == old(memory).cdrs(),
            capacity == old(memory).capacity(),
            below == pop_values(cars, cdrs, old(memory).stack_cons(), 1).1,
            pop_values(cars, cdrs, old(memory).stack_cons(), 1).0 == Ok::<Seq<Value>, Error>(args@),
            cons_of(args@[0]) == Ok::<crate::value::Cons, Error>(start),
            goal == utf8_length_outcome(walk(cars, cdrs, start, list_steps(cdrs, start)), 0),
            stops_within(cdrs, code_points, m),
            goal == utf8_length_outcome(walk(cars, cdrs, code_points, m), length as nat),
        decreases m,
    {
        let v = memory.car(code_points)?;
        let n = expect_number(v)?;
        let mut buffer = [0u8; 4];
        let size = encode_utf8_code_point(n, &mut buffer)?;
        length = match length.checked_add(size) {
            Some(l) => l,
            None => {
                return Err(Error::NumberExpected);
            },
        };
        assert(seq![v].drop_first() =~= Seq::<Value>::empty());
        assert(utf8_length_fold(seq![v].drop_first(), length as nat) == Ok::<nat, Error>(
            length as nat,
        ));
        let next = memory.next(code_points)?;
        proof {
            let rest = walk(cars, cdrs, next, (m - 1) as nat);
            assert((seq![v] + rest.0).drop_first() =~= rest.0);
        }
        code_points = next;
        proof {
            m = (m - 1) as nat;
        }
    }
    if length as u64 > i64::MAX as u64 {
        return Err(Error::NumberExpected);
    }
    memory.push(Value::Number(length as i64))
}

/// Encodes the scalars `values` name, in order, while their bytes fit in
/// `room`, after `count` values already encoded into `bytes`: the number of
/// values encoded, all the bytes, and whether encoding stopped for want of
/// room, or the error of the first value that names no scalar.
pub open spec fn encode_fold(values: Seq<Value>, room: nat, count: nat, bytes: Seq<u8>) -> (
    nat,
    Seq<u8>,
    Result<bool, Error>,
)
    decreases values.len(),
{
    if values.len() == 0 {
        (count, bytes, Ok(false))
    } else {
        match number_of(values[0]) {
            Err(e) => (count, bytes, Err(e)),
            Ok(n) => match code_point_spec(n) {
                Err(e) => (count, bytes, Err(e)),
                Ok(c) => {
                    let b = encode_scalar(c);
                    if b.len() > room {
                        (count, bytes, Ok(true))
                    } else {
                        encode_fold(values.drop_first(), (room - b.len()) as nat, count + 1, bytes + b)
                    }
                },
            },
        }
    }
}

/// The scalars that the first `count` of `values` name, read as numbers.
spec fn scalars_of(values: Seq<Value>, count: nat) -> Seq<u32> {
    Seq::new(count, |i: int| number_of(values[i])->Ok_0 as u32)
}

/// What `encode_fold` does, stated of its result: it encodes a prefix of
/// `values`, every one of which names a scalar, appends exactly their UTF-8
/// encodings, uses no more than `room` bytes, and stops before the end only
/// at a value whose encoding no longer fits or that names no scalar.
proof fn lemma_encode_fold_shape(values: Seq<Value>, room: nat, count: nat, bytes: Seq<u8>)
    ensures
        ({
            let f = encode_fold(values, room, count, bytes);
            let taken = (f.0 - count) as nat;
            &&& count <= f.0 <= count + values.len()
            &&& f.1 == bytes + encode_all(scalars_of(values, taken))
            &&& f.1.len() <= bytes.len() + room
            &&& forall|i: int|
                0 <= i < taken ==> is_scalar(#[trigger] scalars_of(values, taken)[i])
                    && number_of(values[i]) == Ok::<i64, Error>(
                    scalars_of(values, taken)[i] as i64,
                )
            &&& f.2 == Ok::<bool, Error>(false) ==> taken == values.len()
            &&& f.2 == Ok::<bool, Error>(true) ==> taken < values.len() && (number_of(
                values[taken as int],
            ) matches Ok(n) && code_point_spec(n) matches Ok(c) && encode_scalar(c).len()
                > bytes.len() + room - f.1.len())
            &&& f.2 is Err ==> taken < values.len() && f.2 == Err::<bool, Error>(
                Error::NumberExpected,
            ) && !(number_of(values[taken as int]) matches Ok(n) && code_point_spec(n) is Ok)
        }),
    decreases values.len(),
{
    let f = encode_fold(values, room, count, bytes);
    if values.len() == 0 {
        assert(encode_all(scalars_of(values, 0)) =~= Seq::<u8>::empty());
        assert(bytes + Seq::<u8>::empty() =~= bytes);
    } else {
        match number_of(values[0]) {
            Err(e) => {
                assert(encode_all(scalars_of(values, 0)) =~= Seq::<u8>::empty());
                assert(bytes + Seq::<u8>::empty() =~= bytes);
            },
            Ok(n) => match code_point_spec(n) {
                Err(e) => {
                    assert(encode_all(scalars_of(values, 0)) =~= Seq::<u8>::empty());
                    assert(bytes + Seq::<u8>::empty() =~= bytes);
                },
                Ok(c) => {
                    let b = encode_scalar(c);
                    if b.len() > room {
                        assert(encode_all(scalars_of(values, 0)) =~= Seq::<u8>::empty());
                        assert(bytes + Seq::<u8>::empty() =~= bytes);
                    } else {
                        let rest = values.drop_first();
                        lemma_encode_fold_shape(rest, (room - b.len()) as nat, count + 1, bytes + b);
                        let taken = (f.0 - count) as nat;
                        let inner = scalars_of(rest, (taken - 1) as nat);
                        let outer = scalars_of(values, taken);
                        assert(outer[0] == c);
                        assert(outer.drop_first() =~= inner);
                        assert(encode_all(outer) == encode_scalar(c) + encode_all(inner));
                        assert(bytes + b + encode_all(inner) =~= bytes + encode_all(outer));
                        assert forall|i: int|
                            0 <= i < taken implies is_scalar(#[trigger] outer[i])
                                && number_of(values[i]) == Ok::<i64, Error>(outer[i] as i64) by {
                            if i > 0 {
                                assert(outer[i] == inner[i - 1]);
                                assert(values[i] == rest[i - 1]);
                            }
                        }
                        if f.2 == Ok::<bool, Error>(true) || f.2 is Err {
                            assert(values[taken as int] == rest[taken - 1]);
                        }
                    }
                },
            },
        }
    }
}

/// What `utf8-encode` writes, strict decoding reads back: the bytes that
/// encoding a list into `room` bytes produces fit the room, decode to
/// exactly the code points it took from the front of the list, and take
/// all of their bytes. Encoding stops before the end of the list only at a
/// code point whose encoding no longer fits, or with `NumberExpected` at a
/// value that names no scalar.
pub proof fn lemma_encode_fold_round_trip(values: Seq<Value>, room: nat, final_input: bool, strict: bool)
    ensures
        ({
            let f = encode_fold(values, room, 0, seq![]);
            let d = decode_stream(f.1, f.0, final_input, strict);
            &&& f.0 <= values.len()
            &&& f.1.len() <= room
            &&& d.0.len() == f.0
            &&& d.1 == f.1.len()
            &&& !d.2
            &&& forall|i: int|
                0 <= i < f.0 ==> number_of(values[i]) == Ok::<i64, Error>(#[trigger] d.0[i] as i64)
            &&& f.2 == Ok::<bool, Error>(false) ==> f.0 == values.len()
            &&& f.2 == Ok::<bool, Error>(true) ==> f.0 < values.len() && (number_of(
                values[f.0 as int],
            ) matches Ok(n) && code_point_spec(n) matches Ok(c) && encode_scalar(c).len() > room
                - f.1.len())
            &&& f.2 is Err ==> f.0 < values.len() && f.2 == Err::<bool, Error>(
                Error::NumberExpected,
            ) && !(number_of(values[f.0 as int]) matches Ok(n) && code_point_spec(n) is Ok)
        }),
{
    let f = encode_fold(values, room, 0, seq![]);
    lemma_encode_fold_shape(values, room, 0, seq![]);
    let scalars = scalars_of(values, f.0);
    assert(Seq::<u8>::empty() + encode_all(scalars) =~= encode_all(scalars));
    lemma_decode_stream_encoded(scalars, f.0, final_input, strict);
}

/// Encodes the code points of a walked list as `encode_fold` does; when all
/// of them fit, reading the list may still have ended with an error.
pub open spec fn encode_outcome(
    walked: (Seq<Value>, Result<(), Error>),
    room: nat,
    count: nat,
    bytes: Seq<u8>,
) -> (nat, Seq<u8>, Result<bool, Error>) {
    let f = encode_fold(walked.0, room, count, bytes);
    match (f.2, walked.1) {
        (Ok(false), Err(e)) => (f.0, f.1, Err(e)),
        _ => f,
    }
}

/// The code point list, the bytevector root, its length, and the range that
/// `utf8_encode` takes from its arguments, or the error decoding them.
pub open spec fn encode_arguments(memory: Memory, args: Seq<Value>) -> Result<
    (Cons, Cons, usize, usize, usize),
    Error,
> {
    match cons_of(args[0]) {
        Err(e) => Err(e),
        Ok(list) => match number_of(args[2]) {
            Err(e) => Err(e),
            Ok(s) => match nonnegative_integer_spec(s) {
                Err(e) => Err(e),
                Ok(start) => match number_of(args[3]) {
                    Err(e) => Err(e),
                    Ok(t) => match nonnegative_integer_spec(t) {
                        Err(e) => Err(e),
                        Ok(end) => match bytevector_info_spec(memory, args[1]) {
                            Err(e) => Err(e),
                            Ok((root, length)) => if start > end || end > length {
                                Err(Error::InvalidMemoryAccess)
                            } else {
                                Ok((root->Cons_0, list, length, start, end))
                            },
                        },
                    },
                },
            },
        },
    }
}

/// `utf8-encode` takes every range that lies in the bytevector, the empty
/// one included: once the code point list, both bounds and the bytevector
/// are read, the arguments are accepted exactly when
/// `start <= end <= length`, and refused with `InvalidMemoryAccess`
/// otherwise.
pub proof fn lemma_encode_arguments_range(
    memory: Memory,
    args: Seq<Value>,
    list: Cons,
    start: usize,
    end: usize,
    root: Value,
    length: usize,
)
    requires
        args[0] == Value::Cons(list),
        args[2] == Value::Number(start as i64),
        args[3] == Value::Number(end as i64),
        start <= i64::MAX,
        end <= i64::MAX,
        bytevector_info_spec(memory, args[1]) == Ok::<(Value, usize), Error>((root, length)),
    ensures
        start <= end <= length ==> encode_arguments(memory, args) == Ok::<
            (Cons, Cons, usize, usize, usize),
            Error,
        >((root->Cons_0, list, length, start, end)),
        !(start <= end <= length) ==> encode_arguments(memory, args) == Err::<
            (Cons, Cons, usize, usize, usize),
            Error,
        >(Error::InvalidMemoryAccess),
{
    assert((start as i64) as usize == start);
    assert((end as i64) as usize == end);
}

/// Encoding into an empty range encodes no value and writes no byte, so the
/// whole list is what is left; it succeeds when the list is empty or its
/// first value names a scalar.
pub proof fn lemma_encode_empty_range(cars: Seq<Value>, cdrs: Seq<Value>, list: Cons)
    ensures
        encode_outcome(walk(cars, cdrs, list, 0), 0, 0, seq![]).0 == 0,
        encode_outcome(walk(cars, cdrs, list, 0), 0, 0, seq![]).1 == Seq::<u8>::empty(),
        tail_of(cdrs, list, encode_outcome(walk(cars, cdrs, list, 0), 0, 0, seq![]).0) == Ok::<
            Cons,
            Error,
        >(list),
        ({
            let walked = walk(cars, cdrs, list, 0);
            walked.1 is Ok && (walked.0.len() == 0 || (number_of(walked.0[0]) matches Ok(n)
                && code_point_spec(n) is Ok)) ==> encode_outcome(walked, 0, 0, seq![]).2 is Ok
        }),
{
    let walked = walk(cars, cdrs, list, 0);
    assert(walked.0.len() <= 1);
    if walked.0.len() == 1 {
        assert(walked.0.drop_first().len() == 0);
        if let Ok(n) = number_of(walked.0[0]) {
            if let Ok(c) = code_point_spec(n) {
                assert(encode_scalar(c).len() >= 1);
            }
        }
    }
}

/// No cell of the list from `list` is a cell of an element of the vector.
#[verifier::opaque]
pub open spec fn list_separate(memory: Memory, list: Cons, root: Cons, length: nat) -> bool {
    forall|j: nat|
        (#[trigger] tail_of(memory.cdrs(), list, j)) matches Ok(c) ==> !is_element_cell(
            memory,
            root,
            length,
            c.index as int,
        )
}

/// Writes the first `size` of `bytes` into the cells a cursor yields.
fn write_bytes(
    memory: &mut Memory,
    cursor: &mut ListVectorCursor<VECTOR_FACTOR>,
    bytes: &[u8; 4],
    size: usize,
    Ghost(good): Ghost<bool>,
    Ghost(mem0): Ghost<Memory>,
    Ghost(root): Ghost<Cons>,
    Ghost(length): Ghost<nat>,
    Ghost(start): Ghost<nat>,
    Ghost(done): Ghost<Seq<u8>>,
) -> (r: Result<(), Error>)
    requires
        old(memory).wf(),
        size <= 4,
        good ==> {
            &&& mem0.wf()
            &&& vector_ok(mem0, root, length)
            &&& old(memory).cdrs() == mem0.cdrs()
            &&& old(memory).cars() == write_elements(mem0, root, length, start, done)
            &&& cursor_on(*old(cursor), mem0, root, length, start + done.len())
            &&& start + done.len() + size <= length
        },
    ensures
        final(memory).wf(),
        final(memory).cdrs() == old(memory).cdrs(),
        final(memory).capacity() == old(memory).capacity(),
        final(memory).stack_cons() == old(memory).stack_cons(),
        good ==> {
            &&& r is Ok
            &&& final(memory).cars() == write_elements(
                mem0,
                root,
                length,
                start,
                done + bytes@.subrange(0, size as int),
            )
            &&& cursor_on(*final(cursor), mem0, root, length, (start + done.len() + size) as nat)
        },
{
    let mut k: usize = 0;
    while k < size
        invariant
            memory.wf(),
            memory.cdrs() == old(memory).cdrs(),
            memory.capacity() == old(memory).capacity(),
            memory.stack_cons() == old(memory).stack_cons(),
            k <= size,
            size <= 4,
            good ==> {
                &&& mem0.wf()
                &&& vector_ok(mem0, root, length)
                &&& memory.cdrs() == mem0.cdrs()
                &&& memory.cars() == write_elements(
                    mem0,
                    root,
                    length,
                    start,
                    done + bytes@.subrange(0, k as int),
                )
                &&& cursor_on(*cursor, mem0, root, length, (start + done.len() + k) as nat)
                &&& start + done.len() + size <= length
            },
        decreases size - k,
    {
        let ghost before = done + bytes@.subrange(0, k as int);
        proof {
            if good {
                lemma_write_elements(mem0, root, length, start, before);
                lemma_cursor_step_frame(
                    mem0,
                    *memory,
                    cursor.root(),
                    cursor.length(),
                    cursor.index(),
                    cursor.cell(),
                    VECTOR_FACTOR as nat,
                );
                lemma_leaf_linked_step(mem0, root, length, (start + done.len() + k) as nat);
            }
        }
        write_next(memory, cursor, bytes[k])?;
        proof {
            if good {
                let after = done + bytes@.subrange(0, k + 1);
                assert(after.drop_last() =~= before);
                assert(after.last() == bytes@[k as int]);
                assert(after.len() == before.len() + 1);
            }
        }
        k = k + 1;
    }
    Ok(())
}

/// What `utf8_encode` does to the heap `old`: `new` and `r` are the heap and the
/// result afterwards.
pub open spec fn utf8_encode_outcome(old: Memory, new: Memory, r: Result<(), Error>) -> bool {
    let cars = old.cars();
    let cdrs = old.cdrs();
    let p = pop_values(cars, cdrs, old.stack_cons(), 4);
    match p.0 {
        Err(e) => r == Err::<(), Error>(e) && holds(new, cars, cdrs, p.1),
        Ok(args) => match encode_arguments(old, args) {
            Err(e) => r == Err::<(), Error>(e) && holds(new, cars, cdrs, p.1),
            Ok((root, list, length, start, end)) => new.cdrs().len() <= cdrs.len() + 2
                && new.cdrs().subrange(0, cdrs.len() as int) == cdrs && (vector_ok(
                old,
                root,
                length as nat,
            ) && list_separate(old, list, root, length as nat) ==> {
                let o = encode_outcome(
                    walk(cars, cdrs, list, (end - start) as nat),
                    (end - start) as nat,
                    0,
                    seq![],
                );
                let written = write_elements(
                    old,
                    root,
                    length as nat,
                    start as nat,
                    o.1,
                );
                match o.2 {
                    Err(e) => r == Err::<(), Error>(e) && holds(
                        new,
                        written,
                        cdrs,
                        p.1,
                    ),
                    Ok(_) => if o.1.len() > i64::MAX {
                        r == Err::<(), Error>(Error::NumberExpected) && holds(
                            new,
                            written,
                            cdrs,
                            p.1,
                        )
                    } else {
                        allocate_push_outcome(
                            written,
                            cdrs,
                            p.1,
                            Value::Cons(tail_of(cdrs, list, o.0)->Ok_0),
                            Value::Number(o.1.len() as i64),
                            new,
                            r,
                        )
                    },
                }
            }),
        },
    }
}

/// Encodes code points into a bytevector: takes a code point list, a
/// bytevector, and a start and an end index from the stack, writes the UTF-8
/// encodings of the code points, in order, from the start on as long as they
/// fit before the end, and pushes a pair of the rest of the list and the
/// number of bytes written.
#[verifier::rlimit(50)]
pub fn utf8_encode(memory: &mut Memory) -> (r: Result<(), Error>)
    requires
        old(memory).wf(),
    ensures
        final(memory).wf(),
        final(memory).capacity() == old(memory).capacity(),
        utf8_encode_outcome(*old(memory), *final(memory), r),
{
    let ghost cars = memory.cars();
    let ghost cdrs = memory.cdrs();
    let args = memory.pop_many(4)?;
    proof {
        assert(cdrs.subrange(0, cdrs.len() as int) =~= cdrs);
    }
    let (root_value, code_points, length, start, end) = encode_arguments_exec(memory, &args)?;
    let ghost root = root_value->Cons_0;
    let ghost good = vector_ok(*old(memory), root, length as nat) && list_separate(
        *old(memory),
        code_points,
        root,
        length as nat,
    );
    let (rest, written) = encode_list(
        memory,
        code_points,
        root_value,
        length,
        start,
        end,
        Ghost(good),
        Ghost(*old(memory)),
    )?;
    if written as u64 > i64::MAX as u64 {
        return Err(Error::NumberExpected);
    }
    proof {
        if good {
            let o = encode_outcome(
                walk(cars, cdrs, code_points, (end - start) as nat),
                (end - start) as nat,
                0,
                seq![],
            );
            assert(o.2 is Ok);
            assert(rest == tail_of(cdrs, code_points, o.0)->Ok_0);
            assert(written == o.1.len());
        }
    }
    let made = memory.allocate(Value::Cons(rest), Value::Number(written as i64));
    proof {
        assert(memory.cdrs().subrange(0, cdrs.len() as int) =~= cdrs);
    }
    let result = made?;
    let pushed = memory.push(Value::Cons(result));
    proof {
        assert(memory.cdrs().subrange(0, cdrs.len() as int) =~= cdrs);
    }
    pushed
}

/// Decodes the arguments of `utf8_encode`.
fn encode_arguments_exec(memory: &Memory, args: &Vec<Value>) -> (r: Result<
    (Value, Cons, usize, usize, usize),
    Error,
>)
    requires
        memory.wf(),
        args@.len() == 4,
    ensures
        match encode_arguments(*memory, args@) {
            Ok((root, list, length, start, end)) => r == Ok::<
                (Value, Cons, usize, usize, usize),
                Error,
            >((Value::Cons(root), list, length, start, end)),
            Err(e) => r == Err::<(Value, Cons, usize, usize, usize), Error>(e),
        },
{
    let code_points = expect_cons(args[0])?;
    let s = expect_number(args[2])?;
    let start = nonnegative_integer(s)?;
    let t = expect_number(args[3])?;
    let end = nonnegative_integer(t)?;
    let (root_value, length) = bytevector_info(memory, args[1])?;
    if start > end || end > length {
        return Err(Error::InvalidMemoryAccess);
    }
    Ok((root_value, code_points, length, start, end))
}

/// Writes the UTF-8 encodings of the code points of a list into a
/// bytevector from `start` on, as long as they fit before `end`, and returns
/// the rest of the list and the number of bytes written.
#[verifier::rlimit(50)]
fn encode_list(
    memory: &mut Memory,
    list: Cons,
    root_value: Value,
    length: usize,
    start: usize,
    end: usize,
    Ghost(good): Ghost<bool>,
    Ghost(mem0): Ghost<Memory>,
) -> (r: Result<(Cons, usize), Error>)
    requires
        old(memory).wf(),
        mem0.wf(),
        mem0.cars() == old(memory).cars(),
        mem0.cdrs() == old(memory).cdrs(),
        start <= end <= length,
        root_value is Cons,
        good ==> vector_ok(mem0, root_value->Cons_0, length as nat) && list_separate(
            mem0,
            list,
            root_value->Cons_0,
            length as nat,
        ),
    ensures
        final(memory).wf(),
        final(memory).cdrs() == old(memory).cdrs(),
        final(memory).capacity() == old(memory).capacity(),
        final(memory).stack_cons() == old(memory).stack_cons(),
        good ==> {
            let cdrs = old(memory).cdrs();
            let o = encode_outcome(
                walk(old(memory).cars(), cdrs, list, (end - start) as nat),
                (end - start) as nat,
                0,
                seq![],
            );
            &&& final(memory).cars() == write_elements(
                mem0,
                root_value->Cons_0,
                length as nat,
                start as nat,
                o.1,
            )
            &&& o.1.len() <= end - start
            &&& match o.2 {
                Err(e) => r == Err::<(Cons, usize), Error>(e),
                Ok(_) => r == Ok::<(Cons, usize), Error>(
                    (tail_of(cdrs, list, o.0)->Ok_0, o.1.len() as usize),
                ),
            }
        },
{
    let ghost cars = memory.cars();
    let ghost cdrs = memory.cdrs();
    let ghost root = root_value->Cons_0;
    let ghost room = (end - start) as nat;
    let ghost goal = encode_outcome(walk(cars, cdrs, list, room), room, 0, seq![]);
    let mut code_points = list;
    proof {
        if good {
            lemma_leaf_linked_ok(mem0, root, length as nat, start as nat);
        }
    }
    let mut cursor: Option<ListVectorCursor<VECTOR_FACTOR>> = if start < end {
        let root_cons = expect_cons(root_value)?;
        proof {
            crate::list_vector::lemma_list_vector_cell_frame(
                mem0,
                *memory,
                root_cons,
                length as nat,
                start as nat,
                VECTOR_FACTOR as nat,
            );
        }
        Some(ListVectorCursor::<VECTOR_FACTOR>::new(memory, root_cons, length, start)?)
    } else {
        None
    };
    let ghost mut m = room;
    let ghost mut count: nat = 0;
    let ghost mut done: Seq<u8> = seq![];
    proof {
        if good {
            lemma_leaf_linked_ok(mem0, root, length as nat, start as nat);
        }
    }
    let mut written: usize = 0;
    while code_points.index != NULL_INDEX
        invariant
            memory.wf(),
            memory.cdrs() == cdrs,
            memory.stack_cons() == old(memory).stack_cons(),
            memory.capacity() == old(memory).capacity(),
            mem0.wf(),
            mem0.cars() == cars,
            mem0.cdrs() == cdrs,
            cars == old(memory).cars(),
            cdrs == old(memory).cdrs(),
            root == root_value->Cons_0,
            start <= end <= length,
            room == end - start,
            goal == encode_outcome(walk(cars, cdrs, list, room), room, 0, seq![]),
            written == done.len(),
            start + written <= end,
            start < end ==> cursor is Some,
            m >= room - written,
            tail_of(cdrs, list, count) == Ok::<Cons, Error>(code_points),
            good ==> goal == encode_outcome(
                walk(cars, cdrs, code_points, m),
                (room - written) as nat,
                count,
                done,
            ),
            good ==> memory.cars() == write_elements(mem0, root, length as nat, start as nat, done),
            good ==> vector_ok(mem0, root, length as nat) && list_separate(
                mem0,
                list,
                root,
                length as nat,
            ),
            good && start < end ==> cursor_on(
                cursor->Some_0,
                mem0,
                root,
                length as nat,
                (start + written) as nat,
            ),
        ensures
            good ==> goal.2 is Ok && goal.0 == count && goal.1 == done,
        decreases end - start - written,
    {
        proof {
            if good {
                lemma_write_elements(mem0, root, length as nat, start as nat, done);
                reveal(list_separate);
                assert(tail_of(cdrs, list, count) matches Ok(c) ==> !is_element_cell(
                    mem0,
                    root,
                    length as nat,
                    c.index as int,
                ));
                if code_points.index < cars.len() {
                    assert(memory.cars()[code_points.index as int] == cars[code_points.index as int]);
                }
            }
        }
        let v = memory.car(code_points)?;
        let n = expect_number(v)?;
        let mut bytes = [0u8; 4];
        let size = encode_utf8_code_point(n, &mut bytes)?;
        let ghost rest = walk(cars, cdrs, code_points, m);
        proof {
            if good {
                match crate::memory::next_of(cdrs, code_points) {
                    Ok(d) => if m > 0 {
                        let tail = walk(cars, cdrs, d, (m - 1) as nat);
                        assert(rest == (seq![v] + tail.0, tail.1));
                        assert((seq![v] + tail.0).drop_first() =~= tail.0);
                        assert((seq![v] + tail.0)[0] == v);
                    } else {
                        assert(rest == (seq![v], Ok::<(), Error>(())));
                    },
                    Err(e) => {
                        assert(rest == (seq![v], Err::<(), Error>(e)));
                    },
                }
            }
            assert(seq![v].drop_first() =~= Seq::<Value>::empty());
        }
        if size > end - start - written {
            break;
        }
        proof {
            assert(encode_scalar(code_point_spec(n)->Ok_0).len() >= 1);
            assert(m > 0);
        }
        let mut c = cursor.unwrap();
        let result = write_bytes(
            memory,
            &mut c,
            &bytes,
            size,
            Ghost(good),
            Ghost(mem0),
            Ghost(root),
            Ghost(length as nat),
            Ghost(start as nat),
            Ghost(done),
        );
        cursor = Some(c);
        result?;
        written = written + size;
        proof {
            done = done + bytes@.subrange(0, size as int);
            count = count + 1;
        }
        proof {
            lemma_tail_of_step(cdrs, list, (count - 1) as nat);
            assert(encode_fold(Seq::<Value>::empty(), (room - written) as nat, count, done) == (
                count,
                done,
                Ok::<bool, Error>(false),
            ));
        }
        let next = memory.next(code_points)?;
        code_points = next;
        proof {
            m = (m - 1) as nat;
        }
    }
    Ok((code_points, written))
}
/// What `utf8_encoded_length` measures of a list is what `utf8_encode`
/// writes of it: when the range has room for the whole encoding, every code
/// point is encoded, none is left, and the bytes written are as many as
/// measured.
pub proof fn lemma_encoded_length_fits(
    values: Seq<Value>,
    acc: nat,
    room: nat,
    count: nat,
    bytes: Seq<u8>,
)
    requires
        utf8_length_fold(values, acc) is Ok,
        utf8_length_fold(values, acc)->Ok_0 - acc <= room,
    ensures
        encode_fold(values, room, count, bytes) == (
            count + values.len(),
            encode_fold(values, room, count, bytes).1,
            Ok::<bool, Error>(false),
        ),
        encode_fold(values, room, count, bytes).1.len() == bytes.len() + utf8_length_fold(
            values,
            acc,
        )->Ok_0 - acc,
    decreases values.len(),
{
    if values.len() > 0 {
        let n = number_of(values[0])->Ok_0;
        let c = code_point_spec(n)->Ok_0;
        let b = encode_scalar(c);
        lemma_utf8_length_grows(values.drop_first(), acc + b.len());
        lemma_encoded_length_fits(
            values.drop_first(),
            acc + b.len(),
            (room - b.len()) as nat,
            count + 1,
            bytes + b,
        );
    }
}

/// Measuring more code points only adds to the length.
pub proof fn lemma_utf8_length_grows(values: Seq<Value>, acc: nat)
    ensures
        utf8_length_fold(values, acc) matches Ok(total) ==> total >= acc,
    decreases values.len(),
{
    if values.len() > 0 {
        if let Ok(n) = number_of(values[0]) {
            if let Ok(c) = code_point_spec(n) {
                lemma_utf8_length_grows(values.drop_first(), acc + encode_scalar(c).len());
            }
        }
    }
}

} // verus!
