use vstd::prelude::*;
use crate::bytevector::{
    bytevector_info, bytevector_info_spec, element_bytes, nonnegative_integer,
    nonnegative_integer_spec, read_elements, vector_ok,
};
use crate::codec::{decode_buffer, decode_stream};
use crate::list::{lemma_list_holds_frame, lemma_tail_of_frame, list_holds, numbers};
use crate::memory::{
    car_of, cdr_of, extends, holds, is_null, next_of, pop_values, push_outcome, tail_of, Memory,
};
use crate::value::{expect_number, number_of, Cons, Error, Value, PAIR_TAG};

verus! {

/// The first `n` cells of the list from `list` are cells from `lo` on.
pub open spec fn cells_from(cdrs: Seq<Value>, list: Cons, n: nat, lo: nat) -> bool {
    forall|k: nat| k < n ==> ((#[trigger] tail_of(cdrs, list, k)) matches Ok(c) && lo <= c.index)
}

/// The cells of a list stay where they were once cells are added.
pub proof fn lemma_cells_from_frame(cdrs: Seq<Value>, new_cdrs: Seq<Value>, list: Cons, n: nat, lo: nat)
    requires
        cells_from(cdrs, list, n, lo),
        new_cdrs.len() >= cdrs.len(),
        forall|k: int| 0 <= k < cdrs.len() ==> new_cdrs[k] == #[trigger] cdrs[k],
    ensures
        cells_from(new_cdrs, list, n, lo),
{
    assert forall|k: nat| k < n implies ((#[trigger] tail_of(new_cdrs, list, k)) matches Ok(c) && lo <= c.index) by {
        lemma_tail_of_frame(cdrs, new_cdrs, list, k);
    }
}

/// A cell from `lo` on in front of a list of cells from `lo` on.
pub proof fn lemma_cells_from_step(cdrs: Seq<Value>, list: Cons, prev: Cons, n: nat, lo: nat)
    requires
        cells_from(cdrs, prev, n, lo),
        next_of(cdrs, list) == Ok::<Cons, Error>(prev),
        lo <= list.index,
    ensures
        cells_from(cdrs, list, n + 1, lo),
{
    assert forall|k: nat| k < n + 1 implies ((#[trigger] tail_of(cdrs, list, k)) matches Ok(c) && lo <= c.index) by {
        if k > 0 {
            assert(tail_of(cdrs, list, k) == tail_of(cdrs, prev, (k - 1) as nat));
        }
    }
}

/// The stack of `new` holds on top a decoding result over the stack `below`:
/// a pair whose car is a pair of the head and the last cell of a list of
/// `code_points` in cells from `lo` on, and whose cdr is a pair of the
/// number of code points and of the number of bytes `consumed`.
pub open spec fn decoded_result(new: Memory, below: Cons, code_points: Seq<u32>, consumed: nat, lo: nat) -> bool {
    let cars = new.cars();
    let cdrs = new.cdrs();
    let top = new.stack_cons();
    &&& !is_null(top)
    &&& next_of(cdrs, top) matches Ok(b) && b.index == below.index
    &&& car_of(cars, top) matches Ok(Value::Cons(result))
    &&& car_of(cars, result) matches Ok(Value::Cons(endpoints))
    &&& next_of(cdrs, result) matches Ok(counts)
    &&& car_of(cars, counts) == Ok::<Value, Error>(Value::Number(code_points.len() as i64))
    &&& cdr_of(cdrs, counts) == Ok::<Value, Error>(Value::Number(consumed as i64))
    &&& car_of(cars, endpoints) matches Ok(Value::Cons(head))
    &&& next_of(cdrs, endpoints) matches Ok(tail)
    &&& list_holds(cars, cdrs, head, numbers(code_points))
    &&& cells_from(cdrs, head, code_points.len(), lo)
    &&& if code_points.len() == 0 {
        tail == head
    } else {
        tail_of(cdrs, head, (code_points.len() - 1) as nat) == Ok::<Cons, Error>(tail)
    }
}

/// What pushing a decoding result of `code_points` and `consumed` onto the
/// heap `cars`, `cdrs` with the stack `below` gives: it takes five cells
/// more than the code points, the list of code points in fresh cells, and
/// fails for want of them, leaving the cells there were as they were.
pub open spec fn decoded_outcome(
    cars: Seq<Value>,
    cdrs: Seq<Value>,
    below: Cons,
    code_points: Seq<u32>,
    consumed: nat,
    new: Memory,
    r: Result<(), Error>,
) -> bool {
    &&& extends(cars, cdrs, new.cars(), new.cdrs())
    &&& if cars.len() + code_points.len() + 5 <= new.capacity() {
        &&& r is Ok
        &&& new.size() == cars.len() + code_points.len() + 5
        &&& decoded_result(new, below, code_points, consumed, cars.len())
    } else {
        r == Err::<(), Error>(Error::OutOfMemory)
    }
}

/// Builds a list of code points in the heap and pushes the decoding result
/// of `decoded_result` onto the stack.
pub fn push_decoded(memory: &mut Memory, code_points: &Vec<u32>, consumed: usize) -> (r: Result<
    (),
    Error,
>)
    requires
        old(memory).wf(),
        code_points@.len() <= i64::MAX,
        consumed <= i64::MAX,
    ensures
        final(memory).wf(),
        final(memory).capacity() == old(memory).capacity(),
        decoded_outcome(
            old(memory).cars(),
            old(memory).cdrs(),
            old(memory).stack_cons(),
            code_points@,
            consumed as nat,
            *final(memory),
            r,
        ),
{
    let ghost cars0 = memory.cars();
    let ghost cdrs0 = memory.cdrs();
    let ghost below = memory.stack_cons();
    let ghost size0 = memory.size();
    let ghost values = numbers(code_points@);
    let n = code_points.len();
    let mut list = memory.null();
    let mut tail = memory.null();
    let mut i = n;
    proof {
        assert(values.subrange(n as int, n as int) =~= Seq::<Value>::empty());
        assert(cars0.subrange(0, cars0.len() as int) =~= cars0);
        assert(cdrs0.subrange(0, cdrs0.len() as int) =~= cdrs0);
    }
    while i > 0
        invariant
            memory.wf(),
            memory.capacity() == old(memory).capacity(),
            cars0 == old(memory).cars(),
            cdrs0 == old(memory).cdrs(),
            size0 == cars0.len(),
            values == numbers(code_points@),
            n == code_points@.len(),
            i <= n,
            extends(cars0, cdrs0, memory.cars(), memory.cdrs()),
            memory.size() == size0 + (n - i) + (if i < n { 1int } else { 0int }),
            list.tag == PAIR_TAG,
            tail.tag == PAIR_TAG,
            list_holds(memory.cars(), memory.cdrs(), list, values.subrange(i as int, n as int)),
            cells_from(memory.cdrs(), list, (n - i) as nat, size0),
            i == n ==> memory.stack_cons() == below && list == tail && is_null(list),
            i < n ==> {
                &&& tail_of(memory.cdrs(), list, (n - 1 - i) as nat) == Ok::<Cons, Error>(tail)
                &&& tail.index == size0
                &&& !is_null(memory.stack_cons())
                &&& memory.stack_cons().index == size0 + 1
                &&& memory.stack_cons().index < memory.size()
                &&& memory.cars()[memory.stack_cons().index as int] == Value::Cons(tail)
                &&& memory.cdrs()[memory.stack_cons().index as int] == Value::Cons(
                    Cons { index: below.index, tag: PAIR_TAG },
                )
            },
        decreases i,
    {
        let ghost cars1 = memory.cars();
        let ghost cdrs1 = memory.cdrs();
        let ghost prev = list;
        assert(prev == Cons { index: prev.index, tag: PAIR_TAG });
        i = i - 1;
        let ghost size1 = memory.size();
        assert(size1 == cdrs1.len());
        let made = memory.cons(Value::Number(code_points[i] as i64), list);
        assert(made is Ok ==> size1 < memory.capacity());
        list = made?;
        proof {
        assert(memory.cars().subrange(0, cars0.len() as int) =~= cars0);
        assert(memory.cdrs().subrange(0, cdrs0.len() as int) =~= cdrs0);
            assert(list.index == cdrs1.len());
            assert(memory.cdrs()[list.index as int] == Value::Cons(Cons { index: prev.index, tag: PAIR_TAG }));
            assert(cdr_of(memory.cdrs(), list) == Ok::<Value, Error>(Value::Cons(prev)));
            let rest = values.subrange(i + 1, n as int);
            let now = values.subrange(i as int, n as int);
            assert(now.drop_first() =~= rest);
            assert(now[0] == Value::Number(code_points@[i as int] as i64));
            assert forall|k: int| 0 <= k < rest.len() implies (#[trigger] rest[k]) is Number by {
                assert(rest[k] == values[i + 1 + k]);
            }
            lemma_list_holds_frame(cars1, cdrs1, memory.cars(), memory.cdrs(), prev, rest);
            assert(next_of(memory.cdrs(), list) == Ok::<Cons, Error>(prev));
            assert forall|k: int| 0 <= k < cdrs1.len() implies memory.cdrs()[k] == #[trigger] cdrs1[k] by {}
            lemma_cells_from_frame(cdrs1, memory.cdrs(), prev, (n - (i + 1)) as nat, size0);
            lemma_cells_from_step(memory.cdrs(), list, prev, (n - (i + 1)) as nat, size0);
            assert(list_holds(memory.cars(), memory.cdrs(), list, now));
            if i + 1 < n {
                lemma_tail_of_frame(cdrs1, memory.cdrs(), prev, (n - 1 - (i + 1)) as nat);
                assert(tail_of(memory.cdrs(), list, (n - 1 - i) as nat) == tail_of(
                    memory.cdrs(),
                    prev,
                    (n - 1 - (i + 1)) as nat,
                ));
            }
        }
        if i == n - 1 {
            let ghost cars2 = memory.cars();
            let ghost cdrs2 = memory.cdrs();
            memory.push(Value::Cons(list))?;
            tail = list;
            proof {
                let now = values.subrange(i as int, n as int);
                assert forall|k: int| 0 <= k < now.len() implies (#[trigger] now[k]) is Number by {
                    assert(now[k] == values[i + k]);
                }
                lemma_list_holds_frame(cars2, cdrs2, memory.cars(), memory.cdrs(), list, now);
                assert(tail_of(memory.cdrs(), list, 0) == Ok::<Cons, Error>(list));
                assert forall|k: int| 0 <= k < cdrs2.len() implies memory.cdrs()[k] == #[trigger] cdrs2[k] by {}
                lemma_cells_from_frame(cdrs2, memory.cdrs(), list, (n - i) as nat, size0);
            }
        }
        proof {
            assert(memory.cars().subrange(0, cars0.len() as int) =~= cars0);
            assert(memory.cdrs().subrange(0, cdrs0.len() as int) =~= cdrs0);
        }
    }
    if n == 0 {
        memory.push(Value::Cons(list))?;
        proof {
            assert(memory.cars().subrange(0, cars0.len() as int) =~= cars0);
            assert(memory.cdrs().subrange(0, cdrs0.len() as int) =~= cdrs0);
        }
    }
    assert(values.subrange(0, n as int) =~= values);
    let ghost cars3 = memory.cars();
    let ghost cdrs3 = memory.cdrs();
    let ghost top3 = memory.stack_cons();
    assert(top3.index < cars3.len() && cars3[top3.index as int] is Cons);
    let endpoints = memory.cons(Value::Cons(list), tail)?;
    memory.set_top(Value::Cons(endpoints))?;
    proof {
        assert(memory.cars().subrange(0, cars0.len() as int) =~= cars0);
        assert(memory.cdrs().subrange(0, cdrs0.len() as int) =~= cdrs0);
    }
    let counts = memory.allocate(Value::Number(n as i64), Value::Number(consumed as i64))?;
    proof {
        assert(memory.cars().subrange(0, cars0.len() as int) =~= cars0);
        assert(memory.cdrs().subrange(0, cdrs0.len() as int) =~= cdrs0);
    }
    let result = memory.cons(Value::Cons(endpoints), counts)?;
    proof {
        assert(memory.cars().subrange(0, cars0.len() as int) =~= cars0);
        assert(memory.cdrs().subrange(0, cdrs0.len() as int) =~= cdrs0);
    }
    memory.pop()?;
    memory.push(Value::Cons(result))?;
    proof {
        assert forall|k: int| 0 <= k < values.len() implies (#[trigger] values[k]) is Number by {}
        assert forall|k: int| 0 <= k < cars3.len() && (#[trigger] cars3[k]) is Number implies memory.cars()[k] == cars3[k] by {
            assert(k != top3.index);
        }
        assert(crate::list::keeps_lists(cars3, cdrs3, memory.cars(), memory.cdrs()));
        lemma_list_holds_frame(cars3, cdrs3, memory.cars(), memory.cdrs(), list, values);
        if n > 0 {
            lemma_tail_of_frame(cdrs3, memory.cdrs(), list, (n - 1) as nat);
        }
        assert(memory.cdrs().subrange(0, cdrs3.len() as int) =~= cdrs3);
        assert forall|k: int| 0 <= k < cdrs3.len() implies memory.cdrs()[k] == #[trigger] cdrs3[k] by {
            assert(memory.cdrs().subrange(0, cdrs3.len() as int)[k] == memory.cdrs()[k]);
        }
        lemma_cells_from_frame(cdrs3, memory.cdrs(), list, n as nat, size0);
        assert(memory.cars().subrange(0, cars0.len() as int) =~= cars0);
        assert(memory.cdrs().subrange(0, cdrs0.len() as int) =~= cdrs0);
        let top = memory.stack_cons();
        assert(car_of(memory.cars(), top) == Ok::<Value, Error>(Value::Cons(result)));
        assert(next_of(memory.cdrs(), top) matches Ok(b) && b.index == below.index);
        assert(car_of(memory.cars(), result) == Ok::<Value, Error>(Value::Cons(endpoints)));
        assert(next_of(memory.cdrs(), result) == Ok::<Cons, Error>(counts));
        assert(car_of(memory.cars(), counts) == Ok::<Value, Error>(Value::Number(n as i64)));
        assert(car_of(memory.cars(), endpoints) == Ok::<Value, Error>(Value::Cons(list)));
        assert(next_of(memory.cdrs(), endpoints) == Ok::<Cons, Error>(tail));
    }
    Ok(())
}

/// The number of bytes a call of `utf8_decode` reads at most.
pub const UTF8_BUFFER_SIZE: usize = 512;

/// The flag a value stands for: anything but false is true.
pub open spec fn flag(memory: Memory, value: Value) -> bool {
    value != Value::Cons(Memory::boolean_spec(false))
}

/// The bytevector root, its length, the range and the maximum number of
/// code points that `utf8_decode` takes from its arguments, or the error
/// decoding them.
pub open spec fn decode_arguments(memory: Memory, args: Seq<Value>) -> Result<
    (Cons, usize, usize, usize, usize),
    Error,
> {
    match number_of(args[1]) {
        Err(e) => Err(e),
        Ok(s) => match nonnegative_integer_spec(s) {
            Err(e) => Err(e),
            Ok(start) => match number_of(args[2]) {
                Err(e) => Err(e),
                Ok(t) => match nonnegative_integer_spec(t) {
                    Err(e) => Err(e),
                    Ok(end) => match number_of(args[3]) {
                        Err(e) => Err(e),
                        Ok(m) => match nonnegative_integer_spec(m) {
                            Err(e) => Err(e),
                            Ok(maximum) => match bytevector_info_spec(memory, args[0]) {
                                Err(e) => Err(e),
                                Ok((root, length)) => if start > end || end > length {
                                    Err(Error::InvalidMemoryAccess)
                                } else {
                                    Ok((root->Cons_0, length, start, end, maximum))
                                },
                            },
                        },
                    },
                },
            },
        },
    }
}

/// The number of bytes `utf8_decode` reads from the range `start..end`.
pub open spec fn input_length(start: nat, end: nat) -> nat {
    if end - start < UTF8_BUFFER_SIZE {
        (end - start) as nat
    } else {
        UTF8_BUFFER_SIZE as nat
    }
}

/// Decodes the arguments of `utf8_decode`.
fn decode_arguments_exec(memory: &Memory, args: &Vec<Value>) -> (r: Result<
    (Value, usize, usize, usize, usize),
    Error,
>)
    requires
        memory.wf(),
        args@.len() == 6,
    ensures
        match decode_arguments(*memory, args@) {
            Ok((root, length, start, end, maximum)) => r == Ok::<
                (Value, usize, usize, usize, usize),
                Error,
            >((Value::Cons(root), length, start, end, maximum)),
            Err(e) => r == Err::<(Value, usize, usize, usize, usize), Error>(e),
        },
{
    let s = expect_number(args[1])?;
    let start = nonnegative_integer(s)?;
    let t = expect_number(args[2])?;
    let end = nonnegative_integer(t)?;
    let m = expect_number(args[3])?;
    let maximum = nonnegative_integer(m)?;
    let (root_value, length) = bytevector_info(memory, args[0])?;
    if start > end || end > length {
        return Err(Error::InvalidMemoryAccess);
    }
    Ok((root_value, length, start, end, maximum))
}

/// What `utf8_decode` does to the heap `old`: `new` and `r` are the heap and the
/// result afterwards.
pub open spec fn utf8_decode_outcome(old: Memory, new: Memory, r: Result<(), Error>) -> bool {
    let cars = old.cars();
    let cdrs = old.cdrs();
    let p = pop_values(cars, cdrs, old.stack_cons(), 6);
    match p.0 {
        Err(e) => r == Err::<(), Error>(e) && holds(new, cars, cdrs, p.1),
        Ok(args) => match decode_arguments(old, args) {
            Err(e) => r == Err::<(), Error>(e) && holds(new, cars, cdrs, p.1),
            Ok((root, length, start, end, maximum)) => extends(cars, cdrs, new.cars(), new.cdrs())
                && (vector_ok(old, root, length as nat) ==> match element_bytes(
                old,
                root,
                length as nat,
                start as nat,
                input_length(start as nat, end as nat),
            ) {
                Err(e) => r == Err::<(), Error>(e) && holds(new, cars, cdrs, p.1),
                Ok(bytes) => {
                    let d = decode_stream(
                        bytes,
                        maximum as nat,
                        flag(old, args[4]),
                        flag(old, args[5]),
                    );
                    if d.2 {
                        push_outcome(
                            cars,
                            cdrs,
                            p.1,
                            Value::Cons(Memory::boolean_spec(false)),
                            new,
                            r,
                        )
                    } else {
                        decoded_outcome(cars, cdrs, p.1, d.0, d.1, new, r)
                    }
                },
            }),
        },
    }
}

/// Decodes UTF-8 from a bytevector: takes a bytevector, a start and an end
/// index, a maximum number of code points, and the flags that the input is
/// final and that decoding is strict from the stack; decodes at most
/// `UTF8_BUFFER_SIZE` bytes of the range as `decode_stream` does, and
/// pushes false for a malformed sequence in strict mode, else the result of
/// `decoded_result`: the list of decoded code points, its last cell, their
/// number and the number of bytes they took.
#[verifier::rlimit(30)]
pub fn utf8_decode(memory: &mut Memory) -> (r: Result<(), Error>)
    requires
        old(memory).wf(),
    ensures
        final(memory).wf(),
        final(memory).capacity() == old(memory).capacity(),
        utf8_decode_outcome(*old(memory), *final(memory), r),
{
    let ghost cars = memory.cars();
    let ghost cdrs = memory.cdrs();
    let args = memory.pop_many(6)?;
    proof {
        assert(cars.subrange(0, cars.len() as int) =~= cars);
        assert(cdrs.subrange(0, cdrs.len() as int) =~= cdrs);
    }
    let (root_value, length, start, end, maximum) = decode_arguments_exec(memory, &args)?;
    let ghost root = root_value->Cons_0;
    let ghost good = vector_ok(*old(memory), root, length as nat);

    let false_value = Value::Cons(memory.boolean(false));
    let final_input = args[4] != false_value;
    let strict = args[5] != false_value;
    let input_length = if end - start < UTF8_BUFFER_SIZE {
        end - start
    } else {
        UTF8_BUFFER_SIZE
    };
    let bytes: Vec<u8> = if input_length > 0 {
        read_elements(memory, root_value, length, start, input_length, Ghost(good), Ghost(*old(memory)))?
    } else {
        Vec::new()
    };
    proof {
        if good && input_length == 0 {
            assert(bytes@ =~= Seq::<u8>::empty());
        }
    }
    let (code_points, consumed, invalid) = decode_buffer(bytes.as_slice(), maximum, final_input, strict);
    if invalid {
        let pushed = memory.push(false_value);
        proof {
            assert(memory.cars().subrange(0, cars.len() as int) =~= cars);
            assert(memory.cdrs().subrange(0, cdrs.len() as int) =~= cdrs);
        }
        return pushed;
    }
    push_decoded(memory, &code_points, consumed)
}

} // verus!
