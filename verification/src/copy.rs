use vstd::prelude::*;
use crate::bytevector::{
    byte, bytevector_get, bytevector_info, bytevector_info_spec, bytevector_set, cursor_on,
    element_byte, element_cell, in_written_range, lemma_distinct_cells, lemma_element_cell,
    lemma_leaf_linked_ok, lemma_leaf_linked_step,
    lemma_write_elements_at, nonnegative_integer, nonnegative_integer_spec, vector_ok,
    write_elements, VECTOR_FACTOR,
};
use crate::list_vector::{
    lemma_cursor_step_frame, lemma_list_vector_cell_frame, list_vector_cell_spec, number_preserving,
    ListVectorCursor,
};
use crate::memory::{holds, pop_values, push_outcome, Memory};
use crate::value::{expect_cons, expect_number, number_of, Cons, Error, Value};

verus! {

/// The destination root and length, the destination offset, the source root
/// and length, and the source range that `bytevector_copy` takes from its
/// arguments, or the error decoding them.
pub open spec fn copy_arguments(memory: Memory, args: Seq<Value>) -> Result<
    (Cons, usize, usize, Cons, usize, usize, usize),
    Error,
> {
    match number_of(args[1]) {
        Err(e) => Err(e),
        Ok(o) => match nonnegative_integer_spec(o) {
            Err(e) => Err(e),
            Ok(offset) => match number_of(args[3]) {
                Err(e) => Err(e),
                Ok(s) => match nonnegative_integer_spec(s) {
                    Err(e) => Err(e),
                    Ok(start) => match number_of(args[4]) {
                        Err(e) => Err(e),
                        Ok(t) => match nonnegative_integer_spec(t) {
                            Err(e) => Err(e),
                            Ok(end) => match bytevector_info_spec(memory, args[0]) {
                                Err(e) => Err(e),
                                Ok((droot, dlen)) => match bytevector_info_spec(memory, args[2]) {
                                    Err(e) => Err(e),
                                    Ok((sroot, slen)) => if start > end || end > slen || offset
                                        > dlen || end - start > dlen - offset {
                                        Err(Error::InvalidMemoryAccess)
                                    } else {
                                        Ok(
                                            (
                                                droot->Cons_0,
                                                dlen,
                                                offset,
                                                sroot->Cons_0,
                                                slen,
                                                start,
                                                end,
                                            ),
                                        )
                                    },
                                },
                            },
                        },
                    },
                },
            },
        },
    }
}

/// The two bytevectors are the same one, or no element cell of one is an
/// element cell of the other.
#[verifier::opaque]
pub open spec fn copy_separate(memory: Memory, droot: Cons, dlen: nat, sroot: Cons, slen: nat) -> bool {
    ||| droot == sroot && dlen == slen
    ||| forall|i: nat, j: nat|
        i < dlen && j < slen ==> (#[trigger] element_cell(memory, droot, dlen, i)).index
            != (#[trigger] element_cell(memory, sroot, slen, j)).index
}

/// The `count` bytes of the source from `start` on, if every one of those
/// elements holds a byte.
pub open spec fn copy_source(memory: Memory, sroot: Cons, slen: nat, start: nat, count: nat) -> Option<
    Seq<u8>,
> {
    if forall|i: nat| start <= i < start + count ==> (#[trigger] element_byte(memory, sroot, slen, i)) is Ok {
        Some(Seq::new(count, |j: int| element_byte(memory, sroot, slen, (start + j) as nat)->Ok_0))
    } else {
        None
    }
}

/// The outcome of copying `count` bytes from the source at `start` to the
/// destination at `offset` in the heap `mem0`: `cars` and `r` are the cars
/// and the result afterwards. The copy behaves as if the source were read
/// whole before the destination is written.
pub open spec fn copy_outcome(
    mem0: Memory,
    droot: Cons,
    dlen: nat,
    offset: nat,
    sroot: Cons,
    slen: nat,
    start: nat,
    count: nat,
    cars: Seq<Value>,
    r: Result<(), Error>,
) -> bool {
    match copy_source(mem0, sroot, slen, start, count) {
        Some(bytes) => r is Ok && cars == write_elements(mem0, droot, dlen, offset, bytes),
        None => r == Err::<(), Error>(Error::NumberExpected),
    }
}

/// Heap cell `k` is the cell of one of the elements `position + j` of the
/// bytevector, for `lo <= j < hi`.
pub open spec fn written_between(
    memory: Memory,
    root: Cons,
    length: nat,
    position: nat,
    lo: nat,
    hi: nat,
    k: int,
) -> bool {
    exists|i: nat|
        position + lo <= i < position + hi && (#[trigger] element_cell(memory, root, length, i)).index == k
}

/// The state of a copy that has written the elements `offset + j` of the
/// destination, for `lo <= j < hi`, with the bytes of the source.
pub open spec fn copied_between(
    mem0: Memory,
    cars: Seq<Value>,
    droot: Cons,
    dlen: nat,
    offset: nat,
    sroot: Cons,
    slen: nat,
    start: nat,
    lo: nat,
    hi: nat,
) -> bool {
    &&& number_preserving(mem0.cars(), cars)
    &&& forall|i: nat|
        start + lo <= i < start + hi ==> (#[trigger] element_byte(mem0, sroot, slen, i)) is Ok
    &&& forall|i: nat|
        offset + lo <= i < offset + hi ==> cars[(#[trigger] element_cell(mem0, droot, dlen, i)).index as int]
            == Value::Number(element_byte(mem0, sroot, slen, (i - offset + start) as nat)->Ok_0 as i64)
    &&& forall|k: int|
        0 <= k < cars.len() && !written_between(mem0, droot, dlen, offset, lo, hi, k) ==> (
        #[trigger] cars[k]) == mem0.cars()[k]
}

/// A copy that has written all `count` elements has the outcome of
/// `copy_outcome`.
proof fn lemma_copied_all(
    mem0: Memory,
    cars: Seq<Value>,
    droot: Cons,
    dlen: nat,
    offset: nat,
    sroot: Cons,
    slen: nat,
    start: nat,
    count: nat,
)
    requires
        mem0.wf(),
        vector_ok(mem0, droot, dlen),
        offset + count <= dlen,
        copied_between(mem0, cars, droot, dlen, offset, sroot, slen, start, 0, count),
    ensures
        copy_outcome(mem0, droot, dlen, offset, sroot, slen, start, count, cars, Ok(())),
{
    let bytes = Seq::new(count, |j: int| element_byte(mem0, sroot, slen, (start + j) as nat)->Ok_0);
    assert(copy_source(mem0, sroot, slen, start, count) == Some(bytes));
    lemma_write_elements_at(mem0, droot, dlen, offset, bytes);
    let w = write_elements(mem0, droot, dlen, offset, bytes);
    assert forall|k: int| 0 <= k < cars.len() implies cars[k] == w[k] by {
        if written_between(mem0, droot, dlen, offset, 0, count, k) {
            let i = choose|i: nat|
                offset <= i < offset + count && (#[trigger] element_cell(mem0, droot, dlen, i)).index == k;
            assert(bytes[i - offset] == element_byte(mem0, sroot, slen, (i - offset + start) as nat)->Ok_0);
        } else if in_written_range(mem0, droot, dlen, offset, bytes.len(), k) {
            let i = choose|i: nat|
                offset <= i < offset + count && (#[trigger] element_cell(mem0, droot, dlen, i)).index == k;
            assert(written_between(mem0, droot, dlen, offset, 0, count, k));
        }
    }
    assert(cars =~= w);
}

/// A copy whose source range holds an element that is no byte fails.
proof fn lemma_copy_fails(
    mem0: Memory,
    droot: Cons,
    dlen: nat,
    offset: nat,
    sroot: Cons,
    slen: nat,
    start: nat,
    count: nat,
    i: nat,
    cars: Seq<Value>,
)
    requires
        start <= i < start + count,
        element_byte(mem0, sroot, slen, i) is Err,
    ensures
        copy_outcome(
            mem0,
            droot,
            dlen,
            offset,
            sroot,
            slen,
            start,
            count,
            cars,
            Err(Error::NumberExpected),
        ),
{
}

/// Reading source element `si` during a copy reads what it held before the
/// copy, as no element written so far shares its cell.
proof fn lemma_copy_read(
    mem0: Memory,
    cars: Seq<Value>,
    droot: Cons,
    dlen: nat,
    offset: nat,
    sroot: Cons,
    slen: nat,
    start: nat,
    lo: nat,
    hi: nat,
    si: nat,
)
    requires
        mem0.wf(),
        copy_ready(mem0, droot, dlen, sroot, slen),
        copied_between(mem0, cars, droot, dlen, offset, sroot, slen, start, lo, hi),
        cars.len() == mem0.cars().len(),
        si < slen,
        offset + hi <= dlen,
        droot == sroot && dlen == slen ==> si < offset + lo || si >= offset + hi,
    ensures
        element_cell(mem0, sroot, slen, si).index < cars.len(),
        cars[element_cell(mem0, sroot, slen, si).index as int] == mem0.cars()[element_cell(
            mem0,
            sroot,
            slen,
            si,
        ).index as int],
{
    let scell = element_cell(mem0, sroot, slen, si);
    lemma_element_cell(mem0, sroot, slen, si);
    if written_between(mem0, droot, dlen, offset, lo, hi, scell.index as int) {
        let i = choose|i: nat|
            offset + lo <= i < offset + hi && (#[trigger] element_cell(mem0, droot, dlen, i)).index
                == scell.index;
        if droot == sroot && dlen == slen {
            lemma_distinct_cells(mem0, sroot, slen, si, i);
        } else {
            reveal(copy_separate);
        }
    }
}

/// Writing the byte of source element `start + j` into destination element
/// `offset + j` next to the range written so far extends that range.
proof fn lemma_copy_write(
    mem0: Memory,
    cars: Seq<Value>,
    new_cars: Seq<Value>,
    droot: Cons,
    dlen: nat,
    offset: nat,
    sroot: Cons,
    slen: nat,
    start: nat,
    lo: nat,
    hi: nat,
    j: nat,
    b: u8,
    new_lo: nat,
    new_hi: nat,
)
    requires
        mem0.wf(),
        copy_ready(mem0, droot, dlen, sroot, slen),
        copied_between(mem0, cars, droot, dlen, offset, sroot, slen, start, lo, hi),
        cars.len() == mem0.cars().len(),
        offset + new_hi <= dlen,
        lo <= hi,
        element_byte(mem0, sroot, slen, start + j) == Ok::<u8, Error>(b),
        new_cars == cars.update(
            element_cell(mem0, droot, dlen, offset + j).index as int,
            Value::Number(b as i64),
        ),
        (j + 1 == lo && new_lo == j && new_hi == hi) || (j == hi && new_lo == lo && new_hi == hi
            + 1),
    ensures
        copied_between(mem0, new_cars, droot, dlen, offset, sroot, slen, start, new_lo, new_hi),
{
    let di = offset + j;
    let dcell = element_cell(mem0, droot, dlen, di);
    lemma_element_cell(mem0, droot, dlen, di);
    assert forall|i: nat| start + new_lo <= i < start + new_hi implies (#[trigger] element_byte(
        mem0,
        sroot,
        slen,
        i,
    )) is Ok by {}
    assert forall|i: nat| offset + new_lo <= i < offset + new_hi implies new_cars[(#[trigger] element_cell(
        mem0,
        droot,
        dlen,
        i,
    )).index as int] == Value::Number(element_byte(mem0, sroot, slen, (i - offset + start) as nat)->Ok_0 as i64) by {
        lemma_element_cell(mem0, droot, dlen, i);
        if i != di {
            lemma_distinct_cells(mem0, droot, dlen, i, di);
        } else {
            assert((i - offset + start) as nat == start + j);
            assert(element_byte(mem0, sroot, slen, (i - offset + start) as nat) == Ok::<u8, Error>(b));
        }
    }
    assert forall|k: int|
        0 <= k < new_cars.len() && !written_between(mem0, droot, dlen, offset, new_lo, new_hi, k)
            implies (#[trigger] new_cars[k]) == mem0.cars()[k] by {
        if k == dcell.index {
            assert(written_between(mem0, droot, dlen, offset, new_lo, new_hi, k));
        }
        if written_between(mem0, droot, dlen, offset, lo, hi, k) {
            let i = choose|i: nat|
                offset + lo <= i < offset + hi && (#[trigger] element_cell(mem0, droot, dlen, i)).index == k;
            assert(written_between(mem0, droot, dlen, offset, new_lo, new_hi, k));
        }
    }
    assert forall|k: int|
        0 <= k < mem0.cars().len() && ((#[trigger] mem0.cars()[k]) is Cons || new_cars[k] is Cons)
            implies new_cars[k] == mem0.cars()[k] by {
        if k != dcell.index {
            assert(new_cars[k] == cars[k]);
        }
    }
}

/// The conditions under which a copy is stated: both bytevectors are well
/// formed and the same one or apart.
pub open spec fn copy_ready(mem0: Memory, droot: Cons, dlen: nat, sroot: Cons, slen: nat) -> bool {
    &&& vector_ok(mem0, droot, dlen)
    &&& vector_ok(mem0, sroot, slen)
    &&& copy_separate(mem0, droot, dlen, sroot, slen)
}

/// Copies `count` bytes from the source at `start` to the destination at
/// `offset`, last byte first, element by element.
#[verifier::rlimit(30)]
fn copy_backward(
    memory: &mut Memory,
    droot_value: Value,
    dlen: usize,
    offset: usize,
    sroot_value: Value,
    slen: usize,
    start: usize,
    count: usize,
    Ghost(good): Ghost<bool>,
    Ghost(mem0): Ghost<Memory>,
) -> (r: Result<(), Error>)
    requires
        old(memory).wf(),
        mem0.wf(),
        mem0.cars() == old(memory).cars(),
        mem0.cdrs() == old(memory).cdrs(),
        droot_value is Cons,
        sroot_value == droot_value,
        start + count <= slen,
        offset + count <= dlen,
        start < offset,
        good ==> copy_ready(mem0, droot_value->Cons_0, dlen as nat, sroot_value->Cons_0, slen as nat),
    ensures
        final(memory).wf(),
        final(memory).cdrs() == old(memory).cdrs(),
        final(memory).capacity() == old(memory).capacity(),
        final(memory).stack_cons() == old(memory).stack_cons(),
        good ==> copy_outcome(
            mem0,
            droot_value->Cons_0,
            dlen as nat,
            offset as nat,
            sroot_value->Cons_0,
            slen as nat,
            start as nat,
            count as nat,
            final(memory).cars(),
            r,
        ),
{
    let ghost droot = droot_value->Cons_0;
    let ghost sroot = sroot_value->Cons_0;
    let mut o = count;
    proof {
        if good {
            assert forall|k: int| 0 <= k < memory.cars().len() && !written_between(mem0, droot, dlen as nat, offset as nat, o as nat, count as nat, k) implies (#[trigger] memory.cars()[k]) == mem0.cars()[k] by {}
        }
    }
    while o > 0
        invariant
            memory.wf(),
            mem0.wf(),
            memory.cdrs() == mem0.cdrs(),
            mem0.cdrs() == old(memory).cdrs(),
            memory.cars().len() == mem0.cars().len(),
            memory.capacity() == old(memory).capacity(),
            memory.stack_cons() == old(memory).stack_cons(),
            droot == droot_value->Cons_0,
            sroot == sroot_value->Cons_0,
            sroot_value == droot_value,
            droot_value is Cons,
            o <= count,
            start + count <= slen,
            offset + count <= dlen,
            start < offset,
            good ==> copy_ready(mem0, droot, dlen as nat, sroot, slen as nat),
            good ==> copied_between(
                mem0,
                memory.cars(),
                droot,
                dlen as nat,
                offset as nat,
                sroot,
                slen as nat,
                start as nat,
                o as nat,
                count as nat,
            ),
        decreases o,
    {
        let ghost cars1 = memory.cars();
        let ghost j = (o - 1) as nat;
        proof {
            if good {
                lemma_leaf_linked_ok(mem0, sroot, slen as nat, start as nat + j);
                lemma_leaf_linked_ok(mem0, droot, dlen as nat, offset as nat + j);
                lemma_element_cell(mem0, droot, dlen as nat, offset as nat + j);
                lemma_list_vector_cell_frame(mem0, *memory, sroot, slen as nat, start as nat + j, VECTOR_FACTOR as nat);
                lemma_list_vector_cell_frame(mem0, *memory, droot, dlen as nat, offset as nat + j, VECTOR_FACTOR as nat);
                lemma_copy_read(mem0, cars1, droot, dlen as nat, offset as nat, sroot, slen as nat, start as nat, o as nat, count as nat, start as nat + j);
            }
        }
        let b = match bytevector_get(memory, sroot_value, slen, start + o - 1) {
            Ok(b) => b,
            Err(e) => {
                proof {
                    if good {
                        let idx = start as nat + j;
                        assert(sroot_value == Value::Cons(sroot));
                        assert(idx < slen);
                        assert(list_vector_cell_spec(mem0, sroot, slen as nat, idx, VECTOR_FACTOR as nat) == Ok::<Cons, Error>(element_cell(mem0, sroot, slen as nat, idx)));
                        assert(list_vector_cell_spec(*memory, sroot, slen as nat, idx, VECTOR_FACTOR as nat) == Ok::<Cons, Error>(element_cell(mem0, sroot, slen as nat, idx)));
                        assert(crate::bytevector::byte_cell_spec(*memory, sroot_value, slen as nat, idx) == Ok::<Cons, Error>(element_cell(mem0, sroot, slen as nat, idx)));
                        assert(crate::bytevector::byte_at(*memory, sroot_value, slen as nat, idx) == element_byte(mem0, sroot, slen as nat, idx));
                        lemma_copy_fails(mem0, droot, dlen as nat, offset as nat, sroot, slen as nat, start as nat, count as nat, start as nat + j, memory.cars());
                    }
                }
                return Err(e);
            },
        };
        proof {
            if good {
                assert(element_byte(mem0, sroot, slen as nat, start as nat + j) == Ok::<u8, Error>(b));
            }
        }
        bytevector_set(memory, droot_value, dlen, offset + o - 1, b)?;
        proof {
            if good {
                lemma_copy_write(mem0, cars1, memory.cars(), droot, dlen as nat, offset as nat, sroot, slen as nat, start as nat, o as nat, count as nat, j, b, j, count as nat);
            }
        }
        o = o - 1;
    }
    proof {
        if good {
            lemma_copied_all(mem0, memory.cars(), droot, dlen as nat, offset as nat, sroot, slen as nat, start as nat, count as nat);
        }
    }
    Ok(())
}

/// Copies `count` bytes from the source at `start` to the destination at
/// `offset`, first byte first, through a cursor over each bytevector.
#[verifier::rlimit(30)]
fn copy_forward(
    memory: &mut Memory,
    droot_value: Value,
    dlen: usize,
    offset: usize,
    sroot_value: Value,
    slen: usize,
    start: usize,
    count: usize,
    Ghost(good): Ghost<bool>,
    Ghost(mem0): Ghost<Memory>,
) -> (r: Result<(), Error>)
    requires
        old(memory).wf(),
        mem0.wf(),
        mem0.cars() == old(memory).cars(),
        mem0.cdrs() == old(memory).cdrs(),
        droot_value is Cons,
        sroot_value is Cons,
        start + count <= slen,
        offset + count <= dlen,
        sroot_value == droot_value ==> offset <= start || offset >= start + count,
        good ==> copy_ready(mem0, droot_value->Cons_0, dlen as nat, sroot_value->Cons_0, slen as nat),
    ensures
        final(memory).wf(),
        final(memory).cdrs() == old(memory).cdrs(),
        final(memory).capacity() == old(memory).capacity(),
        final(memory).stack_cons() == old(memory).stack_cons(),
        good ==> copy_outcome(
            mem0,
            droot_value->Cons_0,
            dlen as nat,
            offset as nat,
            sroot_value->Cons_0,
            slen as nat,
            start as nat,
            count as nat,
            final(memory).cars(),
            r,
        ),
{
    let sroot = expect_cons(sroot_value)?;
    let droot = expect_cons(droot_value)?;
    proof {
        if good {
            assert forall|k: int| 0 <= k < memory.cars().len() && !written_between(mem0, droot, dlen as nat, offset as nat, 0, 0, k) implies (#[trigger] memory.cars()[k]) == mem0.cars()[k] by {}
        }
    }
    if count == 0 {
        proof {
            if good {
                lemma_copied_all(mem0, memory.cars(), droot, dlen as nat, offset as nat, sroot, slen as nat, start as nat, 0);
            }
        }
        return Ok(());
    }
    proof {
        if good {
            lemma_leaf_linked_ok(mem0, sroot, slen as nat, start as nat);
            lemma_leaf_linked_ok(mem0, droot, dlen as nat, offset as nat);
        }
        lemma_list_vector_cell_frame(mem0, *memory, sroot, slen as nat, start as nat, VECTOR_FACTOR as nat);
        lemma_list_vector_cell_frame(mem0, *memory, droot, dlen as nat, offset as nat, VECTOR_FACTOR as nat);
    }
    let mut source = ListVectorCursor::<VECTOR_FACTOR>::new(memory, sroot, slen, start)?;
    let mut destination = ListVectorCursor::<VECTOR_FACTOR>::new(memory, droot, dlen, offset)?;
    let mut k: usize = 0;
    while k < count
        invariant
            memory.wf(),
            mem0.wf(),
            memory.cdrs() == mem0.cdrs(),
            mem0.cdrs() == old(memory).cdrs(),
            memory.cars().len() == mem0.cars().len(),
            memory.capacity() == old(memory).capacity(),
            memory.stack_cons() == old(memory).stack_cons(),
            droot_value == Value::Cons(droot),
            sroot_value == Value::Cons(sroot),
            k <= count,
            start + count <= slen,
            offset + count <= dlen,
            sroot_value == droot_value ==> offset <= start || offset >= start + count,
            good ==> copy_ready(mem0, droot, dlen as nat, sroot, slen as nat),
            good ==> copied_between(
                mem0,
                memory.cars(),
                droot,
                dlen as nat,
                offset as nat,
                sroot,
                slen as nat,
                start as nat,
                0,
                k as nat,
            ),
            good ==> cursor_on(source, mem0, sroot, slen as nat, (start + k) as nat),
            good ==> cursor_on(destination, mem0, droot, dlen as nat, (offset + k) as nat),
        decreases count - k,
    {
        let ghost cars1 = memory.cars();
        let ghost si = (start + k) as nat;
        let ghost di = (offset + k) as nat;
        proof {
            if good {
                lemma_leaf_linked_step(mem0, sroot, slen as nat, si);
                lemma_leaf_linked_step(mem0, droot, dlen as nat, di);
                lemma_element_cell(mem0, droot, dlen as nat, di);
                lemma_cursor_step_frame(mem0, *memory, source.root(), source.length(), source.index(), source.cell(), VECTOR_FACTOR as nat);
                lemma_cursor_step_frame(mem0, *memory, destination.root(), destination.length(), destination.index(), destination.cell(), VECTOR_FACTOR as nat);
                lemma_copy_read(mem0, cars1, droot, dlen as nat, offset as nat, sroot, slen as nat, start as nat, 0, k as nat, si);
            }
        }
        let cell = source.next(memory)?;
        let v = memory.car(cell)?;
        let n = match expect_number(v) {
            Ok(n) => n,
            Err(e) => {
                proof {
                    if good {
                        lemma_copy_fails(mem0, droot, dlen as nat, offset as nat, sroot, slen as nat, start as nat, count as nat, si, memory.cars());
                    }
                }
                return Err(e);
            },
        };
        let b = match byte(n) {
            Ok(b) => b,
            Err(e) => {
                proof {
                    if good {
                        lemma_copy_fails(mem0, droot, dlen as nat, offset as nat, sroot, slen as nat, start as nat, count as nat, si, memory.cars());
                    }
                }
                return Err(e);
            },
        };
        let target = destination.next(memory)?;
        memory.set_car(target, Value::Number(b as i64))?;
        proof {
            if good {
                assert(element_byte(mem0, sroot, slen as nat, si) == Ok::<u8, Error>(b));
                lemma_copy_write(mem0, cars1, memory.cars(), droot, dlen as nat, offset as nat, sroot, slen as nat, start as nat, 0, k as nat, k as nat, b, 0, (k + 1) as nat);
            }
        }
        k = k + 1;
    }
    proof {
        if good {
            lemma_copied_all(mem0, memory.cars(), droot, dlen as nat, offset as nat, sroot, slen as nat, start as nat, count as nat);
        }
    }
    Ok(())
}

/// Decodes the arguments of `bytevector_copy`.
fn copy_arguments_exec(memory: &Memory, args: &Vec<Value>) -> (r: Result<
    (Value, usize, usize, Value, usize, usize, usize),
    Error,
>)
    requires
        memory.wf(),
        args@.len() == 5,
    ensures
        match copy_arguments(*memory, args@) {
            Ok((droot, dlen, offset, sroot, slen, start, end)) => r == Ok::<
                (Value, usize, usize, Value, usize, usize, usize),
                Error,
            >((Value::Cons(droot), dlen, offset, Value::Cons(sroot), slen, start, end)),
            Err(e) => r == Err::<(Value, usize, usize, Value, usize, usize, usize), Error>(e),
        },
{
    let o = expect_number(args[1])?;
    let offset = nonnegative_integer(o)?;
    let s = expect_number(args[3])?;
    let start = nonnegative_integer(s)?;
    let t = expect_number(args[4])?;
    let end = nonnegative_integer(t)?;
    let (droot, dlen) = bytevector_info(memory, args[0])?;
    let (sroot, slen) = bytevector_info(memory, args[2])?;
    if start > end || end > slen || offset > dlen || end - start > dlen - offset {
        return Err(Error::InvalidMemoryAccess);
    }
    Ok((droot, dlen, offset, sroot, slen, start, end))
}

/// What `bytevector_copy` does to the heap `old`: `new` and `r` are the heap and the
/// result afterwards.
pub open spec fn bytevector_copy_outcome(old: Memory, new: Memory, r: Result<(), Error>) -> bool {
    let cars = old.cars();
    let cdrs = old.cdrs();
    let p = pop_values(cars, cdrs, old.stack_cons(), 5);
    match p.0 {
        Err(e) => r == Err::<(), Error>(e) && holds(new, cars, cdrs, p.1),
        Ok(args) => match copy_arguments(old, args) {
            Err(e) => r == Err::<(), Error>(e) && holds(new, cars, cdrs, p.1),
            Ok((droot, dlen, offset, sroot, slen, start, end)) => {
                &&& new.cdrs().len() <= cdrs.len() + 1
                &&& new.cdrs().subrange(0, cdrs.len() as int) == cdrs
                &&& copy_ready(old, droot, dlen as nat, sroot, slen as nat) ==> match copy_source(
                    old,
                    sroot,
                    slen as nat,
                    start as nat,
                    (end - start) as nat,
                ) {
                    None => r == Err::<(), Error>(Error::NumberExpected),
                    Some(bytes) => push_outcome(
                        write_elements(old, droot, dlen as nat, offset as nat, bytes),
                        cdrs,
                        p.1,
                        Value::Cons(Memory::boolean_spec(false)),
                        new,
                        r,
                    ),
                }
            },
        },
    }
}

/// Copies bytes between bytevectors: takes a destination bytevector, an
/// offset into it, a source bytevector and a range of it from the stack,
/// copies the bytes of the range to the destination from the offset on, as
/// if the range were read whole first, so that overlapping ranges of one
/// bytevector copy correctly, and pushes false.
pub fn bytevector_copy(memory: &mut Memory) -> (r: Result<(), Error>)
    requires
        old(memory).wf(),
    ensures
        final(memory).wf(),
        final(memory).capacity() == old(memory).capacity(),
        bytevector_copy_outcome(*old(memory), *final(memory), r),
{
    let args = memory.pop_many(5)?;
    proof {
        assert(memory.cdrs().subrange(0, memory.cdrs().len() as int) =~= memory.cdrs());
    }
    let (droot_value, dlen, offset, sroot_value, slen, start, end) = copy_arguments_exec(memory, &args)?;
    let ghost good = copy_ready(*old(memory), droot_value->Cons_0, dlen as nat, sroot_value->Cons_0, slen as nat);
    let count = end - start;
    if droot_value == sroot_value && offset > start && offset < end {
        copy_backward(memory, droot_value, dlen, offset, sroot_value, slen, start, count, Ghost(good), Ghost(*old(memory)))?;
    } else {
        copy_forward(memory, droot_value, dlen, offset, sroot_value, slen, start, count, Ghost(good), Ghost(*old(memory)))?;
    }
    let ghost cdrs1 = memory.cdrs();
    let pushed = memory.push(Value::Cons(memory.boolean(false)));
    proof {
        assert(memory.cdrs().subrange(0, cdrs1.len() as int) =~= cdrs1);
    }
    pushed
}

} // verus!
