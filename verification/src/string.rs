use vstd::prelude::*;
use crate::bytevector::{nonnegative_integer, nonnegative_integer_spec, STRING_TAG};
use crate::codec::{code_point, code_point_spec};
use crate::decode::{cells_from, lemma_cells_from_frame, lemma_cells_from_step};
use crate::list::{keeps_lists, lemma_list_holds_frame, lemma_tail_of_frame, list_holds};
use crate::memory::{
    car_of, cdr_of, extends, holds, is_null, next_of, pop_values, tail_of, Memory, NULL_INDEX,
};
use crate::value::{cons_of, expect_cons, expect_number, number_of, Cons, Error, Value, PAIR_TAG};

verus! {

/// Reads at most `n` code points from the list at `c`: the values read, all
/// integers, and the cell the list goes on from, or the error of the first
/// cell that could not be read.
pub open spec fn take_code_points(cars: Seq<Value>, cdrs: Seq<Value>, c: Cons, n: nat) -> (
    Seq<Value>,
    Result<Cons, Error>,
)
    decreases n,
{
    if n == 0 || c == Memory::null_spec() {
        (seq![], Ok(c))
    } else {
        match car_of(cars, c) {
            Err(e) => (seq![], Err(e)),
            Ok(v) => match number_of(v) {
                Err(e) => (seq![], Err(e)),
                Ok(_) => match next_of(cdrs, c) {
                    Err(e) => (seq![], Err(e)),
                    Ok(d) => {
                        let rest = take_code_points(cars, cdrs, d, (n - 1) as nat);
                        (seq![v] + rest.0, rest.1)
                    },
                },
            },
        }
    }
}

/// The values `take_code_points` reads are integers, at most `n` of them.
pub proof fn lemma_take_code_points(cars: Seq<Value>, cdrs: Seq<Value>, c: Cons, n: nat)
    ensures
        take_code_points(cars, cdrs, c, n).0.len() <= n,
        forall|j: int|
            0 <= j < take_code_points(cars, cdrs, c, n).0.len() ==> (#[trigger] take_code_points(
                cars,
                cdrs,
                c,
                n,
            ).0[j]) is Number,
    decreases n,
{
    if n > 0 && c != Memory::null_spec() {
        if let Ok(v) = car_of(cars, c) {
            if let Ok(d) = next_of(cdrs, c) {
                lemma_take_code_points(cars, cdrs, d, (n - 1) as nat);
                let rest = take_code_points(cars, cdrs, d, (n - 1) as nat);
                let all = take_code_points(cars, cdrs, c, n);
                if number_of(v) is Ok {
                    assert forall|j: int| 0 <= j < all.0.len() implies (#[trigger] all.0[j]) is Number by {
                        if j > 0 {
                            assert(all.0[j] == rest.0[j - 1]);
                        }
                    }
                }
            }
        }
    }
}

/// The cell at `index` as a pair reference.
pub open spec fn pair(index: int) -> Cons {
    Cons { index: index as usize, tag: PAIR_TAG }
}

/// The cells `base`, `base + 1`, ... hold `values` and each links to the
/// next, the last to the null cell.
pub open spec fn consecutive(cars: Seq<Value>, cdrs: Seq<Value>, base: int, values: Seq<Value>) -> bool {
    &&& 0 < base
    &&& base + values.len() <= cars.len()
    &&& base + values.len() <= cdrs.len()
    &&& base + values.len() <= usize::MAX
    &&& forall|j: int| 0 <= j < values.len() ==> #[trigger] cars[base + j] == values[j]
    &&& forall|j: int|
        0 <= j < values.len() ==> #[trigger] cdrs[base + j] == Value::Cons(
            if j + 1 == values.len() {
                pair(NULL_INDEX as int)
            } else {
                pair(base + j + 1)
            },
        )
}

/// Consecutive cells form a list of their values whose cells are those
/// cells, in order.
pub proof fn lemma_consecutive(cars: Seq<Value>, cdrs: Seq<Value>, base: int, values: Seq<Value>, k: int)
    requires
        consecutive(cars, cdrs, base, values),
        0 <= k <= values.len(),
    ensures
        list_holds(
            cars,
            cdrs,
            if k == values.len() { pair(NULL_INDEX as int) } else { pair(base + k) },
            values.subrange(k, values.len() as int),
        ),
        forall|j: nat|
            k + j < values.len() ==> #[trigger] tail_of(cdrs, pair(base + k), j) == Ok::<Cons, Error>(
                pair(base + k + j),
            ),
    decreases values.len() - k,
{
    let n = values.len() as int;
    if k < n {
        lemma_consecutive(cars, cdrs, base, values, k + 1);
        let here = pair(base + k);
        let after = if k + 1 == n { pair(NULL_INDEX as int) } else { pair(base + k + 1) };
        assert(cdrs[base + k] == Value::Cons(after));
        assert(next_of(cdrs, here) == Ok::<Cons, Error>(after));
        assert(values.subrange(k, n).drop_first() =~= values.subrange(k + 1, n));
        assert(cars[base + k] == values[k]);
        assert forall|j: nat| k + j < n implies #[trigger] tail_of(cdrs, here, j) == Ok::<Cons, Error>(
            pair(base + k + j),
        ) by {
            if j > 0 {
                assert(tail_of(cdrs, here, j) == tail_of(cdrs, after, (j - 1) as nat));
                assert(tail_of(cdrs, pair(base + (k + 1)), (j - 1) as nat) == Ok::<Cons, Error>(
                    pair(base + (k + 1) + (j - 1)),
                ));
            }
        }
    } else {
        assert(values.subrange(n, n) =~= Seq::<Value>::empty());
    }
}

/// The state of `copy_code_points` while it copies: over the stack `below`
/// of a heap that had `size0` cells, the cell `size0` holds the rest `cur`
/// of the source, the cell `size0 + 1` on top of the stack the copied list,
/// and the cells from `size0 + 2` on the copied values, each linked to the
/// one before.
pub open spec fn copying(memory: Memory, size0: int, below: Cons, cur: Cons, vals: Seq<Value>) -> bool {
    let cars = memory.cars();
    let cdrs = memory.cdrs();
    let base = size0 + 2;
    let n = vals.len() as int;
    &&& memory.wf()
    &&& 0 < size0
    &&& memory.size() == base + n
    &&& memory.stack_cons() == pair(size0 + 1)
    &&& cdrs[size0 + 1] == Value::Cons(pair(size0))
    &&& cdrs[size0] == Value::Cons(pair(below.index as int))
    &&& cars[size0] == Value::Cons(cur)
    &&& cars[size0 + 1] == Value::Cons(if n == 0 { pair(NULL_INDEX as int) } else { pair(base + n - 1) })
    &&& forall|j: int| 0 <= j < n ==> #[trigger] cars[base + j] == vals[j]
    &&& forall|j: int|
        0 <= j < n ==> #[trigger] cdrs[base + j] == Value::Cons(
            if j == 0 {
                pair(NULL_INDEX as int)
            } else {
                pair(base + j - 1)
            },
        )
}

/// Copies at most `maximum` code points from the source list that the cell
/// below the top of the stack holds onto the list on top of the stack.
#[verifier::rlimit(40)]
fn copy_prefix(
    memory: &mut Memory,
    maximum: usize,
    Ghost(cars0): Ghost<Seq<Value>>,
    Ghost(cdrs0): Ghost<Seq<Value>>,
    Ghost(below): Ghost<Cons>,
    Ghost(source): Ghost<Cons>,
) -> (r: Result<usize, Error>)
    requires
        copying(*old(memory), cars0.len() as int, below, source, seq![]),
        extends(cars0, cdrs0, old(memory).cars(), old(memory).cdrs()),
        cars0.len() == cdrs0.len(),
    ensures
        final(memory).wf(),
        final(memory).capacity() == old(memory).capacity(),
        extends(cars0, cdrs0, final(memory).cars(), final(memory).cdrs()),
        r matches Ok(n) ==> exists|cur: Cons, vals: Seq<Value>|
            copying(*final(memory), cars0.len() as int, below, cur, vals) && vals.len() == n,
        ({
            let t = take_code_points(cars0, cdrs0, source, maximum as nat);
            let fits = cars0.len() + 2 + t.0.len() <= old(memory).capacity();
            t.1 != Err::<Cons, Error>(Error::InvalidMemoryAccess) ==> match t.1 {
                Err(e) => r == Err::<usize, Error>(if fits { e } else { Error::OutOfMemory }),
                Ok(rest) => if fits {
                    r == Ok::<usize, Error>(t.0.len() as usize) && copying(
                        *final(memory),
                        cars0.len() as int,
                        below,
                        rest,
                        t.0,
                    )
                } else {
                    r == Err::<usize, Error>(Error::OutOfMemory)
                },
            }
        }),
{
    let ghost size0 = cars0.len() as int;
    let ghost base = size0 + 2;
    let ghost capacity = memory.capacity();
    let ghost whole = take_code_points(cars0, cdrs0, source, maximum as nat);
    let ghost good = whole.1 != Err::<Cons, Error>(Error::InvalidMemoryAccess);
    let ghost mut cur = source;
    let ghost mut vals: Seq<Value> = seq![];
    let null = memory.null();
    let mut length: usize = 0;
    proof {
        assert(whole.0 =~= vals + whole.0);
    }
    while length < maximum
        invariant
            copying(*memory, size0, below, cur, vals),
            memory.capacity() == capacity,
            capacity == old(memory).capacity(),
            size0 == cars0.len(),
            size0 == cdrs0.len(),
            base == size0 + 2,
            extends(cars0, cdrs0, memory.cars(), memory.cdrs()),
            length == vals.len(),
            length <= maximum,
            null == Memory::null_spec(),
            whole == take_code_points(cars0, cdrs0, source, maximum as nat),
            good == (whole.1 != Err::<Cons, Error>(Error::InvalidMemoryAccess)),
            good ==> {
                let rest = take_code_points(cars0, cdrs0, cur, (maximum - length) as nat);
                whole == (vals + rest.0, rest.1)
            },
        ensures
            copying(*memory, size0, below, cur, vals),
            memory.capacity() == capacity,
            extends(cars0, cdrs0, memory.cars(), memory.cdrs()),
            length == vals.len(),
            good ==> whole == (vals, Ok::<Cons, Error>(cur)),
        decreases maximum - length,
    {
        let ghost cars1 = memory.cars();
        let ghost rest = take_code_points(cars0, cdrs0, cur, (maximum - length) as nat);
        proof {
            assert(next_of(memory.cdrs(), pair(size0 + 1)) == Ok::<Cons, Error>(pair(size0)));
            assert(tail_of(memory.cdrs(), pair(size0), 0) == Ok::<Cons, Error>(pair(size0)));
            assert(tail_of(memory.cdrs(), pair(size0 + 1), 1) == Ok::<Cons, Error>(pair(size0)));
        }
        let slot = memory.tail(memory.stack(), 1)?;
        assert(slot == pair(size0));
        let current = expect_cons(memory.car(slot)?)?;
        assert(current == cur);
        if current == null {
            proof {
                assert(vals + Seq::<Value>::empty() =~= vals);
            }
            break;
        }
        proof {
            if good && cur.index >= size0 {
                assert(rest.1 == Err::<Cons, Error>(Error::InvalidMemoryAccess));
                assert(false);
            }
            if cur.index < size0 {
                assert(memory.cars()[cur.index as int] == cars0[cur.index as int]);
                assert(memory.cdrs()[cur.index as int] == cdrs0[cur.index as int]);
            }
        }
        let v = match memory.car(current) {
            Ok(v) => v,
            Err(e) => {
                return Err(e);
            },
        };
        let code_point = match expect_number(v) {
            Ok(n) => n,
            Err(e) => {
                return Err(e);
            },
        };
        let next = match memory.next(current) {
            Ok(n) => n,
            Err(e) => {
                return Err(e);
            },
        };
        let ghost after = take_code_points(cars0, cdrs0, next, (maximum - length - 1) as nat);
        proof {
            if good {
                assert(rest == (seq![v] + after.0, after.1));
                assert(whole == (vals.push(v) + after.0, after.1)) by {
                    assert(vals + (seq![v] + after.0) =~= vals.push(v) + after.0);
                }
                lemma_take_code_points(cars0, cdrs0, next, (maximum - length - 1) as nat);
            }
        }
        memory.set_car(slot, Value::Cons(next))?;
        let copied = expect_cons(memory.top()?)?;
        let made = memory.cons(Value::Number(code_point), copied);
        let copied = match made {
            Ok(c) => c,
            Err(e) => {
                proof {
                    assert(memory.cars().subrange(0, cars0.len() as int) =~= cars0);
                    assert(memory.cdrs().subrange(0, cdrs0.len() as int) =~= cdrs0);
                }
                return Err(e);
            },
        };
        memory.set_top(Value::Cons(copied))?;
        length = length + 1;
        proof {
            cur = next;
            vals = vals.push(v);
            assert(memory.cars().subrange(0, cars0.len() as int) =~= cars0);
            assert(memory.cdrs().subrange(0, cdrs0.len() as int) =~= cdrs0);
        }
    }
    Ok(length)
}

/// Reverses the copied list in place, so that its cells link from the
/// first copied value to the last, and returns its first and last cell.
fn reverse_copied(
    memory: &mut Memory,
    Ghost(size0): Ghost<int>,
    Ghost(below): Ghost<Cons>,
    Ghost(cur): Ghost<Cons>,
    Ghost(vals): Ghost<Seq<Value>>,
) -> (r: Result<(Cons, Cons), Error>)
    requires
        copying(*old(memory), size0, below, cur, vals),
    ensures
        final(memory).wf(),
        final(memory).capacity() == old(memory).capacity(),
        final(memory).stack_cons() == old(memory).stack_cons(),
        final(memory).cars() == old(memory).cars(),
        final(memory).cdrs().len() == old(memory).cdrs().len(),
        forall|k: int| 0 <= k < size0 + 2 ==> #[trigger] final(memory).cdrs()[k] == old(memory).cdrs()[k],
        consecutive(final(memory).cars(), final(memory).cdrs(), size0 + 2, vals),
        r == Ok::<(Cons, Cons), Error>(
            if vals.len() == 0 {
                (pair(NULL_INDEX as int), pair(NULL_INDEX as int))
            } else {
                (pair(size0 + 2), pair(size0 + 2 + vals.len() - 1))
            },
        ),
{
    let ghost base = size0 + 2;
    let ghost n = vals.len() as int;
    let null = memory.null();
    let mut current = expect_cons(memory.top()?)?;
    let tail = current;
    let mut head = null;
    let ghost mut m = n;
    while current != null
        invariant
            memory.wf(),
            memory.capacity() == old(memory).capacity(),
            memory.stack_cons() == old(memory).stack_cons(),
            memory.cars() == old(memory).cars(),
            memory.cdrs().len() == old(memory).cdrs().len(),
            copying(*old(memory), size0, below, cur, vals),
            base == size0 + 2,
            n == vals.len(),
            null == pair(NULL_INDEX as int),
            0 <= m <= n,
            current == if m == 0 { pair(NULL_INDEX as int) } else { pair(base + m - 1) },
            head == if m == n { pair(NULL_INDEX as int) } else { pair(base + m) },
            tail == if n == 0 { pair(NULL_INDEX as int) } else { pair(base + n - 1) },
            forall|k: int|
                0 <= k < memory.cdrs().len() && !(base <= k < base + n) ==> #[trigger] memory.cdrs()[k]
                    == old(memory).cdrs()[k],
            forall|j: int| 0 <= j < m ==> #[trigger] memory.cdrs()[base + j] == old(memory).cdrs()[base + j],
            forall|j: int|
                m <= j < n ==> #[trigger] memory.cdrs()[base + j] == Value::Cons(
                    if j + 1 == n {
                        pair(NULL_INDEX as int)
                    } else {
                        pair(base + j + 1)
                    },
                ),
        decreases m,
    {
        let ghost j = m - 1;
        assert(memory.cdrs()[base + j] == old(memory).cdrs()[base + j]);
        assert(old(memory).cdrs()[base + j] == Value::Cons(
            if j == 0 {
                pair(NULL_INDEX as int)
            } else {
                pair(base + j - 1)
            },
        ));
        let next = memory.next(current)?;
        memory.set_cdr(current, Value::Cons(head.set_tag(PAIR_TAG)))?;
        head = current;
        current = next;
        proof {
            m = m - 1;
        }
    }
    proof {
        assert forall|j: int| 0 <= j < n implies #[trigger] memory.cars()[base + j] == vals[j] by {}
    }
    Ok((head, tail))
}

/// The stack of `new` holds on top, over the stack `below`, the result of
/// copying the code points `vals` from a source list that goes on at `rest`
/// in a heap of `size0` cells: a pair of a string and a pair of the last
/// cell of its code point list and of `rest`. The string is a pair of the
/// number of code points and of its code point list, tagged as a string; the
/// list holds `vals` in cells that did not exist before.
pub open spec fn copied_result(new: Memory, below: Cons, vals: Seq<Value>, rest: Cons, size0: nat) -> bool {
    let cars = new.cars();
    let cdrs = new.cdrs();
    let top = new.stack_cons();
    &&& !is_null(top)
    &&& next_of(cdrs, top) matches Ok(b) && b.index == below.index
    &&& car_of(cars, top) matches Ok(Value::Cons(result))
    &&& car_of(cars, result) matches Ok(Value::Cons(string))
    &&& next_of(cdrs, result) matches Ok(metadata)
    &&& car_of(cars, string) == Ok::<Value, Error>(Value::Number(vals.len() as i64))
    &&& cdr_of(cdrs, string) matches Ok(Value::Cons(head))
    &&& head.tag == STRING_TAG
    &&& car_of(cars, metadata) matches Ok(Value::Cons(tail))
    &&& next_of(cdrs, metadata) == Ok::<Cons, Error>(pair(rest.index as int))
    &&& list_holds(cars, cdrs, pair(head.index as int), vals)
    &&& forall|j: nat|
        j < vals.len() ==> ((#[trigger] tail_of(cdrs, pair(head.index as int), j)) matches Ok(c)
            && c.index >= size0)
    &&& tail == if vals.len() == 0 {
        pair(NULL_INDEX as int)
    } else {
        tail_of(cdrs, pair(head.index as int), (vals.len() - 1) as nat)->Ok_0
    }
}

/// What copying the code points that `take_code_points` read as `t` from a
/// heap `cars`, `cdrs` with the stack `below` gives: `new` and `r` are the
/// heap and the result afterwards. Each copied code point takes a cell, and
/// seven cells more hold the stack slots, the string and the result.
pub open spec fn copy_outcome_of(
    cars: Seq<Value>,
    cdrs: Seq<Value>,
    below: Cons,
    t: (Seq<Value>, Result<Cons, Error>),
    new: Memory,
    r: Result<(), Error>,
) -> bool {
    &&& extends(cars, cdrs, new.cars(), new.cdrs())
    &&& match t.1 {
        Err(e) => r == Err::<(), Error>(
            if cars.len() + 2 + t.0.len() <= new.capacity() {
                e
            } else {
                Error::OutOfMemory
            },
        ),
        Ok(rest) => if cars.len() + t.0.len() + 7 <= new.capacity() {
            &&& r is Ok
            &&& new.size() == cars.len() + t.0.len() + 7
            &&& copied_result(new, below, t.0, rest, cars.len())
        } else {
            r == Err::<(), Error>(Error::OutOfMemory)
        },
    }
}

/// What `copy_code_points` does to the heap `old`: `new` and `r` are the heap and the
/// result afterwards.
pub open spec fn copy_code_points_outcome(old: Memory, new: Memory, r: Result<(), Error>) -> bool {
    let cars = old.cars();
    let cdrs = old.cdrs();
    let p = pop_values(cars, cdrs, old.stack_cons(), 2);
    match p.0 {
        Err(e) => r == Err::<(), Error>(e) && holds(new, cars, cdrs, p.1),
        Ok(args) => match number_of(args[1]) {
            Err(e) => r == Err::<(), Error>(e) && holds(new, cars, cdrs, p.1),
            Ok(m) => match nonnegative_integer_spec(m) {
                Err(e) => r == Err::<(), Error>(e) && holds(new, cars, cdrs, p.1),
                Ok(maximum) => match cons_of(args[0]) {
                    Err(e) => r == Err::<(), Error>(e) && holds(
                        new,
                        cars,
                        cdrs,
                        p.1,
                    ),
                    Ok(source) => {
                        let t = take_code_points(cars, cdrs, source, maximum as nat);
                        &&& extends(cars, cdrs, new.cars(), new.cdrs())
                        &&& t.1 != Err::<Cons, Error>(Error::InvalidMemoryAccess)
                            ==> copy_outcome_of(cars, cdrs, p.1, t, new, r)
                    },
                },
            },
        },
    }
}

/// Copies a prefix of a code point list into a new string: takes a source
/// list and a maximum from the stack, copies at most that many code points
/// from the front of the list into fresh cells, and pushes the result of
/// `copied_result`: the string, the last cell of its list, and the rest of
/// the source.
#[verifier::rlimit(60)]
pub fn copy_code_points(memory: &mut Memory) -> (r: Result<(), Error>)
    requires
        old(memory).wf(),
    ensures
        final(memory).wf(),
        final(memory).capacity() == old(memory).capacity(),
        copy_code_points_outcome(*old(memory), *final(memory), r),
{
    let ghost cars0 = memory.cars();
    let ghost cdrs0 = memory.cdrs();
    let ghost size0 = cars0.len() as int;
    let args = memory.pop_many(2)?;
    let ghost below = memory.stack_cons();
    let m = expect_number(args[1])?;
    let maximum = nonnegative_integer(m)?;
    let source = expect_cons(args[0])?;
    let ghost t = take_code_points(cars0, cdrs0, source, maximum as nat);
    proof {
        lemma_take_code_points(cars0, cdrs0, source, maximum as nat);
    }
    match memory.push(Value::Cons(source)) {
        Ok(()) => {},
        Err(e) => {
            proof {
                assert(memory.cars().subrange(0, size0) =~= cars0);
                assert(memory.cdrs().subrange(0, size0) =~= cdrs0);
            }
            return Err(e);
        },
    }
    let null = memory.null();
    match memory.push(Value::Cons(null)) {
        Ok(()) => {},
        Err(e) => {
            proof {
                assert(memory.cars().subrange(0, size0) =~= cars0);
                assert(memory.cdrs().subrange(0, size0) =~= cdrs0);
            }
            return Err(e);
        },
    }
    proof {
        assert(memory.cars().subrange(0, size0) =~= cars0);
        assert(memory.cdrs().subrange(0, size0) =~= cdrs0);
    }
    let length = copy_prefix(memory, maximum, Ghost(cars0), Ghost(cdrs0), Ghost(below), Ghost(source))?;
    let ghost (cur, vals) = choose|cur: Cons, vals: Seq<Value>|
        copying(*memory, size0, below, cur, vals) && vals.len() == length;
    let ghost base = size0 + 2;
    let ghost n = vals.len() as int;
    proof {
        if t.1 != Err::<Cons, Error>(Error::InvalidMemoryAccess) && t.1 is Ok {
            assert(cur == t.1->Ok_0);
            assert forall|j: int| 0 <= j < vals.len() implies vals[j] == t.0[j] by {
                assert(memory.cars()[base + j] == vals[j]);
            }
            assert(vals =~= t.0);
        }
    }
    let ghost cars1 = memory.cars();
    let ghost cdrs1 = memory.cdrs();
    let (head, tail) = reverse_copied(memory, Ghost(size0), Ghost(below), Ghost(cur), Ghost(vals))?;
    let ghost cars2 = memory.cars();
    let ghost cdrs2 = memory.cdrs();
    proof {
        assert(memory.cdrs().subrange(0, size0) =~= cdrs0);
    }
    memory.set_top(Value::Cons(head))?;
    proof {
        assert(memory.cars().subrange(0, size0) =~= cars0);
        assert(memory.cdrs().subrange(0, size0) =~= cdrs0);
    }
    memory.push(Value::Cons(tail))?;
    proof {
        assert(memory.cars().subrange(0, size0) =~= cars0);
        assert(memory.cdrs().subrange(0, size0) =~= cdrs0);
    }
    proof {
        assert(next_of(memory.cdrs(), memory.stack_cons()) == Ok::<Cons, Error>(pair(size0 + 1)));
        assert(tail_of(memory.cdrs(), pair(size0 + 1), 0) == Ok::<Cons, Error>(pair(size0 + 1)));
    }
    let head_slot = memory.tail(memory.stack(), 1)?;
    let head = expect_cons(memory.car(head_slot)?)?;
    let string = memory.allocate(Value::Number(length as i64), Value::Cons(head.set_tag(STRING_TAG)))?;
    proof {
        assert(memory.cars().subrange(0, size0) =~= cars0);
        assert(memory.cdrs().subrange(0, size0) =~= cdrs0);
    }
    proof {
        assert(next_of(memory.cdrs(), memory.stack_cons()) == Ok::<Cons, Error>(pair(size0 + 1)));
        assert(tail_of(memory.cdrs(), pair(size0 + 1), 0) == Ok::<Cons, Error>(pair(size0 + 1)));
    }
    let head_slot = memory.tail(memory.stack(), 1)?;
    memory.set_car(head_slot, Value::Cons(string))?;
    proof {
        assert(memory.cars().subrange(0, size0) =~= cars0);
        assert(memory.cdrs().subrange(0, size0) =~= cdrs0);
    }
    let tail = expect_cons(memory.top()?)?;
    proof {
        assert(next_of(memory.cdrs(), pair(size0 + 1)) == Ok::<Cons, Error>(pair(size0)));
        assert(tail_of(memory.cdrs(), pair(size0), 0) == Ok::<Cons, Error>(pair(size0)));
        assert(tail_of(memory.cdrs(), pair(size0 + 1), 1) == Ok::<Cons, Error>(pair(size0)));
    }
    let source_slot = memory.tail(memory.stack(), 2)?;
    let rest = expect_cons(memory.car(source_slot)?)?;
    let metadata = memory.cons(Value::Cons(tail), rest)?;
    proof {
        assert(memory.cars().subrange(0, size0) =~= cars0);
        assert(memory.cdrs().subrange(0, size0) =~= cdrs0);
    }
    proof {
        assert(next_of(memory.cdrs(), memory.stack_cons()) == Ok::<Cons, Error>(pair(size0 + 1)));
        assert(tail_of(memory.cdrs(), pair(size0 + 1), 0) == Ok::<Cons, Error>(pair(size0 + 1)));
    }
    let string_slot = memory.tail(memory.stack(), 1)?;
    let string = memory.car(string_slot)?;
    let result = memory.cons(string, metadata)?;
    proof {
        assert(memory.cars().subrange(0, size0) =~= cars0);
        assert(memory.cdrs().subrange(0, size0) =~= cdrs0);
    }
    memory.pop()?;
    memory.pop()?;
    memory.pop()?;
    memory.push(Value::Cons(result))?;
    proof {
        assert(memory.cars().subrange(0, size0) =~= cars0);
        assert(memory.cdrs().subrange(0, size0) =~= cdrs0);
        if t.1 != Err::<Cons, Error>(Error::InvalidMemoryAccess) && t.1 is Ok {
            let head0 = if n == 0 { pair(NULL_INDEX as int) } else { pair(base) };
            lemma_consecutive(cars2, cdrs2, base, vals, 0);
            assert(vals.subrange(0, n) =~= vals);
            assert forall|k: int| 0 <= k < cars2.len() && (#[trigger] cars2[k]) is Number implies memory.cars()[k] == cars2[k] by {
                assert(k != size0 + 1);
            }
            assert(keeps_lists(cars2, cdrs2, memory.cars(), memory.cdrs()));
            assert forall|j: int| 0 <= j < vals.len() implies (#[trigger] vals[j]) is Number by {
                assert(t.0[j] is Number);
            }
            lemma_list_holds_frame(cars2, cdrs2, memory.cars(), memory.cdrs(), head0, vals);
            assert forall|j: nat| j < n implies #[trigger] tail_of(memory.cdrs(), head0, j) == Ok::<Cons, Error>(pair(base + j)) by {
                assert(tail_of(cdrs2, pair(base + 0), j) == Ok::<Cons, Error>(pair(base + 0 + j)));
                lemma_tail_of_frame(cdrs2, memory.cdrs(), head0, j);
            }
            if n > 0 {
                assert(tail_of(memory.cdrs(), head0, (n - 1) as nat) == Ok::<Cons, Error>(pair(base + (n - 1))));
            }
        }
    }
    Ok(())
}

/// `length` copies of the code point `fill`.
pub open spec fn filled(length: nat, fill: i64) -> Seq<Value> {
    Seq::new(length, |i: int| Value::Number(fill))
}

/// The stack of `new` holds on top, over the stack `below`, a string of
/// `length` code points `fill`: a pair of the length and of a list of the
/// code points, tagged as a string.
pub open spec fn made_string(new: Memory, below: Cons, length: nat, fill: i64, lo: nat) -> bool {
    let cars = new.cars();
    let cdrs = new.cdrs();
    let top = new.stack_cons();
    &&& !is_null(top)
    &&& next_of(cdrs, top) matches Ok(b) && b.index == below.index
    &&& car_of(cars, top) matches Ok(Value::Cons(string))
    &&& car_of(cars, string) == Ok::<Value, Error>(Value::Number(length as i64))
    &&& cdr_of(cdrs, string) matches Ok(Value::Cons(head))
    &&& head.tag == STRING_TAG
    &&& list_holds(cars, cdrs, pair(head.index as int), filled(length, fill))
    &&& cells_from(cdrs, pair(head.index as int), length, lo)
}

/// What `make_string` does to the heap `old`: `new` and `r` are the heap and the
/// result afterwards.
pub open spec fn make_string_outcome(old: Memory, new: Memory, r: Result<(), Error>) -> bool {
    let cars = old.cars();
    let cdrs = old.cdrs();
    let p = pop_values(cars, cdrs, old.stack_cons(), 2);
    match p.0 {
        Err(e) => r == Err::<(), Error>(e) && holds(new, cars, cdrs, p.1),
        Ok(args) => match number_of(args[0]) {
            Err(e) => r == Err::<(), Error>(e) && holds(new, cars, cdrs, p.1),
            Ok(l) => match nonnegative_integer_spec(l) {
                Err(e) => r == Err::<(), Error>(e) && holds(new, cars, cdrs, p.1),
                Ok(length) => match number_of(args[1]) {
                    Err(e) => r == Err::<(), Error>(e) && holds(new, cars, cdrs, p.1),
                    Ok(fill) => match code_point_spec(fill) {
                        Err(e) => r == Err::<(), Error>(e) && holds(
                            new,
                            cars,
                            cdrs,
                            p.1,
                        ),
                        Ok(_) => {
                            &&& extends(cars, cdrs, new.cars(), new.cdrs())
                            &&& if cars.len() + length + 2 <= old.capacity() {
                                &&& r is Ok
                                &&& new.size() == cars.len() + length + 2
                                &&& made_string(new, p.1, length as nat, fill, cars.len())
                            } else {
                                r == Err::<(), Error>(Error::OutOfMemory)
                            }
                        },
                    },
                },
            },
        },
    }
}

/// Makes a string: takes a length and a code point from the stack and pushes
/// a string of that many copies of the code point.
pub fn make_string(memory: &mut Memory) -> (r: Result<(), Error>)
    requires
        old(memory).wf(),
    ensures
        final(memory).wf(),
        final(memory).capacity() == old(memory).capacity(),
        make_string_outcome(*old(memory), *final(memory), r),
{
    let ghost cars0 = memory.cars();
    let ghost cdrs0 = memory.cdrs();
    let ghost size0 = cars0.len() as int;
    let args = memory.pop_many(2)?;
    let ghost below = memory.stack_cons();
    let l = expect_number(args[0])?;
    let length = nonnegative_integer(l)?;
    let fill = expect_number(args[1])?;
    code_point(fill)?;
    let null = memory.null();
    match memory.push(Value::Cons(null)) {
        Ok(()) => {},
        Err(e) => {
            proof {
                assert(memory.cars().subrange(0, size0) =~= cars0);
                assert(memory.cdrs().subrange(0, size0) =~= cdrs0);
            }
            return Err(e);
        },
    }
    let mut i: usize = 0;
    proof {
        assert(memory.cars().subrange(0, size0) =~= cars0);
        assert(memory.cdrs().subrange(0, size0) =~= cdrs0);
        assert(filled(0, fill) =~= Seq::<Value>::empty());
    }
    while i < length
        invariant
            memory.wf(),
            memory.capacity() == old(memory).capacity(),
            size0 == cars0.len(),
            size0 == cdrs0.len(),
            0 < size0,
            cars0 == old(memory).cars(),
            cdrs0 == old(memory).cdrs(),
            pop_values(cars0, cdrs0, old(memory).stack_cons(), 2).0 == Ok::<Seq<Value>, Error>(args@),
            below == pop_values(cars0, cdrs0, old(memory).stack_cons(), 2).1,
            number_of(args@[0]) == Ok::<i64, Error>(l),
            nonnegative_integer_spec(l) == Ok::<usize, Error>(length),
            number_of(args@[1]) == Ok::<i64, Error>(fill),
            code_point_spec(fill) is Ok,
            i <= length,
            extends(cars0, cdrs0, memory.cars(), memory.cdrs()),
            memory.size() == size0 + 1 + i,
            memory.stack_cons() == pair(size0),
            memory.cdrs()[size0] == Value::Cons(pair(below.index as int)),
            memory.cars()[size0] == Value::Cons(if i == 0 { pair(NULL_INDEX as int) } else { pair(size0 + i) }),
            list_holds(memory.cars(), memory.cdrs(), if i == 0 { pair(NULL_INDEX as int) } else { pair(size0 + i) }, filled(i as nat, fill)),
            cells_from(memory.cdrs(), if i == 0 { pair(NULL_INDEX as int) } else { pair(size0 + i) }, i as nat, size0 as nat),
        decreases length - i,
    {
        let ghost cars1 = memory.cars();
        let ghost cdrs1 = memory.cdrs();
        let ghost prev = if i == 0 { pair(NULL_INDEX as int) } else { pair(size0 + i) };
        let code_points = expect_cons(memory.top()?)?;
        let made = memory.cons(Value::Number(fill), code_points);
        let ghost cdrs_made = memory.cdrs();
        let code_points = match made {
            Ok(c) => c,
            Err(e) => {
                proof {
                    assert(memory.cars().subrange(0, size0) =~= cars0);
                    assert(memory.cdrs().subrange(0, size0) =~= cdrs0);
                }
                return Err(e);
            },
        };
        memory.set_top(Value::Cons(code_points))?;
        proof {
            assert forall|k: int| 0 <= k < filled(i as nat, fill).len() implies (#[trigger] filled(i as nat, fill)[k]) is Number by {}
            assert forall|k: int| 0 <= k < cars1.len() && (#[trigger] cars1[k]) is Number implies memory.cars()[k] == cars1[k] by {
                assert(k != size0);
            }
            lemma_list_holds_frame(cars1, cdrs1, memory.cars(), memory.cdrs(), prev, filled(i as nat, fill));
            assert(filled((i + 1) as nat, fill).drop_first() =~= filled(i as nat, fill));
            assert(next_of(memory.cdrs(), code_points) == Ok::<Cons, Error>(prev));
            assert forall|k: int| 0 <= k < cdrs1.len() implies memory.cdrs()[k] == #[trigger] cdrs1[k] by {}
            lemma_cells_from_frame(cdrs1, memory.cdrs(), prev, i as nat, size0 as nat);
            lemma_cells_from_step(memory.cdrs(), code_points, prev, i as nat, size0 as nat);
            assert(memory.cars().subrange(0, size0) =~= cars0);
            assert(memory.cdrs().subrange(0, size0) =~= cdrs0);
        }
        i = i + 1;
    }
    let ghost cars2 = memory.cars();
    let ghost cdrs2 = memory.cdrs();
    let ghost head0 = if length == 0 { pair(NULL_INDEX as int) } else { pair(size0 + length) };
    let code_points = expect_cons(memory.top()?)?;
    let string = match memory.allocate(Value::Number(length as i64), Value::Cons(code_points.set_tag(STRING_TAG))) {
        Ok(c) => c,
        Err(e) => {
            proof {
                assert(memory.cars().subrange(0, size0) =~= cars0);
                assert(memory.cdrs().subrange(0, size0) =~= cdrs0);
            }
            return Err(e);
        },
    };
    memory.set_top(Value::Cons(string))?;
    proof {
        assert(memory.cars().subrange(0, size0) =~= cars0);
        assert(memory.cdrs().subrange(0, size0) =~= cdrs0);
        assert forall|k: int| 0 <= k < filled(length as nat, fill).len() implies (#[trigger] filled(length as nat, fill)[k]) is Number by {}
        assert forall|k: int| 0 <= k < cars2.len() && (#[trigger] cars2[k]) is Number implies memory.cars()[k] == cars2[k] by {
            assert(k != size0);
        }
        lemma_list_holds_frame(cars2, cdrs2, memory.cars(), memory.cdrs(), head0, filled(length as nat, fill));
        assert forall|k: int| 0 <= k < cdrs2.len() implies memory.cdrs()[k] == #[trigger] cdrs2[k] by {}
        lemma_cells_from_frame(cdrs2, memory.cdrs(), head0, length as nat, size0 as nat);
    }
    Ok(())
}

} // verus!
