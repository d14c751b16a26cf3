use vstd::prelude::*;
use crate::memory::{car_of, is_null, next_of, tail_of};
use crate::value::{Cons, Error, Value};

verus! {

/// True when following `n` cdrs from `c` stops: at the null cell or at a
/// cdr that names no cell.
pub open spec fn stops_within(cdrs: Seq<Value>, c: Cons, n: nat) -> bool {
    match tail_of(cdrs, c, n) {
        Err(_) => true,
        Ok(d) => is_null(d),
    }
}

/// True when the list from `c` does not run in a cycle.
pub open spec fn list_ends(cdrs: Seq<Value>, c: Cons) -> bool {
    exists|n: nat| stops_within(cdrs, c, n)
}

/// A number of steps within which the list from `c` stops.
pub open spec fn list_steps(cdrs: Seq<Value>, c: Cons) -> nat {
    choose|n: nat| stops_within(cdrs, c, n)
}

/// Reads the list from `c`, for at most `fuel` steps past the first cell:
/// the cars read, in order, and how the reading ended: at the null cell, or
/// with the error of a car or cdr that could not be read.
pub open spec fn walk(cars: Seq<Value>, cdrs: Seq<Value>, c: Cons, fuel: nat) -> (
    Seq<Value>,
    Result<(), Error>,
)
    decreases fuel,
{
    if is_null(c) {
        (seq![], Ok(()))
    } else {
        match car_of(cars, c) {
            Err(e) => (seq![], Err(e)),
            Ok(v) => match next_of(cdrs, c) {
                Err(e) => (seq![v], Err(e)),
                Ok(d) => if fuel == 0 {
                    (seq![v], Ok(()))
                } else {
                    let rest = walk(cars, cdrs, d, (fuel - 1) as nat);
                    (seq![v] + rest.0, rest.1)
                },
            },
        }
    }
}

/// The list from `head` holds exactly `values`: its cells, none of them the
/// null cell, have those cars, in order, and the cdr of the last leads to
/// the null cell.
pub open spec fn list_holds(cars: Seq<Value>, cdrs: Seq<Value>, head: Cons, values: Seq<Value>) -> bool
    decreases values.len(),
{
    if values.len() == 0 {
        is_null(head)
    } else {
        &&& !is_null(head)
        &&& head.index < cars.len()
        &&& cars[head.index as int] == values[0]
        &&& next_of(cdrs, head) is Ok
        &&& list_holds(cars, cdrs, next_of(cdrs, head)->Ok_0, values.drop_first())
    }
}

/// The integers that stand for `code_points`.
pub open spec fn numbers(code_points: Seq<u32>) -> Seq<Value> {
    code_points.map_values(|c: u32| Value::Number(c as i64))
}

/// `new` agrees with `cars`, `cdrs` on every cell of the old heap, except
/// that a car that references a cell may have changed.
pub open spec fn keeps_lists(cars: Seq<Value>, cdrs: Seq<Value>, new_cars: Seq<Value>, new_cdrs: Seq<Value>) -> bool {
    &&& new_cars.len() >= cars.len()
    &&& new_cdrs.len() >= cdrs.len()
    &&& forall|k: int| 0 <= k < cdrs.len() ==> new_cdrs[k] == #[trigger] cdrs[k]
    &&& forall|k: int| 0 <= k < cars.len() && (#[trigger] cars[k]) is Number ==> new_cars[k] == cars[k]
}

/// A list of integers stays as it is when cells are added and cars that
/// reference cells change.
pub proof fn lemma_list_holds_frame(
    cars: Seq<Value>,
    cdrs: Seq<Value>,
    new_cars: Seq<Value>,
    new_cdrs: Seq<Value>,
    head: Cons,
    values: Seq<Value>,
)
    requires
        list_holds(cars, cdrs, head, values),
        keeps_lists(cars, cdrs, new_cars, new_cdrs),
        forall|i: int| 0 <= i < values.len() ==> (#[trigger] values[i]) is Number,
        cars.len() == cdrs.len(),
    ensures
        list_holds(new_cars, new_cdrs, head, values),
    decreases values.len(),
{
    if values.len() > 0 {
        assert(values[0] is Number);
        assert(cars[head.index as int] is Number);
        let next = next_of(cdrs, head)->Ok_0;
        assert(next_of(new_cdrs, head) == next_of(cdrs, head));
        let rest = values.drop_first();
        assert forall|i: int| 0 <= i < rest.len() implies (#[trigger] rest[i]) is Number by {
            assert(rest[i] == values[i + 1]);
        }
        lemma_list_holds_frame(cars, cdrs, new_cars, new_cdrs, next, rest);
    }
}

/// Following cdrs through cells of a heap leads to the same cell once cells
/// are added.
pub proof fn lemma_tail_of_frame(cdrs: Seq<Value>, new_cdrs: Seq<Value>, c: Cons, n: nat)
    requires
        tail_of(cdrs, c, n) is Ok,
        new_cdrs.len() >= cdrs.len(),
        forall|k: int| 0 <= k < cdrs.len() ==> new_cdrs[k] == #[trigger] cdrs[k],
    ensures
        tail_of(new_cdrs, c, n) == tail_of(cdrs, c, n),
    decreases n,
{
    if n > 0 {
        assert(next_of(new_cdrs, c) == next_of(cdrs, c));
        lemma_tail_of_frame(cdrs, new_cdrs, next_of(cdrs, c)->Ok_0, (n - 1) as nat);
    }
}

/// The list from `c` stops within the steps `list_steps` names.
pub proof fn lemma_list_steps(cdrs: Seq<Value>, c: Cons)
    requires
        list_ends(cdrs, c),
    ensures
        stops_within(cdrs, c, list_steps(cdrs, c)),
{
}

} // verus!
