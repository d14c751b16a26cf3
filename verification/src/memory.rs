use vstd::prelude::*;
use crate::value::{cons_of, expect_cons, Cons, Error, Value, PAIR_TAG};

verus! {

/// The index of the cell that ends every list.
pub const NULL_INDEX: usize = 0;
/// The index of the cell that stands for false.
pub const FALSE_INDEX: usize = 1;
/// The index of the cell that stands for true.
pub const TRUE_INDEX: usize = 2;
/// The number of cells that a fresh heap holds.
pub const CONSTANT_CELLS: usize = 3;

/// The car of a cell, or `InvalidMemoryAccess` outside the heap.
pub open spec fn car_of(cars: Seq<Value>, c: Cons) -> Result<Value, Error> {
    if c.index < cars.len() {
        Ok(cars[c.index as int])
    } else {
        Err(Error::InvalidMemoryAccess)
    }
}

/// The cdr of a cell, or `InvalidMemoryAccess` outside the heap.
pub open spec fn cdr_of(cdrs: Seq<Value>, c: Cons) -> Result<Value, Error> {
    if c.index < cdrs.len() {
        Ok(cdrs[c.index as int])
    } else {
        Err(Error::InvalidMemoryAccess)
    }
}

/// The cell that the car of a cell references.
pub open spec fn car_cons_of(cars: Seq<Value>, c: Cons) -> Result<Cons, Error> {
    match car_of(cars, c) {
        Ok(v) => cons_of(v),
        Err(e) => Err(e),
    }
}

/// The cell that the cdr of a cell references.
pub open spec fn next_of(cdrs: Seq<Value>, c: Cons) -> Result<Cons, Error> {
    match cdr_of(cdrs, c) {
        Ok(v) => cons_of(v),
        Err(e) => Err(e),
    }
}

/// The cell reached from `c` by following `n` cdrs.
pub open spec fn tail_of(cdrs: Seq<Value>, c: Cons, n: nat) -> Result<Cons, Error>
    decreases n,
{
    if n == 0 {
        Ok(c)
    } else {
        match next_of(cdrs, c) {
            Ok(d) => tail_of(cdrs, d, (n - 1) as nat),
            Err(e) => Err(e),
        }
    }
}

/// Following one more cdr from where `n` cdrs lead.
pub proof fn lemma_tail_of_step(cdrs: Seq<Value>, c: Cons, n: nat)
    requires
        tail_of(cdrs, c, n) is Ok,
    ensures
        tail_of(cdrs, c, n + 1) == next_of(cdrs, tail_of(cdrs, c, n)->Ok_0),
    decreases n,
{
    if n == 0 {
        assert(tail_of(cdrs, c, 0) == Ok::<Cons, Error>(c));
        match next_of(cdrs, c) {
            Ok(d) => {
                assert(tail_of(cdrs, d, 0) == Ok::<Cons, Error>(d));
                assert(tail_of(cdrs, c, 1) == tail_of(cdrs, d, 0));
            },
            Err(e) => {},
        }
    } else {
        let d = next_of(cdrs, c)->Ok_0;
        lemma_tail_of_step(cdrs, d, (n - 1) as nat);
        assert(tail_of(cdrs, c, n + 1) == tail_of(cdrs, d, n));
    }
}

/// True when a reference names the cell that ends every list.
pub open spec fn is_null(c: Cons) -> bool {
    c.index == NULL_INDEX
}

/// The value on top of the stack `stack` and the stack below it, or the
/// error taking it.
pub open spec fn pop_one(cars: Seq<Value>, cdrs: Seq<Value>, stack: Cons) -> Result<
    (Value, Cons),
    Error,
> {
    if is_null(stack) {
        Err(Error::StackUnderflow)
    } else {
        match car_of(cars, stack) {
            Err(e) => Err(e),
            Ok(v) => match next_of(cdrs, stack) {
                Err(e) => Err(e),
                Ok(n) => Ok((v, n)),
            },
        }
    }
}

/// Takes `n` values from the stack `stack`: the values, deepest first, or
/// the error of the first take that failed; and the stack that is left.
pub open spec fn pop_values(cars: Seq<Value>, cdrs: Seq<Value>, stack: Cons, n: nat) -> (
    Result<Seq<Value>, Error>,
    Cons,
)
    decreases n,
{
    if n == 0 {
        (Ok(seq![]), stack)
    } else {
        match pop_one(cars, cdrs, stack) {
            Err(e) => (Err(e), stack),
            Ok((v, rest)) => {
                let deeper = pop_values(cars, cdrs, rest, (n - 1) as nat);
                match deeper.0 {
                    Err(e) => (Err(e), deeper.1),
                    Ok(vs) => (Ok(vs.push(v)), deeper.1),
                }
            },
        }
    }
}

/// `new` is the heap `cars`, `cdrs` with the stack `stack`.
pub open spec fn holds(new: Memory, cars: Seq<Value>, cdrs: Seq<Value>, stack: Cons) -> bool {
    &&& new.cars() == cars
    &&& new.cdrs() == cdrs
    &&& new.stack_cons() == stack
}

/// What pushing `v` onto the stack `stack` of the heap `cars`, `cdrs` gives:
/// `new` and `r` are the heap and the result after the push.
pub open spec fn push_outcome(
    cars: Seq<Value>,
    cdrs: Seq<Value>,
    stack: Cons,
    v: Value,
    new: Memory,
    r: Result<(), Error>,
) -> bool {
    if cars.len() >= new.capacity() {
        r == Err::<(), Error>(Error::OutOfMemory) && holds(new, cars, cdrs, stack)
    } else {
        r is Ok && holds(
            new,
            cars.push(v),
            cdrs.push(Value::Cons(Cons { index: stack.index, tag: PAIR_TAG })),
            Cons { index: cars.len() as usize, tag: PAIR_TAG },
        )
    }
}

/// What allocating a cell with `car` and `cdr` and then pushing it onto the
/// stack `stack` of the heap `cars`, `cdrs` gives: `new` and `r` are the heap
/// and the result afterwards.
pub open spec fn allocate_push_outcome(
    cars: Seq<Value>,
    cdrs: Seq<Value>,
    stack: Cons,
    car: Value,
    cdr: Value,
    new: Memory,
    r: Result<(), Error>,
) -> bool {
    if cars.len() >= new.capacity() {
        r == Err::<(), Error>(Error::OutOfMemory) && holds(new, cars, cdrs, stack)
    } else {
        push_outcome(
            cars.push(car),
            cdrs.push(cdr),
            stack,
            Value::Cons(Cons { index: cars.len() as usize, tag: PAIR_TAG }),
            new,
            r,
        )
    }
}

/// `new_cars`, `new_cdrs` hold the cells of `cars`, `cdrs` unchanged, and
/// maybe more after them.
pub open spec fn extends(cars: Seq<Value>, cdrs: Seq<Value>, new_cars: Seq<Value>, new_cdrs: Seq<Value>) -> bool {
    &&& new_cars.len() >= cars.len()
    &&& new_cdrs.len() >= cdrs.len()
    &&& new_cars.subrange(0, cars.len() as int) == cars
    &&& new_cdrs.subrange(0, cdrs.len() as int) == cdrs
}

/// A heap of cells, each with a car and a cdr, and a stack held as a list in
/// the heap. Cells are allocated one after another up to a fixed capacity.
pub struct Memory {
    cars: Vec<Value>,
    cdrs: Vec<Value>,
    capacity: usize,
    stack: Cons,
}

impl Memory {
    /// The cars of all cells, by index.
    pub closed spec fn cars(&self) -> Seq<Value> {
        self.cars@
    }

    /// The cdrs of all cells, by index.
    pub closed spec fn cdrs(&self) -> Seq<Value> {
        self.cdrs@
    }

    /// The number of cells the heap may hold.
    pub closed spec fn capacity(&self) -> nat {
        self.capacity as nat
    }

    /// The cell on top of the stack.
    pub closed spec fn stack_cons(&self) -> Cons {
        self.stack
    }

    /// The number of allocated cells.
    pub open spec fn size(&self) -> nat {
        self.cars().len()
    }

    /// Every cell has a car and a cdr, and the heap is within its capacity.
    pub open spec fn wf(&self) -> bool {
        &&& self.cars().len() == self.cdrs().len()
        &&& CONSTANT_CELLS <= self.cars().len() <= self.capacity()
        &&& self.capacity() <= usize::MAX
    }

    /// Creates a heap of `size` values, that is `size / 2` cells, holding the
    /// null, false and true cells and an empty stack.
    pub fn new(size: usize) -> (r: Result<Memory, Error>)
        ensures
            size / 2 < CONSTANT_CELLS ==> r == Err::<Memory, Error>(Error::OutOfMemory),
            size / 2 >= CONSTANT_CELLS ==> (r matches Ok(m) && {
                &&& m.wf()
                &&& m.capacity() == size / 2
                &&& m.size() == CONSTANT_CELLS
                &&& m.stack_cons() == Memory::null_spec()
                &&& forall|i: int| 0 <= i < CONSTANT_CELLS ==> m.cars()[i] == Value::Number(0)
                &&& forall|i: int| 0 <= i < CONSTANT_CELLS ==> m.cdrs()[i] == Value::Number(0)
            }),
    {
        let capacity = size / 2;
        if capacity < CONSTANT_CELLS {
            return Err(Error::OutOfMemory);
        }
        let mut cars: Vec<Value> = Vec::new();
        let mut cdrs: Vec<Value> = Vec::new();
        let mut i: usize = 0;
        while i < CONSTANT_CELLS
            invariant
                i <= CONSTANT_CELLS,
                cars@.len() == i,
                cdrs@.len() == i,
                forall|j: int| 0 <= j < i ==> cars@[j] == Value::Number(0),
                forall|j: int| 0 <= j < i ==> cdrs@[j] == Value::Number(0),
            decreases CONSTANT_CELLS - i,
        {
            cars.push(Value::Number(0));
            cdrs.push(Value::Number(0));
            i = i + 1;
        }
        Ok(Memory { cars, cdrs, capacity, stack: Cons { index: NULL_INDEX, tag: PAIR_TAG } })
    }

    /// The cell that ends every list.
    pub open spec fn null_spec() -> Cons {
        Cons { index: NULL_INDEX, tag: PAIR_TAG }
    }

    /// The cell that stands for a boolean.
    pub open spec fn boolean_spec(b: bool) -> Cons {
        Cons { index: if b { TRUE_INDEX } else { FALSE_INDEX }, tag: PAIR_TAG }
    }

    /// Returns the cell that ends every list.
    pub fn null(&self) -> (r: Cons)
        ensures
            r == Memory::null_spec(),
    {
        Cons { index: NULL_INDEX, tag: PAIR_TAG }
    }

    /// Returns the cell that stands for a boolean.
    pub fn boolean(&self, b: bool) -> (r: Cons)
        ensures
            r == Memory::boolean_spec(b),
    {
        Cons { index: if b { TRUE_INDEX } else { FALSE_INDEX }, tag: PAIR_TAG }
    }

    /// Returns the cell on top of the stack.
    pub fn stack(&self) -> (r: Cons)
        ensures
            r == self.stack_cons(),
    {
        self.stack
    }

    /// Returns the car of a cell.
    pub fn car(&self, c: Cons) -> (r: Result<Value, Error>)
        requires
            self.wf(),
        ensures
            r == car_of(self.cars(), c),
    {
        if c.index < self.cars.len() {
            Ok(self.cars[c.index])
        } else {
            Err(Error::InvalidMemoryAccess)
        }
    }

    /// Returns the cdr of a cell.
    pub fn cdr(&self, c: Cons) -> (r: Result<Value, Error>)
        requires
            self.wf(),
        ensures
            r == cdr_of(self.cdrs(), c),
    {
        if c.index < self.cdrs.len() {
            Ok(self.cdrs[c.index])
        } else {
            Err(Error::InvalidMemoryAccess)
        }
    }

    /// Returns the cell that the cdr of a cell references.
    pub fn next(&self, c: Cons) -> (r: Result<Cons, Error>)
        requires
            self.wf(),
        ensures
            r == next_of(self.cdrs(), c),
    {
        let v = self.cdr(c)?;
        expect_cons(v)
    }

    /// Replaces the car of a cell.
    pub fn set_car(&mut self, c: Cons, v: Value) -> (r: Result<(), Error>)
        requires
            old(self).wf(),
        ensures
            final(self).wf(),
            final(self).cdrs() == old(self).cdrs(),
            final(self).capacity() == old(self).capacity(),
            final(self).stack_cons() == old(self).stack_cons(),
            c.index < old(self).size() ==> r is Ok && final(self).cars() == old(self).cars().update(
                c.index as int,
                v,
            ),
            c.index >= old(self).size() ==> r == Err::<(), Error>(Error::InvalidMemoryAccess)
                && final(self).cars() == old(self).cars(),
    {
        if c.index < self.cars.len() {
            self.cars.set(c.index, v);
            Ok(())
        } else {
            Err(Error::InvalidMemoryAccess)
        }
    }

    /// Replaces the cdr of a cell.
    pub fn set_cdr(&mut self, c: Cons, v: Value) -> (r: Result<(), Error>)
        requires
            old(self).wf(),
        ensures
            final(self).wf(),
            final(self).cars() == old(self).cars(),
            final(self).capacity() == old(self).capacity(),
            final(self).stack_cons() == old(self).stack_cons(),
            c.index < old(self).size() ==> r is Ok && final(self).cdrs() == old(self).cdrs().update(
                c.index as int,
                v,
            ),
            c.index >= old(self).size() ==> r == Err::<(), Error>(Error::InvalidMemoryAccess)
                && final(self).cdrs() == old(self).cdrs(),
    {
        if c.index < self.cdrs.len() {
            self.cdrs.set(c.index, v);
            Ok(())
        } else {
            Err(Error::InvalidMemoryAccess)
        }
    }

    /// Allocates a cell with the given car and cdr.
    pub fn allocate(&mut self, car: Value, cdr: Value) -> (r: Result<Cons, Error>)
        requires
            old(self).wf(),
        ensures
            final(self).wf(),
            final(self).capacity() == old(self).capacity(),
            final(self).stack_cons() == old(self).stack_cons(),
            old(self).size() >= old(self).capacity() ==> r == Err::<Cons, Error>(
                Error::OutOfMemory,
            ) && final(self).cars() == old(self).cars() && final(self).cdrs() == old(self).cdrs(),
            old(self).size() < old(self).capacity() ==> r == Ok::<Cons, Error>(
                Cons { index: old(self).size() as usize, tag: PAIR_TAG },
            ) && final(self).cars() == old(self).cars().push(car) && final(self).cdrs() == old(
                self,
            ).cdrs().push(cdr),
    {
        if self.cars.len() >= self.capacity {
            return Err(Error::OutOfMemory);
        }
        let index = self.cars.len();
        self.cars.push(car);
        self.cdrs.push(cdr);
        Ok(Cons { index, tag: PAIR_TAG })
    }

    /// Allocates a pair whose cdr is the given list.
    pub fn cons(&mut self, car: Value, cdr: Cons) -> (r: Result<Cons, Error>)
        requires
            old(self).wf(),
        ensures
            final(self).wf(),
            final(self).capacity() == old(self).capacity(),
            final(self).stack_cons() == old(self).stack_cons(),
            old(self).size() >= old(self).capacity() ==> r == Err::<Cons, Error>(
                Error::OutOfMemory,
            ) && final(self).cars() == old(self).cars() && final(self).cdrs() == old(self).cdrs(),
            old(self).size() < old(self).capacity() ==> r == Ok::<Cons, Error>(
                Cons { index: old(self).size() as usize, tag: PAIR_TAG },
            ) && final(self).cars() == old(self).cars().push(car) && final(self).cdrs() == old(
                self,
            ).cdrs().push(Value::Cons(Cons { index: cdr.index, tag: PAIR_TAG })),
    {
        self.allocate(car, Value::Cons(cdr.set_tag(PAIR_TAG)))
    }

    /// Pushes a value onto the stack.
    pub fn push(&mut self, v: Value) -> (r: Result<(), Error>)
        requires
            old(self).wf(),
        ensures
            final(self).wf(),
            final(self).capacity() == old(self).capacity(),
            old(self).size() >= old(self).capacity() ==> r == Err::<(), Error>(Error::OutOfMemory)
                && final(self).cars() == old(self).cars() && final(self).cdrs() == old(self).cdrs()
                && final(self).stack_cons() == old(self).stack_cons(),
            old(self).size() < old(self).capacity() ==> r is Ok && final(self).cars() == old(
                self,
            ).cars().push(v) && final(self).cdrs() == old(self).cdrs().push(
                Value::Cons(Cons { index: old(self).stack_cons().index, tag: PAIR_TAG }),
            ) && final(self).stack_cons() == (Cons {
                index: old(self).size() as usize,
                tag: PAIR_TAG,
            }),
    {
        let c = self.cons(v, self.stack)?;
        self.stack = c;
        Ok(())
    }

    /// Removes the value on top of the stack and returns it.
    pub fn pop(&mut self) -> (r: Result<Value, Error>)
        requires
            old(self).wf(),
        ensures
            final(self).wf(),
            final(self).cars() == old(self).cars(),
            final(self).cdrs() == old(self).cdrs(),
            final(self).capacity() == old(self).capacity(),
            is_null(old(self).stack_cons()) ==> r == Err::<Value, Error>(Error::StackUnderflow)
                && final(self).stack_cons() == old(self).stack_cons(),
            !is_null(old(self).stack_cons()) ==> match (
                car_of(old(self).cars(), old(self).stack_cons()),
                next_of(old(self).cdrs(), old(self).stack_cons()),
            ) {
                (Ok(v), Ok(n)) => r == Ok::<Value, Error>(v) && final(self).stack_cons() == n,
                (Err(e), _) => r == Err::<Value, Error>(e) && final(self).stack_cons() == old(
                    self,
                ).stack_cons(),
                (Ok(_), Err(e)) => r == Err::<Value, Error>(e) && final(self).stack_cons() == old(
                    self,
                ).stack_cons(),
            },
    {
        if self.stack.index == NULL_INDEX {
            return Err(Error::StackUnderflow);
        }
        let v = self.car(self.stack)?;
        let n = self.next(self.stack)?;
        self.stack = n;
        Ok(v)
    }

    /// Takes `n` values from the stack and returns them, deepest first.
    pub fn pop_many(&mut self, n: usize) -> (r: Result<Vec<Value>, Error>)
        requires
            old(self).wf(),
        ensures
            final(self).wf(),
            final(self).cars() == old(self).cars(),
            final(self).cdrs() == old(self).cdrs(),
            final(self).capacity() == old(self).capacity(),
            ({
                let p = pop_values(old(self).cars(), old(self).cdrs(), old(self).stack_cons(), n as nat);
                &&& final(self).stack_cons() == p.1
                &&& match p.0 {
                    Ok(vs) => r matches Ok(values) && values@ == vs,
                    Err(e) => r == Err::<Vec<Value>, Error>(e),
                }
            }),
            r matches Ok(values) ==> values@.len() == n,
        decreases n,
    {
        if n == 0 {
            return Ok(Vec::new());
        }
        let v = self.pop()?;
        let mut values = self.pop_many(n - 1)?;
        values.push(v);
        Ok(values)
    }

    /// Returns the value on top of the stack.
    pub fn top(&self) -> (r: Result<Value, Error>)
        requires
            self.wf(),
        ensures
            is_null(self.stack_cons()) ==> r == Err::<Value, Error>(Error::StackUnderflow),
            !is_null(self.stack_cons()) ==> r == car_of(self.cars(), self.stack_cons()),
    {
        if self.stack.index == NULL_INDEX {
            return Err(Error::StackUnderflow);
        }
        self.car(self.stack)
    }

    /// Replaces the value on top of the stack.
    pub fn set_top(&mut self, v: Value) -> (r: Result<(), Error>)
        requires
            old(self).wf(),
        ensures
            final(self).wf(),
            final(self).cdrs() == old(self).cdrs(),
            final(self).capacity() == old(self).capacity(),
            final(self).stack_cons() == old(self).stack_cons(),
            is_null(old(self).stack_cons()) ==> r == Err::<(), Error>(Error::StackUnderflow)
                && final(self).cars() == old(self).cars(),
            !is_null(old(self).stack_cons()) && old(self).stack_cons().index < old(self).size()
                ==> r is Ok && final(self).cars() == old(self).cars().update(
                old(self).stack_cons().index as int,
                v,
            ),
            !is_null(old(self).stack_cons()) && old(self).stack_cons().index >= old(self).size()
                ==> r == Err::<(), Error>(Error::InvalidMemoryAccess) && final(self).cars() == old(
                self,
            ).cars(),
    {
        if self.stack.index == NULL_INDEX {
            return Err(Error::StackUnderflow);
        }
        let s = self.stack;
        self.set_car(s, v)
    }

    /// Returns the cell reached from `c` by following `n` cdrs.
    pub fn tail(&self, c: Cons, n: usize) -> (r: Result<Cons, Error>)
        requires
            self.wf(),
        ensures
            r == tail_of(self.cdrs(), c, n as nat),
    {
        let mut current = c;
        let mut i: usize = 0;
        while i < n
            invariant
                self.wf(),
                i <= n,
                tail_of(self.cdrs(), c, n as nat) == tail_of(
                    self.cdrs(),
                    current,
                    (n - i) as nat,
                ),
            decreases n - i,
        {
            current = self.next(current)?;
            i = i + 1;
        }
        Ok(current)
    }
}

/// Cells kept through two steps are kept through both.
pub proof fn lemma_extends_trans(
    cars0: Seq<Value>,
    cdrs0: Seq<Value>,
    cars1: Seq<Value>,
    cdrs1: Seq<Value>,
    cars2: Seq<Value>,
    cdrs2: Seq<Value>,
)
    requires
        extends(cars0, cdrs0, cars1, cdrs1),
        extends(cars1, cdrs1, cars2, cdrs2),
    ensures
        extends(cars0, cdrs0, cars2, cdrs2),
{
    assert(cars2.subrange(0, cars0.len() as int) =~= cars1.subrange(0, cars0.len() as int));
    assert(cdrs2.subrange(0, cdrs0.len() as int) =~= cdrs1.subrange(0, cdrs0.len() as int));
}

/// A kept cell holds what it held.
pub proof fn lemma_extends_index(
    cars: Seq<Value>,
    cdrs: Seq<Value>,
    new_cars: Seq<Value>,
    new_cdrs: Seq<Value>,
    k: int,
)
    requires
        extends(cars, cdrs, new_cars, new_cdrs),
        0 <= k < cars.len(),
        0 <= k < cdrs.len(),
    ensures
        new_cars[k] == cars[k],
        new_cdrs[k] == cdrs[k],
{
    assert(new_cars.subrange(0, cars.len() as int)[k] == new_cars[k]);
    assert(new_cdrs.subrange(0, cdrs.len() as int)[k] == new_cdrs[k]);
}

/// Popping after a push gives back the value pushed and returns to the
/// stack below it.
pub proof fn lemma_pop_after_push(old: Memory, new: Memory, v: Value)
    requires
        old.wf(),
        push_outcome(old.cars(), old.cdrs(), old.stack_cons(), v, new, Ok(())),
    ensures
        !is_null(new.stack_cons()),
        car_of(new.cars(), new.stack_cons()) == Ok::<Value, Error>(v),
        next_of(new.cdrs(), new.stack_cons()) == Ok::<Cons, Error>(
            Cons { index: old.stack_cons().index, tag: PAIR_TAG },
        ),
{
}

} // verus!
