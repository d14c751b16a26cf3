use vstd::prelude::*;
use crate::memory::{car_cons_of, car_of, next_of, tail_of, Memory};
use crate::value::{cons_of, expect_cons, Cons, Error, Value};

verus! {

/// `base` raised to `exp`.
pub open spec fn power(base: nat, exp: nat) -> nat
    decreases exp,
{
    if exp == 0 {
        1
    } else {
        base * power(base, (exp - 1) as nat)
    }
}

/// A power of a base of at least one grows with the exponent.
pub proof fn lemma_power_monotone(base: nat, e1: nat, e2: nat)
    requires
        base >= 1,
        e1 <= e2,
    ensures
        power(base, e1) <= power(base, e2),
    decreases e2,
{
    if e1 < e2 {
        lemma_power_monotone(base, e1, (e2 - 1) as nat);
        let p = power(base, (e2 - 1) as nat);
        assert(base * p >= p) by (nonlinear_arith)
            requires
                base >= 1,
        ;
    }
}

/// A power of a positive base is positive.
pub proof fn lemma_power_positive(base: nat, exp: nat)
    requires
        base >= 1,
    ensures
        power(base, exp) >= 1,
    decreases exp,
{
    if exp > 0 {
        lemma_power_positive(base, (exp - 1) as nat);
        let p = power(base, (exp - 1) as nat);
        assert(base * p >= 1) by (nonlinear_arith)
            requires
                base >= 1,
                p >= 1,
        ;
    }
}

/// The number of levels above the leaves of a tree vector of `length`
/// elements whose nodes hold at most `factor` children: how often `length`
/// is divided by `factor`, rounding up, before it is at most `factor`.
pub open spec fn vector_height_spec(factor: nat, length: nat) -> nat
    decreases length,
{
    if factor > 1 && length > factor {
        proof {
            assert(((length - 1) as nat) / factor < length - 1) by (nonlinear_arith)
                requires
                    factor > 1,
                    length > factor,
            ;
        }
        1 + vector_height_spec(factor, 1 + ((length - 1) as nat) / factor)
    } else {
        0
    }
}

/// `a` divided by `b`, rounded down.
pub open spec fn quotient(a: nat, b: nat) -> nat {
    a / b
}

/// The remainder of `a` divided by `b`.
pub open spec fn remainder(a: nat, b: nat) -> nat {
    a % b
}

/// The cell that holds element `index` of the tree vector rooted at `list`
/// with `level` levels above the leaves: the element's base-`factor` digits,
/// most significant first, select a child at each level and the element in
/// the leaf list.
pub open spec fn tree_cell(
    cars: Seq<crate::value::Value>,
    cdrs: Seq<crate::value::Value>,
    list: Cons,
    index: nat,
    level: nat,
    factor: nat,
) -> Result<Cons, Error>
    decreases level,
{
    match tail_of(cdrs, list, quotient(index, power(factor, level))) {
        Err(e) => Err(e),
        Ok(node) => if level == 0 {
            Ok(node)
        } else {
            match car_cons_of(cars, node) {
                Err(e) => Err(e),
                Ok(child) => tree_cell(
                    cars,
                    cdrs,
                    child,
                    remainder(index, power(factor, level)),
                    (level - 1) as nat,
                    factor,
                ),
            }
        },
    }
}

/// The cell of element `index` of the tree vector of `length` elements rooted
/// at `root`, or the error that looking it up gives.
pub open spec fn list_vector_cell_spec(
    memory: Memory,
    root: Cons,
    length: nat,
    index: nat,
    factor: nat,
) -> Result<Cons, Error> {
    if factor <= 1 || index >= length {
        Err(Error::InvalidMemoryAccess)
    } else if power(factor, vector_height_spec(factor, length)) > usize::MAX {
        Err(Error::InvalidMemoryAccess)
    } else {
        tree_cell(
            memory.cars(),
            memory.cdrs(),
            root,
            index,
            vector_height_spec(factor, length),
            factor,
        )
    }
}

/// What remains of a lookup that has reached `list` at the level above
/// `level`: descend into its car, then look up `remainder` there.
pub open spec fn descend_from(
    memory: Memory,
    list: Cons,
    remainder: nat,
    level: int,
    factor: nat,
) -> Result<Cons, Error> {
    if level < 0 {
        Ok(list)
    } else {
        match car_cons_of(memory.cars(), list) {
            Err(e) => Err(e),
            Ok(child) => tree_cell(
                memory.cars(),
                memory.cdrs(),
                child,
                remainder,
                level as nat,
                factor,
            ),
        }
    }
}

/// Returns a cell at an index in a list-backed tree vector.
pub fn list_vector_cell<const FACTOR: usize>(
    memory: &Memory,
    root: Cons,
    length: usize,
    index: usize,
) -> (r: Result<Cons, Error>)
    requires
        memory.wf(),
    ensures
        r == list_vector_cell_spec(*memory, root, length as nat, index as nat, FACTOR as nat),
{
    if FACTOR <= 1 || index >= length {
        return Err(Error::InvalidMemoryAccess);
    }
    let ghost f = FACTOR as nat;
    let ghost h = vector_height_spec(f, length as nat);

    let mut height: usize = 0;
    let mut node_length = length;
    while node_length > FACTOR
        invariant
            FACTOR > 1,
            f == FACTOR as nat,
            h == height + vector_height_spec(f, node_length as nat),
            height + node_length <= length,
        decreases node_length,
    {
        assert(((node_length - 1) as int) / (FACTOR as int) < node_length - 1) by (nonlinear_arith)
            requires
                FACTOR > 1,
                node_length > FACTOR,
        ;
        node_length = 1 + (node_length - 1) / FACTOR;
        height = height + 1;
    }

    let mut stride: usize = 1;
    let mut i: usize = 0;
    while i < height
        invariant
            FACTOR > 1,
            index < length,
            f == FACTOR as nat,
            h == vector_height_spec(f, length as nat),
            height == h,
            i <= height,
            stride as nat == power(f, i as nat),
        decreases height - i,
    {
        match stride.checked_mul(FACTOR) {
            Some(s) => {
                proof {
                    assert(power(f, (i + 1) as nat) == f * power(f, i as nat));
                    assert(f * power(f, i as nat) == stride * FACTOR) by (nonlinear_arith)
                        requires
                            f == FACTOR as nat,
                            stride as nat == power(f, i as nat),
                    ;
                }
                stride = s;
            },
            None => {
                proof {
                    assert(power(f, (i + 1) as nat) == f * power(f, i as nat));
                    assert(f * power(f, i as nat) == stride * FACTOR) by (nonlinear_arith)
                        requires
                            f == FACTOR as nat,
                            stride as nat == power(f, i as nat),
                    ;
                    lemma_power_monotone(f, (i + 1) as nat, h);
                }
                return Err(Error::InvalidMemoryAccess);
            },
        }
        i = i + 1;
    }

    proof {
        lemma_power_positive(f, h);
    }
    let ghost goal = tree_cell(memory.cars(), memory.cdrs(), root, index as nat, h, f);
    assert(list_vector_cell_spec(*memory, root, length as nat, index as nat, f) == goal);
    let mut list = root;
    let mut remainder = index;
    let mut first = true;
    let ghost mut k: int = h as int;
    while stride > 0
        invariant
            memory.wf(),
            FACTOR > 1,
            f == FACTOR as nat,
            k <= h,
            k >= -1,
            k >= 0 ==> stride as nat == power(f, k as nat),
            k < 0 ==> stride == 0,
            k >= 0 ==> stride > 0,
            goal == tree_cell(memory.cars(), memory.cdrs(), root, index as nat, h, f),
            goal == list_vector_cell_spec(*memory, root, length as nat, index as nat, f),
            first ==> list == root && remainder == index && k == h,
            !first ==> goal == descend_from(*memory, list, remainder as nat, k, f),
        decreases stride,
    {
        if !first {
            let v = memory.car(list)?;
            list = expect_cons(v)?;
        }
        list = memory.tail(list, remainder / stride)?;
        remainder = remainder % stride;
        proof {
            if k >= 1 {
                let p = power(f, (k - 1) as nat);
                assert(power(f, k as nat) == f * p);
                assert((f * p) / f == p) by (nonlinear_arith)
                    requires
                        f > 1,
                ;
                lemma_power_positive(f, (k - 1) as nat);
            } else {
                assert(1nat / f == 0) by (nonlinear_arith)
                    requires
                        f > 1,
                ;
            }
            assert(stride / FACTOR < stride) by (nonlinear_arith)
                requires
                    FACTOR > 1,
                    stride > 0,
            ;
        }
        stride = stride / FACTOR;
        first = false;
        proof {
            k = k - 1;
        }
    }
    Ok(list)
}

} // verus!

verus! {

/// True when `index` is a multiple of `factor`, with zero the only multiple
/// of zero.
pub open spec fn is_multiple(index: nat, factor: nat) -> bool {
    if factor == 0 {
        index == 0
    } else {
        index % factor == 0
    }
}

/// True when every element of the tree vector has a cell, and the cell of
/// each element that does not start a leaf is the cdr of the cell before it.
pub open spec fn leaf_linked(memory: Memory, root: Cons, length: nat, factor: nat) -> bool {
    &&& forall|i: nat| i < length ==> (#[trigger] list_vector_cell_spec(memory, root, length, i, factor)) is Ok
    &&& forall|i: nat|
        0 < i < length && !is_multiple(i, factor) ==> next_of(
            memory.cdrs(),
            list_vector_cell_spec(memory, root, length, (i - 1) as nat, factor)->Ok_0,
        ) == #[trigger] list_vector_cell_spec(memory, root, length, i, factor)
}

/// A forward cursor over cells in a list-backed tree vector.
///
/// The cursor follows leaf-list links for adjacent elements and only descends
/// from the root when it crosses a leaf boundary.
///
/// The cursor stores heap locations directly. It is valid only while the
/// underlying memory does not allocate or collect garbage, and every call to
/// [`Self::next`] must use the same memory that was passed to [`Self::new`].
pub struct ListVectorCursor<const FACTOR: usize> {
    root: Cons,
    length: usize,
    index: usize,
    cell: Cons,
}

impl<const FACTOR: usize> ListVectorCursor<FACTOR> {
    /// The root of the vector.
    pub closed spec fn root(&self) -> Cons {
        self.root
    }

    /// The length of the vector.
    pub closed spec fn length(&self) -> nat {
        self.length as nat
    }

    /// The index of the element the cursor stands at.
    pub closed spec fn index(&self) -> nat {
        self.index as nat
    }

    /// The cell the cursor holds for its current element.
    pub closed spec fn cell(&self) -> Cons {
        self.cell
    }

    /// True when the cursor holds the cell of its current element, if there
    /// is one.
    pub open spec fn tracks(&self, memory: Memory) -> bool {
        self.index() < self.length() ==> list_vector_cell_spec(
            memory,
            self.root(),
            self.length(),
            self.index(),
            FACTOR as nat,
        ) == Ok::<Cons, Error>(self.cell())
    }

    /// What a call of [`Self::next`] does: `old` is the cursor before the
    /// call, `new` after it, `r` its result.
    pub open spec fn next_spec(old: Self, new: Self, r: Result<Cons, Error>, memory: Memory) -> bool {
        match cursor_step(memory, old.root(), old.length(), old.index(), old.cell(), FACTOR as nat) {
            Ok((y, i, c)) => {
                &&& r == Ok::<Cons, Error>(y)
                &&& new.root() == old.root()
                &&& new.length() == old.length()
                &&& new.index() == i
                &&& new.cell() == c
            },
            Err(e) => {
                &&& r == Err::<Cons, Error>(e)
                &&& old.index() >= old.length() ==> new == old
                &&& old.index() < old.length() ==> {
                    &&& new.root() == old.root()
                    &&& new.length() == old.length()
                    &&& new.index() == old.index() + 1
                    &&& new.cell() == old.cell()
                }
            },
        }
    }

    /// Creates a cursor positioned at an index.
    pub fn new(memory: &Memory, root: Cons, length: usize, index: usize) -> (r: Result<Self, Error>)
        requires
            memory.wf(),
        ensures
            match list_vector_cell_spec(*memory, root, length as nat, index as nat, FACTOR as nat) {
                Ok(c) => r matches Ok(cursor) && cursor.root() == root && cursor.length() == length
                    && cursor.index() == index && cursor.cell() == c,
                Err(e) => r == Err::<Self, Error>(e),
            },
    {
        let cell = list_vector_cell::<FACTOR>(memory, root, length, index)?;
        Ok(Self { root, length, index, cell })
    }

    /// Returns the current cell and advances to the next one.
    pub fn next(&mut self, memory: &Memory) -> (r: Result<Cons, Error>)
        requires
            memory.wf(),
        ensures
            Self::next_spec(*old(self), *final(self), r, *memory),
    {
        if self.index >= self.length {
            return Err(Error::InvalidMemoryAccess);
        }
        let cell = self.cell;
        self.index = self.index + 1;
        if self.index < self.length {
            self.cell = if self.index.is_multiple_of(FACTOR) {
                list_vector_cell::<FACTOR>(memory, self.root, self.length, self.index)?
            } else {
                memory.next(cell)?
            };
        }
        Ok(cell)
    }
}

/// A cursor that holds the cell of its element, over a vector whose leaves
/// are linked lists, yields the cell of each element in turn: a call of
/// `next` returns the cell of the current element and leaves the cursor
/// holding the cell of the following one.
pub proof fn lemma_cursor_follows_vector<const FACTOR: usize>(
    old: ListVectorCursor<FACTOR>,
    new: ListVectorCursor<FACTOR>,
    r: Result<Cons, Error>,
    memory: Memory,
)
    requires
        old.tracks(memory),
        old.index() < old.length(),
        leaf_linked(memory, old.root(), old.length(), FACTOR as nat),
        ListVectorCursor::<FACTOR>::next_spec(old, new, r, memory),
    ensures
        r == list_vector_cell_spec(memory, old.root(), old.length(), old.index(), FACTOR as nat),
        new.tracks(memory),
        new.index() == old.index() + 1,
{
    let i = old.index() + 1;
    if i < old.length() {
        assert(list_vector_cell_spec(memory, old.root(), old.length(), i, FACTOR as nat) is Ok);
        if !is_multiple(i, FACTOR as nat) {
            assert(next_of(
                memory.cdrs(),
                list_vector_cell_spec(memory, old.root(), old.length(), (i - 1) as nat, FACTOR as nat)->Ok_0,
            ) == list_vector_cell_spec(memory, old.root(), old.length(), i, FACTOR as nat));
        }
    }
}

} // verus!

verus! {

/// `new` differs from `cars` only where both hold integers: every car that
/// references a cell, before or after, is the same in both.
pub open spec fn number_preserving(cars: Seq<crate::value::Value>, new: Seq<crate::value::Value>) -> bool {
    &&& new.len() == cars.len()
    &&& forall|k: int|
        0 <= k < cars.len() && ((#[trigger] cars[k]) is Cons || new[k] is Cons) ==> new[k] == cars[k]
}

proof fn lemma_index_nonnegative(c: Cons)
    ensures
        c.index as int >= 0,
{
}

/// Changing integers into integers leaves every lookup in a tree vector as
/// it was: a lookup reads only the cars of inner nodes, which reference
/// cells.
pub proof fn lemma_tree_cell_frame(
    cars: Seq<crate::value::Value>,
    new: Seq<crate::value::Value>,
    cdrs: Seq<crate::value::Value>,
    list: Cons,
    index: nat,
    level: nat,
    factor: nat,
)
    requires
        number_preserving(cars, new),
    ensures
        tree_cell(new, cdrs, list, index, level, factor) == tree_cell(
            cars,
            cdrs,
            list,
            index,
            level,
            factor,
        ),
    decreases level,
{
    let t = tail_of(cdrs, list, quotient(index, power(factor, level)));
    if t is Ok {
        let node = t->Ok_0;
        {
            if level > 0 {
                let k = node.index as int;
                lemma_index_nonnegative(node);
                assert(new.len() == cars.len());
                if 0 <= k && k < cars.len() {
                    let a = cars[k];
                    let b = new[k];
                    assert(a is Cons ==> b == a);
                    assert(b is Cons ==> b == a);
                    assert(car_of(cars, node) == Ok::<Value, Error>(a));
                    assert(car_of(new, node) == Ok::<Value, Error>(b));
                    assert(cons_of(a) == cons_of(b));
                }
                assert(car_cons_of(new, node) == car_cons_of(cars, node));
                match car_cons_of(cars, node) {
                    Err(_) => {},
                    Ok(child) => {
                        lemma_tree_cell_frame(
                            cars,
                            new,
                            cdrs,
                            child,
                            remainder(index, power(factor, level)),
                            (level - 1) as nat,
                            factor,
                        );
                        assert(car_cons_of(new, node) is Ok);
                        assert(tail_of(cdrs, list, quotient(index, power(factor, level))) is Ok);
                        let t1 = tree_cell(cars, cdrs, list, index, level, factor);
                        let t2 = tree_cell(new, cdrs, list, index, level, factor);
                        assert(t1 == tree_cell(
                            cars,
                            cdrs,
                            child,
                            remainder(index, power(factor, level)),
                            (level - 1) as nat,
                            factor,
                        ));
                        assert(t2 == tree_cell(
                            new,
                            cdrs,
                            child,
                            remainder(index, power(factor, level)),
                            (level - 1) as nat,
                            factor,
                        ));
                    },
                }
            }
        }
    }
}

/// Changing integers into integers leaves every element cell of every tree
/// vector where it was.
pub proof fn lemma_list_vector_cell_frame(
    memory: Memory,
    new: Memory,
    root: Cons,
    length: nat,
    index: nat,
    factor: nat,
)
    requires
        new.cdrs() == memory.cdrs(),
        number_preserving(memory.cars(), new.cars()),
    ensures
        list_vector_cell_spec(new, root, length, index, factor) == list_vector_cell_spec(
            memory,
            root,
            length,
            index,
            factor,
        ),
{
    lemma_tree_cell_frame(
        memory.cars(),
        new.cars(),
        memory.cdrs(),
        root,
        index,
        vector_height_spec(factor, length),
        factor,
    );
}

/// One call of `next` on a cursor over the vector of `length` elements
/// rooted at `root` that stands at `index` and holds `cell`: the cell it
/// yields and the index and cell the cursor holds afterwards, or the error.
pub open spec fn cursor_step(
    memory: Memory,
    root: Cons,
    length: nat,
    index: nat,
    cell: Cons,
    factor: nat,
) -> Result<(Cons, nat, Cons), Error> {
    if index >= length {
        Err(Error::InvalidMemoryAccess)
    } else if index + 1 >= length {
        Ok((cell, index + 1, cell))
    } else {
        let refreshed = if is_multiple(index + 1, factor) {
            list_vector_cell_spec(memory, root, length, index + 1, factor)
        } else {
            next_of(memory.cdrs(), cell)
        };
        match refreshed {
            Err(e) => Err(e),
            Ok(c) => Ok((cell, index + 1, c)),
        }
    }
}

/// `k` calls of `next` on such a cursor: the cells yielded by the calls
/// that succeeded, in order, and the index and cell the cursor holds after
/// them, or the error of the call that failed.
pub open spec fn cursor_steps(
    memory: Memory,
    root: Cons,
    length: nat,
    index: nat,
    cell: Cons,
    k: nat,
    factor: nat,
) -> (Seq<Cons>, Result<(nat, Cons), Error>)
    decreases k,
{
    if k == 0 {
        (seq![], Ok((index, cell)))
    } else {
        let before = cursor_steps(memory, root, length, index, cell, (k - 1) as nat, factor);
        match before.1 {
            Err(e) => before,
            Ok((i, c)) => match cursor_step(memory, root, length, i, c, factor) {
                Err(e) => (before.0, Err(e)),
                Ok((y, i2, c2)) => (before.0.push(y), Ok((i2, c2))),
            },
        }
    }
}

/// Changing integers into integers leaves every call of `next` as it was.
pub proof fn lemma_cursor_step_frame(
    memory: Memory,
    new: Memory,
    root: Cons,
    length: nat,
    index: nat,
    cell: Cons,
    factor: nat,
)
    requires
        new.cdrs() == memory.cdrs(),
        number_preserving(memory.cars(), new.cars()),
    ensures
        cursor_step(new, root, length, index, cell, factor) == cursor_step(
            memory,
            root,
            length,
            index,
            cell,
            factor,
        ),
{
    lemma_list_vector_cell_frame(memory, new, root, length, index + 1, factor);
}

/// Over a vector whose leaves are linked lists, a cursor that holds the cell
/// of its element yields the cells of consecutive elements.
pub proof fn lemma_cursor_steps_linked(
    memory: Memory,
    root: Cons,
    length: nat,
    index: nat,
    k: nat,
    factor: nat,
)
    requires
        leaf_linked(memory, root, length, factor),
        index + k <= length,
        index < length,
    ensures
        ({
            let run = cursor_steps(
                memory,
                root,
                length,
                index,
                list_vector_cell_spec(memory, root, length, index, factor)->Ok_0,
                k,
                factor,
            );
            &&& run.0 == Seq::new(
                k,
                |j: int| list_vector_cell_spec(memory, root, length, (index + j) as nat, factor)->Ok_0,
            )
            &&& run.1 is Ok
            &&& run.1->Ok_0.0 == index + k
            &&& index + k < length ==> run.1->Ok_0.1 == list_vector_cell_spec(
                memory,
                root,
                length,
                index + k,
                factor,
            )->Ok_0
        }),
    decreases k,
{
    let cell = list_vector_cell_spec(memory, root, length, index, factor)->Ok_0;
    assert(list_vector_cell_spec(memory, root, length, index, factor) is Ok);
    if k == 0 {
        assert(Seq::new(
            0,
            |j: int| list_vector_cell_spec(memory, root, length, (index + j) as nat, factor)->Ok_0,
        ) =~= seq![]);
    } else {
        lemma_cursor_steps_linked(memory, root, length, index, (k - 1) as nat, factor);
        let i = index + (k - 1);
        let c = list_vector_cell_spec(memory, root, length, i as nat, factor)->Ok_0;
        assert(list_vector_cell_spec(memory, root, length, i as nat, factor) is Ok);
        let next = i + 1;
        if next < length {
            assert(list_vector_cell_spec(memory, root, length, next as nat, factor) is Ok);
            if !is_multiple(next as nat, factor) {
                assert(next_of(
                    memory.cdrs(),
                    list_vector_cell_spec(memory, root, length, (next - 1) as nat, factor)->Ok_0,
                ) == list_vector_cell_spec(memory, root, length, next as nat, factor));
            }
        }
        let before = Seq::new(
            (k - 1) as nat,
            |j: int| list_vector_cell_spec(memory, root, length, (index + j) as nat, factor)->Ok_0,
        );
        assert(before.push(c) =~= Seq::new(
            k,
            |j: int| list_vector_cell_spec(memory, root, length, (index + j) as nat, factor)->Ok_0,
        ));
    }
}

} // verus!
