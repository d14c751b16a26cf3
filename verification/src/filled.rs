use vstd::prelude::*;
use crate::bytevector::{
    element_byte, element_cell, vector_ok, byte, byte_spec, nonnegative_integer, nonnegative_integer_spec, vector_capacity,
    vector_capacity_spec, vector_height, BYTEVECTOR_TAG, VECTOR_FACTOR,
};
use crate::list_vector::{
    is_multiple, leaf_linked, lemma_power_monotone, lemma_power_positive, list_vector_cell_spec, power,
    vector_height_spec,
};
use crate::tree::{
    children_filled, children_laid, chunk_length, filled_tree, lemma_children_laid_extends,
    lemma_children_laid_push, lemma_filled_tree_extends, lemma_leaf_filled, lemma_leaf_step,
    lemma_element_at_retag, lemma_height_power, lemma_list_built_extends, lemma_list_step,
    lemma_node_filled, leaf_built, list_built, node_values, element_at,
};
use crate::memory::{
    car_of, cdr_of, extends, holds, is_null, lemma_extends_index, lemma_extends_trans, next_of,
    pop_values, Memory,
};
use crate::string::pair;
use crate::value::{expect_cons, expect_number, number_of, Cons, Error, Value, PAIR_TAG};

verus! {

/// A node `height` levels above the leaves holds at least one element per
/// child.
pub proof fn lemma_capacity_positive(height: nat)
    ensures
        vector_capacity_spec(height) >= 1,
{
    lemma_power_positive(VECTOR_FACTOR as nat, height);
}

/// The number of elements of the first child of a node `height` levels
/// above the leaves that holds `count` elements.
#[verifier::opaque]
pub open spec fn first_chunk(count: nat, height: nat) -> nat {
    if count <= vector_capacity_spec(height) {
        count
    } else {
        vector_capacity_spec(height)
    }
}

/// The number of cells that building a filled node of `count` elements,
/// `height` levels above the leaves, allocates: a cell per leaf element or
/// per child, and one for the stack slot that holds the node.
pub open spec fn build_cells(count: nat, height: nat) -> nat
    decreases height, 1nat, count,
{
    if height == 0 {
        count + 1
    } else {
        children_cells(count, height) + child_count(count, height) + 1
    }
}

/// The cells that building the children of a node `height` levels above the
/// leaves that holds `count` elements allocates.
pub open spec fn children_cells(count: nat, height: nat) -> nat
    decreases height, 0nat, count,
{
    if height == 0 || count == 0 {
        0
    } else {
        proof {
            lemma_capacity_positive(height);
        }
        let first = if count <= vector_capacity_spec(height) {
            count
        } else {
            vector_capacity_spec(height)
        };
        build_cells(first, (height - 1) as nat) + children_cells((count - first) as nat, height)
    }
}

/// The number of children of a node `height` levels above the leaves that
/// holds `count` elements.
pub open spec fn child_count(count: nat, height: nat) -> nat
    decreases count,
{
    if count == 0 {
        0
    } else {
        proof {
            lemma_capacity_positive(height);
        }
        let first = if count <= vector_capacity_spec(height) {
            count
        } else {
            vector_capacity_spec(height)
        };
        1 + child_count((count - first) as nat, height)
    }
}

/// A leaf of `count` elements takes a cell per element and one on the
/// stack; a node above the leaves takes the cells of its children, a cell
/// per child and one on the stack.
pub proof fn lemma_build_cells(count: nat, height: nat)
    ensures
        height == 0 ==> build_cells(count, height) == count + 1,
        height > 0 ==> build_cells(count, height) == children_cells(count, height) + child_count(
            count,
            height,
        ) + 1,
{
}

/// The children of a node split its elements into a first child of at most
/// the capacity of a child and the children of the rest.
pub proof fn lemma_children_step(count: nat, height: nat)
    requires
        height > 0,
    ensures
        count == 0 ==> children_cells(count, height) == 0 && child_count(count, height) == 0,
        first_chunk(count, height) == if count <= vector_capacity_spec(height) {
            count
        } else {
            vector_capacity_spec(height)
        },
        count > 0 ==> 1 <= first_chunk(count, height) <= count,
        count > 0 ==> children_cells(count, height) == build_cells(
            first_chunk(count, height),
            (height - 1) as nat,
        ) + children_cells((count - first_chunk(count, height)) as nat, height),
        count > 0 ==> child_count(count, height) == 1 + child_count(
            (count - first_chunk(count, height)) as nat,
            height,
        ),
{
    reveal(first_chunk);
    lemma_capacity_positive(height);
}

/// `new` holds on top of its stack, in its last cell, a reference to `node`
/// over the stack of `old`.
pub open spec fn pushed_node(old: Memory, new: Memory, node: Cons) -> bool {
    &&& new.size() >= 1
    &&& new.stack_cons() == pair(new.size() - 1)
    &&& new.cars()[new.size() - 1] == Value::Cons(node)
    &&& new.cdrs()[new.size() - 1] == Value::Cons(pair(old.stack_cons().index as int))
    &&& node.tag == PAIR_TAG
}

/// The stack of `new` holds, over the stack of `old`, the stack slots
/// `slots`, one per child, each holding its child from `nodes`, and these
/// cells were added after the cells of `old`.
#[verifier::opaque]
pub open spec fn children_pushed(old: Memory, new: Memory, slots: Seq<int>, nodes: Seq<Cons>) -> bool {
    let stack0 = old.stack_cons();
    let n = slots.len() as int;
    &&& nodes.len() == n
    &&& n == 0 ==> new.stack_cons() == stack0
    &&& n > 0 ==> new.stack_cons() == pair(slots[n - 1])
    &&& forall|j: int| 0 <= j < n ==> old.size() <= #[trigger] slots[j] < new.size()
    &&& forall|j: int| 0 <= j < n ==> new.cars()[#[trigger] slots[j]] == Value::Cons(nodes[j])
    &&& forall|j: int|
        0 <= j < n ==> new.cdrs()[#[trigger] slots[j]] == Value::Cons(
            if j == 0 {
                pair(stack0.index as int)
            } else {
                pair(slots[j - 1])
            },
        )
    &&& forall|j: int| 0 <= j < n ==> (#[trigger] nodes[j]).tag == PAIR_TAG
}

/// Adding cells keeps the children pushed where they were.
proof fn lemma_children_pushed_frame(old: Memory, mid: Memory, new: Memory, slots: Seq<int>, nodes: Seq<Cons>)
    requires
        children_pushed(old, mid, slots, nodes),
        extends(mid.cars(), mid.cdrs(), new.cars(), new.cdrs()),
        mid.wf(),
    ensures
        forall|j: int| 0 <= j < slots.len() ==> old.size() <= #[trigger] slots[j] < new.size(),
        forall|j: int| 0 <= j < slots.len() ==> new.cars()[#[trigger] slots[j]] == Value::Cons(nodes[j]),
        forall|j: int|
            0 <= j < slots.len() ==> new.cdrs()[#[trigger] slots[j]] == Value::Cons(
                if j == 0 {
                    pair(old.stack_cons().index as int)
                } else {
                    pair(slots[j - 1])
                },
            ),
{
    reveal(children_pushed);
    assert forall|j: int| 0 <= j < slots.len() implies new.cars()[#[trigger] slots[j]] == mid.cars()[slots[j]] && new.cdrs()[slots[j]] == mid.cdrs()[slots[j]] by {
        lemma_extends_index(mid.cars(), mid.cdrs(), new.cars(), new.cdrs(), slots[j]);
    }
}

/// Pushing one more child keeps the children pushed.
proof fn lemma_children_push(
    old: Memory,
    before: Memory,
    new: Memory,
    slots: Seq<int>,
    nodes: Seq<Cons>,
    node: Cons,
)
    requires
        before.wf(),
        new.wf(),
        children_pushed(old, before, slots, nodes),
        pushed_node(before, new, node),
        extends(before.cars(), before.cdrs(), new.cars(), new.cdrs()),
        new.size() > before.size(),
        before.size() >= old.size(),
    ensures
        children_pushed(old, new, slots.push(new.size() - 1), nodes.push(node)),
{
    reveal(children_pushed);
    lemma_children_pushed_frame(old, before, new, slots, nodes);
    let s2 = slots.push(new.size() - 1);
    let n2 = nodes.push(node);
    let n = slots.len() as int;
    assert forall|j: int| 0 <= j < n + 1 implies old.size() <= #[trigger] s2[j] < new.size() by {
        if j < n {
            assert(s2[j] == slots[j]);
        }
    }
    assert forall|j: int| 0 <= j < n + 1 implies new.cars()[#[trigger] s2[j]] == Value::Cons(n2[j]) by {
        if j < n {
            assert(s2[j] == slots[j]);
        }
    }
    assert forall|j: int|
        0 <= j < n + 1 implies new.cdrs()[#[trigger] s2[j]] == Value::Cons(
            if j == 0 {
                pair(old.stack_cons().index as int)
            } else {
                pair(s2[j - 1])
            },
        ) by {
        if j < n {
            assert(s2[j] == slots[j]);
            if j > 0 {
                assert(s2[j - 1] == slots[j - 1]);
            }
        } else if j > 0 {
            assert(s2[j - 1] == slots[j - 1]);
            assert(before.stack_cons() == pair(slots[n - 1]));
        }
    }
}

/// Builds the children of a node `height` levels above the leaves whose
/// elements `start..end` all hold `fill`, each child holding at most
/// `capacity` elements, and leaves them on the stack.
#[verifier::rlimit(40)]
fn build_children(
    memory: &mut Memory,
    start: usize,
    end: usize,
    height: usize,
    fill: u8,
    capacity: usize,
) -> (r: Result<(usize, Ghost<Seq<int>>, Ghost<Seq<Cons>>, Ghost<Seq<nat>>, Ghost<Seq<nat>>), Error>)
    requires
        old(memory).wf(),
        start <= end,
        height > 0,
        capacity == vector_capacity_spec(height as nat),
        capacity >= 1,
    ensures
        final(memory).wf(),
        final(memory).capacity() == old(memory).capacity(),
        extends(old(memory).cars(), old(memory).cdrs(), final(memory).cars(), final(memory).cdrs()),
        match r {
            Ok((children, slots, nodes, los, his)) => {
                &&& children == slots@.len()
                &&& children == nodes@.len()
                &&& children == child_count((end - start) as nat, height as nat)
                &&& final(memory).size() == old(memory).size() + children_cells(
                    (end - start) as nat,
                    height as nat,
                )
                &&& children_pushed(*old(memory), *final(memory), slots@, nodes@)
                &&& (end - start) <= children * capacity
                &&& children >= 1 ==> (children - 1) * capacity < (end - start)
                &&& power(VECTOR_FACTOR as nat, height as nat) <= usize::MAX ==> children_laid(
                    final(memory).cars(),
                    final(memory).cdrs(),
                    nodes@,
                    los@,
                    his@,
                    (end - start) as nat,
                    height as nat,
                    capacity as nat,
                    fill,
                    old(memory).size(),
                    final(memory).size(),
                )
            },
            Err(e) => e == Error::OutOfMemory && old(memory).size() + children_cells(
                (end - start) as nat,
                height as nat,
            ) > old(memory).capacity(),
        },
    decreases height, 0nat,
{
    let ghost cars0 = memory.cars();
    let ghost cdrs0 = memory.cdrs();
    let ghost size0 = memory.size();
    let ghost count = (end - start) as nat;
    let ghost small = power(VECTOR_FACTOR as nat, height as nat) <= usize::MAX;
    proof {
        assert(cars0.subrange(0, cars0.len() as int) =~= cars0);
        assert(cdrs0.subrange(0, cdrs0.len() as int) =~= cdrs0);
        if small {
            lemma_power_monotone(VECTOR_FACTOR as nat, (height - 1) as nat, height as nat);
        }
    }
    let mut cursor = start;
    let mut children: usize = 0;
    let ghost mut slots: Seq<int> = seq![];
    let ghost mut nodes: Seq<Cons> = seq![];
    let ghost mut los: Seq<nat> = seq![];
    let ghost mut his: Seq<nat> = seq![];
    let ghost mut covered: nat = 0;
    proof {
        lemma_children_step(0, height as nat);
        reveal(children_pushed);
        assert(children_pushed(*old(memory), *memory, slots, nodes));
    }
    while cursor < end
        invariant
            memory.wf(),
            memory.capacity() == old(memory).capacity(),
            cars0 == old(memory).cars(),
            cdrs0 == old(memory).cdrs(),
            size0 == cars0.len(),
            count == end - start,
            height > 0,
            capacity == vector_capacity_spec(height as nat),
            capacity >= 1,
            start <= cursor <= end,
            children <= cursor - start,
            extends(cars0, cdrs0, memory.cars(), memory.cdrs()),
            children == slots.len(),
            children == nodes.len(),
            memory.size() + children_cells((end - cursor) as nat, height as nat) == size0
                + children_cells(count, height as nat),
            child_count(count, height as nat) == children + child_count(
                (end - cursor) as nat,
                height as nat,
            ),
            children_pushed(*old(memory), *memory, slots, nodes),
            children_cells(0, height as nat) == 0,
            child_count(0, height as nat) == 0,
            covered == children * capacity,
            cursor < end ==> cursor - start == covered,
            cursor - start <= covered,
            children >= 1 ==> covered - capacity < cursor - start,
            small == (power(VECTOR_FACTOR as nat, height as nat) <= usize::MAX),
            small ==> power(VECTOR_FACTOR as nat, (height - 1) as nat) <= usize::MAX,
            small ==> capacity == power(VECTOR_FACTOR as nat, height as nat),
            small ==> children_laid(
                memory.cars(),
                memory.cdrs(),
                nodes,
                los,
                his,
                count,
                height as nat,
                capacity as nat,
                fill,
                size0,
                memory.size(),
            ),
        decreases end - cursor,
    {
        proof {
            lemma_children_step((end - cursor) as nat, height as nat);
        }
        let child_end = if end - cursor <= capacity {
            end
        } else {
            cursor + capacity
        };
        let ghost before = *memory;
        let made = build_filled_vector_node(memory, cursor, child_end, height - 1, fill);
        proof {
            lemma_extends_trans(cars0, cdrs0, before.cars(), before.cdrs(), memory.cars(), memory.cdrs());
        }
        let node = match made {
            Ok(node) => node,
            Err(e) => {
                return Err(e);
            },
        };
        proof {
            lemma_build_cells(((child_end - cursor) as nat), (height - 1) as nat);
            lemma_children_push(*old(memory), before, *memory, slots, nodes, node);
            if small {
                lemma_children_laid_extends(
                    before.cars(),
                    before.cdrs(),
                    memory.cars(),
                    memory.cdrs(),
                    nodes,
                    los,
                    his,
                    count,
                    height as nat,
                    capacity as nat,
                    fill,
                    size0,
                    before.size(),
                    before.size(),
                );
                assert(nodes.len() * capacity == covered);
                assert(cursor - start == nodes.len() * capacity);
                assert(chunk_length(count, capacity as nat, nodes.len()) == child_end - cursor);
                lemma_children_laid_push(
                    memory.cars(),
                    memory.cdrs(),
                    nodes,
                    los,
                    his,
                    count,
                    height as nat,
                    capacity as nat,
                    fill,
                    size0,
                    before.size(),
                    node,
                    before.size(),
                    memory.size(),
                );
                los = los.push(before.size());
                his = his.push(memory.size());
            }
            slots = slots.push(memory.size() - 1);
            nodes = nodes.push(node);
            assert((children + 1) * capacity == children * capacity + capacity) by (nonlinear_arith);
            covered = (covered + capacity) as nat;
            assert(memory.cars().subrange(0, cars0.len() as int) =~= cars0);
            assert(memory.cdrs().subrange(0, cdrs0.len() as int) =~= cdrs0);
        }
        children = children + 1;
        cursor = child_end;
    }
    proof {
        if children >= 1 {
            assert((children - 1) * capacity == children * capacity - capacity) by (nonlinear_arith);
        }
    }
    Ok((children, Ghost(slots), Ghost(nodes), Ghost(los), Ghost(his)))
}

/// Takes the children a node's build left on the stack, last first, and
/// links them into the list of the node, first child first.
#[verifier::rlimit(60)]
fn collect_children(
    memory: &mut Memory,
    children: usize,
    Ghost(base): Ghost<Memory>,
    Ghost(slots): Ghost<Seq<int>>,
    Ghost(nodes): Ghost<Seq<Cons>>,
) -> (r: Result<Cons, Error>)
    requires
        old(memory).wf(),
        base.wf(),
        children == slots.len(),
        children_pushed(base, *old(memory), slots, nodes),
    ensures
        final(memory).wf(),
        final(memory).capacity() == old(memory).capacity(),
        extends(old(memory).cars(), old(memory).cdrs(), final(memory).cars(), final(memory).cdrs()),
        match r {
            Ok(list) => {
                &&& final(memory).size() == old(memory).size() + children
                &&& list.tag == PAIR_TAG
                &&& final(memory).stack_cons().index == base.stack_cons().index
                &&& list_built(
                    final(memory).cars(),
                    final(memory).cdrs(),
                    list,
                    node_values(nodes),
                    old(memory).size(),
                )
            },
            Err(e) => e == Error::OutOfMemory && old(memory).size() + children > old(
                memory,
            ).capacity(),
        },
{
    let ghost cars0 = memory.cars();
    let ghost cdrs0 = memory.cdrs();
    let ghost size0 = memory.size();
    let ghost stack0 = base.stack_cons();
    proof {
        reveal(children_pushed);
        assert(cars0.subrange(0, cars0.len() as int) =~= cars0);
        assert(cdrs0.subrange(0, cdrs0.len() as int) =~= cdrs0);
        assert(node_values(nodes).subrange(children as int, children as int) =~= Seq::<Value>::empty());
    }
    let mut list = memory.null();
    let mut k = children;
    while k > 0
        invariant
            memory.wf(),
            base.wf(),
            memory.capacity() == old(memory).capacity(),
            cars0 == old(memory).cars(),
            cdrs0 == old(memory).cdrs(),
            size0 == cars0.len(),
            stack0 == base.stack_cons(),
            extends(cars0, cdrs0, memory.cars(), memory.cdrs()),
            k <= children,
            children == slots.len(),
            children == nodes.len(),
            memory.size() == size0 + (children - k),
            list.tag == PAIR_TAG,
            k == children ==> list == pair(0),
            k < children ==> list == pair(size0 + (children - k) - 1),
            list_built(
                memory.cars(),
                memory.cdrs(),
                list,
                node_values(nodes).subrange(k as int, children as int),
                size0,
            ),
            k > 0 ==> memory.stack_cons() == pair(slots[k - 1]),
            k == 0 && children > 0 ==> memory.stack_cons() == pair(stack0.index as int),
            children == 0 ==> memory.stack_cons() == stack0,
            forall|j: int| 0 <= j < children ==> base.size() <= #[trigger] slots[j] < memory.size(),
            forall|j: int|
                0 <= j < children ==> memory.cars()[#[trigger] slots[j]] == Value::Cons(nodes[j]),
            forall|j: int|
                0 <= j < children ==> memory.cdrs()[#[trigger] slots[j]] == Value::Cons(
                    if j == 0 {
                        pair(stack0.index as int)
                    } else {
                        pair(slots[j - 1])
                    },
                ),
        decreases k,
    {
        let ghost before = *memory;
        let ghost prev = list;
        let ghost vals = node_values(nodes).subrange(k as int, children as int);
        let child = memory.pop()?;
        let ghost popped = *memory;
        let made = memory.cons(child, list);
        list = match made {
            Ok(l) => l,
            Err(e) => {
                return Err(e);
            },
        };
        k = k - 1;
        proof {
            assert(child == Value::Cons(nodes[k as int]));
            lemma_list_step(popped.cars(), popped.cdrs(), memory.cars(), memory.cdrs(), prev, vals, size0, child);
            assert(seq![child] + vals =~= node_values(nodes).subrange(k as int, children as int));
            assert(memory.cars().subrange(0, cars0.len() as int) =~= cars0);
            assert(memory.cdrs().subrange(0, cdrs0.len() as int) =~= cdrs0);
            assert(memory.cars().subrange(0, before.cars().len() as int) =~= before.cars());
            assert(memory.cdrs().subrange(0, before.cdrs().len() as int) =~= before.cdrs());
            assert forall|j: int| 0 <= j < children implies memory.cars()[#[trigger] slots[j]] == before.cars()[slots[j]] && memory.cdrs()[slots[j]] == before.cdrs()[slots[j]] by {
                lemma_extends_index(before.cars(), before.cdrs(), memory.cars(), memory.cdrs(), slots[j]);
            }
        }
    }
    proof {
        assert(node_values(nodes).subrange(0, children as int) =~= node_values(nodes));
    }
    Ok(list)
}

/// Builds a node of a tree vector, `height` levels above the leaves, whose
/// elements `start..end` all hold `fill`, pushes it onto the stack and
/// returns it.
#[verifier::rlimit(40)]
pub fn build_filled_vector_node(
    memory: &mut Memory,
    start: usize,
    end: usize,
    height: usize,
    fill: u8,
) -> (r: Result<Cons, Error>)
    requires
        old(memory).wf(),
        start <= end,
    ensures
        final(memory).wf(),
        final(memory).capacity() == old(memory).capacity(),
        extends(old(memory).cars(), old(memory).cdrs(), final(memory).cars(), final(memory).cdrs()),
        match r {
            Ok(node) => {
                &&& final(memory).size() == old(memory).size() + build_cells(
                    (end - start) as nat,
                    height as nat,
                )
                &&& pushed_node(*old(memory), *final(memory), node)
                &&& power(VECTOR_FACTOR as nat, height as nat) <= usize::MAX ==> filled_tree(
                    final(memory).cars(),
                    final(memory).cdrs(),
                    node,
                    (end - start) as nat,
                    height as nat,
                    fill,
                    old(memory).size(),
                    final(memory).size(),
                )
            },
            Err(e) => e == Error::OutOfMemory && old(memory).size() + build_cells(
                (end - start) as nat,
                height as nat,
            ) > old(memory).capacity(),
        },
    decreases height, 1nat,
{
    let ghost cars0 = memory.cars();
    let ghost cdrs0 = memory.cdrs();
    let ghost size0 = memory.size();
    let ghost count = (end - start) as nat;
    proof {
        assert(cars0.subrange(0, cars0.len() as int) =~= cars0);
        assert(cdrs0.subrange(0, cdrs0.len() as int) =~= cdrs0);
        lemma_build_cells(count, height as nat);
    }
    if height == 0 {
        let mut list = memory.null();
        let mut i = start;
        while i < end
            invariant
                memory.wf(),
                memory.capacity() == old(memory).capacity(),
                memory.stack_cons() == old(memory).stack_cons(),
                cars0 == old(memory).cars(),
                cdrs0 == old(memory).cdrs(),
                size0 == cars0.len(),
                count == end - start,
                height == 0,
                build_cells(count, 0) == count + 1,
                start <= i <= end,
                memory.size() == size0 + (i - start),
                extends(cars0, cdrs0, memory.cars(), memory.cdrs()),
                list.tag == PAIR_TAG,
                i == start ==> list == pair(0),
                i > start ==> list == pair(size0 + (i - start) - 1),
                leaf_built(memory.cars(), memory.cdrs(), list, (i - start) as nat, size0, fill),
            decreases end - i,
        {
            let ghost cars1 = memory.cars();
            let ghost cdrs1 = memory.cdrs();
            let ghost prev = list;
            let made = memory.cons(Value::Number(fill as i64), list);
            list = match made {
                Ok(l) => l,
                Err(e) => {
                    return Err(e);
                },
            };
            proof {
                lemma_leaf_step(cars1, cdrs1, memory.cars(), memory.cdrs(), prev, (i - start) as nat, size0, fill);
            }
            i = i + 1;
            proof {
                assert(memory.cars().subrange(0, cars0.len() as int) =~= cars0);
                assert(memory.cdrs().subrange(0, cdrs0.len() as int) =~= cdrs0);
            }
        }
        let ghost cars2 = memory.cars();
        let ghost cdrs2 = memory.cdrs();
        proof {
            lemma_leaf_filled(cars2, cdrs2, list, count, size0, fill);
        }
        memory.push(Value::Cons(list))?;
        proof {
            assert(memory.cars().subrange(0, cars0.len() as int) =~= cars0);
            assert(memory.cdrs().subrange(0, cdrs0.len() as int) =~= cdrs0);
            assert(memory.cars().subrange(0, cars2.len() as int) =~= cars2);
            assert(memory.cdrs().subrange(0, cdrs2.len() as int) =~= cdrs2);
            lemma_filled_tree_extends(cars2, cdrs2, memory.cars(), memory.cdrs(), list, count, 0, fill, size0, size0 + count);
            reveal(filled_tree);
        }
        return Ok(expect_cons(memory.top()?)?);
    }
    let capacity = vector_capacity(height);
    proof {
        lemma_capacity_positive(height as nat);
    }
    let ghost before = *memory;
    let (children, Ghost(slots), Ghost(nodes), Ghost(los), Ghost(his)) = build_children(memory, start, end, height, fill, capacity)?;
    let ghost mid = *memory;
    let collected = collect_children(memory, children, Ghost(before), Ghost(slots), Ghost(nodes));
    proof {
        lemma_extends_trans(cars0, cdrs0, mid.cars(), mid.cdrs(), memory.cars(), memory.cdrs());
    }
    let list = collected?;
    let ghost late = *memory;
    memory.push(Value::Cons(list))?;
    proof {
        assert(memory.cars().subrange(0, cars0.len() as int) =~= cars0);
        assert(memory.cdrs().subrange(0, cdrs0.len() as int) =~= cdrs0);
        if power(VECTOR_FACTOR as nat, height as nat) <= usize::MAX {
            assert(memory.cars().subrange(0, late.cars().len() as int) =~= late.cars());
            assert(memory.cdrs().subrange(0, late.cdrs().len() as int) =~= late.cdrs());
            lemma_extends_trans(mid.cars(), mid.cdrs(), late.cars(), late.cdrs(), memory.cars(), memory.cdrs());
            lemma_children_laid_extends(
                mid.cars(),
                mid.cdrs(),
                memory.cars(),
                memory.cdrs(),
                nodes,
                los,
                his,
                count,
                height as nat,
                capacity as nat,
                fill,
                size0,
                mid.size(),
                memory.size(),
            );
            lemma_list_built_extends(late.cars(), late.cdrs(), memory.cars(), memory.cdrs(), list, node_values(nodes), mid.size());
            let c = children as nat;
            let s0 = mid.size();
            let cells = Seq::new(c, |k: int| pair(s0 + c - 1 - k));
            assert forall|k: int| 0 <= k < c implies car_of(memory.cars(), #[trigger] cells[k]) == Ok::<Value, Error>(Value::Cons(nodes[k])) by {
                assert(node_values(nodes)[k] == Value::Cons(nodes[k]));
            }
            assert(children_filled(memory.cars(), memory.cdrs(), list, cells, nodes, los, his, count, height as nat, capacity as nat, fill, size0, memory.size()));
            lemma_node_filled(memory.cars(), memory.cdrs(), list, cells, nodes, los, his, count, height as nat, capacity as nat, fill, size0, memory.size());
        }
    }
    Ok(expect_cons(memory.top()?)?)
}

/// A bytevector of no elements is well formed, whatever its root.
pub proof fn lemma_empty_vector(memory: Memory, root: Cons)
    ensures
        vector_ok(memory, root, 0),
{
    reveal(vector_ok);
}

/// A filled tree of `length` elements, as high as a tree vector of that
/// length, is a well-formed bytevector whose every element holds `fill`,
/// also when its root reference carries another tag.
pub proof fn lemma_filled_vector(
    memory: Memory,
    node: Cons,
    root: Cons,
    length: nat,
    fill: u8,
    lo: nat,
    hi: nat,
)
    requires
        memory.wf(),
        1 <= length <= usize::MAX,
        root.index == node.index,
        hi <= memory.size(),
        filled_tree(
            memory.cars(),
            memory.cdrs(),
            node,
            length,
            vector_height_spec(VECTOR_FACTOR as nat, length),
            fill,
            lo,
            hi,
        ),
    ensures
        vector_ok(memory, root, length),
        forall|i: nat| i < length ==> #[trigger] element_byte(memory, root, length, i) == Ok::<u8, Error>(fill),
        forall|i: nat|
            i < length && (i + 1 == length || (i + 1) % (VECTOR_FACTOR as nat) == 0) ==> next_of(
                memory.cdrs(),
                #[trigger] element_cell(memory, root, length, i),
            ) == Ok::<Cons, Error>(pair(0)),
        forall|i: nat| i < length ==> lo <= (#[trigger] element_cell(memory, root, length, i)).index < hi,
{
    let f = VECTOR_FACTOR as nat;
    let h = vector_height_spec(f, length);
    let cars = memory.cars();
    let cdrs = memory.cdrs();
    lemma_height_power(length);
    reveal(filled_tree);
    assert forall|i: nat| i < length implies (#[trigger] list_vector_cell_spec(memory, root, length, i, f)) is Ok
        && list_vector_cell_spec(memory, root, length, i, f)->Ok_0.index == element_at(cars, cdrs, node, i, h)->Ok_0.index
        && (i > 0 ==> list_vector_cell_spec(memory, root, length, i, f) == element_at(cars, cdrs, node, i, h)) by {
        lemma_element_at_retag(cars, cdrs, node, root.tag, i, h);
        assert(element_at(cars, cdrs, node, i, h) is Ok);
        assert(root == Cons { index: node.index, tag: root.tag });
    }
    assert forall|i: nat| i < length implies (#[trigger] element_cell(memory, root, length, i)).index
        == element_at(cars, cdrs, node, i, h)->Ok_0.index by {
        reveal(element_cell);
        assert(list_vector_cell_spec(memory, root, length, i, f) is Ok);
    }
    assert forall|i: nat|
        0 < i < length && !is_multiple(i, f) implies next_of(
            cdrs,
            list_vector_cell_spec(memory, root, length, (i - 1) as nat, f)->Ok_0,
        ) == #[trigger] list_vector_cell_spec(memory, root, length, i, f) by {
        let i0 = (i - 1) as nat;
        assert(list_vector_cell_spec(memory, root, length, i0, f) is Ok);
        assert(list_vector_cell_spec(memory, root, length, i, f) is Ok);
        let a = list_vector_cell_spec(memory, root, length, i0, f)->Ok_0;
        let b = element_at(cars, cdrs, node, i0, h)->Ok_0;
        assert(a.index == b.index);
        assert(next_of(cdrs, a) == next_of(cdrs, b));
        assert(element_at(cars, cdrs, node, i0, h) is Ok);
        assert(next_of(cdrs, element_at(cars, cdrs, node, i0, h)->Ok_0) == element_at(cars, cdrs, node, i, h));
    }
    assert(leaf_linked(memory, root, length, f));
    assert forall|i: nat| i < length implies #[trigger] element_byte(memory, root, length, i) == Ok::<u8, Error>(fill) by {
        assert(element_at(cars, cdrs, node, i, h) is Ok);
        let c = element_cell(memory, root, length, i);
        assert(c.index == element_at(cars, cdrs, node, i, h)->Ok_0.index);
        assert(cars[c.index as int] == Value::Number(fill as i64));
    }
    assert forall|i: nat, j: nat|
        i < length && j < length && i != j implies (#[trigger] element_cell(memory, root, length, i)).index
            != (#[trigger] element_cell(memory, root, length, j)).index by {
        assert(element_at(cars, cdrs, node, i, h) is Ok);
        assert(element_at(cars, cdrs, node, j, h) is Ok);
    }
    assert forall|i: nat| i < length implies memory.cars()[(#[trigger] element_cell(memory, root, length, i)).index as int] is Number by {
        assert(element_at(cars, cdrs, node, i, h) is Ok);
    }
    assert forall|i: nat| i < length implies (#[trigger] element_cell(memory, root, length, i)).index < memory.size() by {
        assert(element_at(cars, cdrs, node, i, h) is Ok);
    }
    assert forall|i: nat| i < length implies lo <= (#[trigger] element_cell(memory, root, length, i)).index < hi by {
        assert(element_at(cars, cdrs, node, i, h) is Ok);
    }
    assert forall|i: nat|
        i < length && (i + 1 == length || (i + 1) % (VECTOR_FACTOR as nat) == 0) implies next_of(
            memory.cdrs(),
            #[trigger] element_cell(memory, root, length, i),
        ) == Ok::<Cons, Error>(pair(0)) by {
        assert(element_at(cars, cdrs, node, i, h) is Ok);
        let c = element_cell(memory, root, length, i);
        assert(next_of(cdrs, c) == next_of(cdrs, element_at(cars, cdrs, node, i, h)->Ok_0));
    }
    reveal(vector_ok);
}

/// The number of cells `make_bytevector` takes for a bytevector of
/// `length` bytes: those of its tree, if it has elements, and two for the
/// header and the stack slot of the result.
pub open spec fn bytevector_cells(length: nat) -> nat {
    if length == 0 {
        2
    } else {
        build_cells(length, vector_height_spec(VECTOR_FACTOR as nat, length)) + 2
    }
}

/// The stack of `new` holds on top, over the stack `below`, a bytevector of
/// `length` bytes: a pair of the length and of the root of its tree, tagged
/// as a bytevector, a well-formed tree whose every element holds `fill` and
/// whose leaf lists end in the null cell, the null cell where there are no
/// elements.
pub open spec fn made_bytevector(new: Memory, below: Cons, length: nat, fill: u8) -> bool {
    let cars = new.cars();
    let cdrs = new.cdrs();
    let top = new.stack_cons();
    &&& !is_null(top)
    &&& next_of(cdrs, top) matches Ok(b) && b.index == below.index
    &&& car_of(cars, top) matches Ok(Value::Cons(bytevector))
    &&& car_of(cars, bytevector) == Ok::<Value, Error>(Value::Number(length as i64))
    &&& cdr_of(cdrs, bytevector) matches Ok(Value::Cons(root))
    &&& root.tag == BYTEVECTOR_TAG
    &&& length == 0 ==> is_null(root)
    &&& vector_ok(new, root, length)
    &&& forall|i: nat| i < length ==> #[trigger] element_byte(new, root, length, i) == Ok::<u8, Error>(fill)
    &&& forall|i: nat|
        i < length && (i + 1 == length || (i + 1) % (VECTOR_FACTOR as nat) == 0) ==> next_of(
            new.cdrs(),
            #[trigger] element_cell(new, root, length, i),
        ) == Ok::<Cons, Error>(pair(0))
}

/// The elements of the bytevector that `new` holds on top of its stack are
/// in cells from `lo` on: cells that did not exist before.
pub open spec fn new_cells(new: Memory, below: Cons, length: nat, lo: nat) -> bool {
    let cars = new.cars();
    let cdrs = new.cdrs();
    &&& car_of(cars, new.stack_cons()) matches Ok(Value::Cons(bytevector))
    &&& cdr_of(cdrs, bytevector) matches Ok(Value::Cons(root))
    &&& forall|i: nat| i < length ==> lo <= (#[trigger] element_cell(new, root, length, i)).index
}

/// What `make_bytevector` does to the heap `old`: `new` and `r` are the heap and the
/// result afterwards.
pub open spec fn make_bytevector_outcome(old: Memory, new: Memory, r: Result<(), Error>) -> bool {
    let cars = old.cars();
    let cdrs = old.cdrs();
    let p = pop_values(cars, cdrs, old.stack_cons(), 2);
    match p.0 {
        Err(e) => r == Err::<(), Error>(e) && holds(new, cars, cdrs, p.1),
        Ok(args) => match number_of(args[0]) {
            Err(e) => r == Err::<(), Error>(e) && holds(new, cars, cdrs, p.1),
            Ok(l) => match nonnegative_integer_spec(l) {
                Err(e) => r == Err::<(), Error>(e) && holds(new, cars, cdrs, p.1),
                Ok(length) => match number_of(args[1]) {
                    Err(e) => r == Err::<(), Error>(e) && holds(new, cars, cdrs, p.1),
                    Ok(f) => match byte_spec(f) {
                        Err(e) => r == Err::<(), Error>(e) && holds(
                            new,
                            cars,
                            cdrs,
                            p.1,
                        ),
                        Ok(fill) => {
                            &&& extends(cars, cdrs, new.cars(), new.cdrs())
                            &&& if cars.len() + bytevector_cells(length as nat) <= old.capacity() {
                                &&& r is Ok
                                &&& new.size() == cars.len() + bytevector_cells(
                                    length as nat,
                                )
                                &&& made_bytevector(new, p.1, length as nat, fill)
                                &&& new_cells(new, p.1, length as nat, cars.len())
                            } else {
                                r == Err::<(), Error>(Error::OutOfMemory)
                            }
                        },
                    },
                },
            },
        },
    }
}

/// Makes a bytevector: takes a length and a fill byte from the stack and
/// pushes a bytevector of that many copies of the byte.
pub fn make_bytevector(memory: &mut Memory) -> (r: Result<(), Error>)
    requires
        old(memory).wf(),
    ensures
        final(memory).wf(),
        final(memory).capacity() == old(memory).capacity(),
        make_bytevector_outcome(*old(memory), *final(memory), r),
{
    let ghost cars0 = memory.cars();
    let ghost cdrs0 = memory.cdrs();
    let args = memory.pop_many(2)?;
    let ghost below = memory.stack_cons();
    let l = expect_number(args[0])?;
    let length = nonnegative_integer(l)?;
    let f = expect_number(args[1])?;
    let fill = byte(f)?;
    proof {
        assert(memory.cars().subrange(0, cars0.len() as int) =~= cars0);
        assert(memory.cdrs().subrange(0, cdrs0.len() as int) =~= cdrs0);
    }
    if length == 0 {
        let root = memory.null();
        let made = memory.allocate(Value::Number(0), Value::Cons(root.set_tag(BYTEVECTOR_TAG)));
        proof {
            assert(memory.cars().subrange(0, cars0.len() as int) =~= cars0);
            assert(memory.cdrs().subrange(0, cdrs0.len() as int) =~= cdrs0);
        }
        let bytevector = made?;
        let pushed = memory.push(Value::Cons(bytevector));
        proof {
            assert(memory.cars().subrange(0, cars0.len() as int) =~= cars0);
            assert(memory.cdrs().subrange(0, cdrs0.len() as int) =~= cdrs0);
            lemma_empty_vector(*memory, Cons { index: root.index, tag: BYTEVECTOR_TAG });
        }
        return pushed;
    }
    let height = vector_height(length);
    let ghost before = *memory;
    proof {
        lemma_height_power(length as nat);
    }
    let built = build_filled_vector_node(memory, 0, length, height, fill);
    proof {
        lemma_extends_trans(cars0, cdrs0, before.cars(), before.cdrs(), memory.cars(), memory.cdrs());
    }
    let root = built?;
    let ghost tree = *memory;
    let made = memory.allocate(Value::Number(length as i64), Value::Cons(root.set_tag(BYTEVECTOR_TAG)));
    proof {
        assert(memory.cars().subrange(0, cars0.len() as int) =~= cars0);
        assert(memory.cdrs().subrange(0, cdrs0.len() as int) =~= cdrs0);
    }
    let bytevector = made?;
    memory.pop()?;
    let pushed = memory.push(Value::Cons(bytevector));
    proof {
        assert(memory.cars().subrange(0, cars0.len() as int) =~= cars0);
        assert(memory.cdrs().subrange(0, cdrs0.len() as int) =~= cdrs0);
        if pushed is Ok {
            assert(memory.cars().subrange(0, tree.cars().len() as int) =~= tree.cars());
            assert(memory.cdrs().subrange(0, tree.cdrs().len() as int) =~= tree.cdrs());
            lemma_filled_tree_extends(
                tree.cars(),
                tree.cdrs(),
                memory.cars(),
                memory.cdrs(),
                root,
                length as nat,
                height as nat,
                fill,
                before.size(),
                tree.size(),
            );
            lemma_filled_vector(
                *memory,
                root,
                Cons { index: root.index, tag: BYTEVECTOR_TAG },
                length as nat,
                fill,
                before.size(),
                tree.size(),
            );
        }
    }
    pushed
}

} // verus!
