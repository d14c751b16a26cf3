use vstd::prelude::*;
use crate::bytevector::VECTOR_FACTOR;
use crate::list::lemma_tail_of_frame;
use crate::list_vector::{power, quotient, remainder, tree_cell, vector_height_spec};
use crate::memory::{
    car_cons_of, car_of, extends, lemma_extends_index, lemma_tail_of_step, next_of, tail_of,
};
use crate::string::pair;
use crate::value::PAIR_TAG;
use crate::value::{Cons, Error, Value};
use vstd::arithmetic::div_mod::{
    lemma_fundamental_div_mod, lemma_fundamental_div_mod_converse, lemma_mod_pos_bound,
};

verus! {

/// The cell of element `i` of the tree vector node `node`, `height` levels
/// above the leaves.
pub open spec fn element_at(cars: Seq<Value>, cdrs: Seq<Value>, node: Cons, i: nat, height: nat) -> Result<
    Cons,
    Error,
> {
    tree_cell(cars, cdrs, node, i, height, VECTOR_FACTOR as nat)
}

/// The node `node`, `height` levels above the leaves, holds `count` elements,
/// each in its own cell among the cells `lo..hi`, each holding `fill`, the
/// cells of elements that share a leaf are linked in order, and, when the
/// node has no more elements than its leaves can hold, the list of each
/// leaf ends in the null cell.
#[verifier::opaque]
pub open spec fn filled_tree(
    cars: Seq<Value>,
    cdrs: Seq<Value>,
    node: Cons,
    count: nat,
    height: nat,
    fill: u8,
    lo: nat,
    hi: nat,
) -> bool {
    &&& forall|i: nat| i < count ==> (#[trigger] element_at(cars, cdrs, node, i, height)) is Ok
    &&& forall|i: nat|
        i < count ==> lo <= (#[trigger] element_at(cars, cdrs, node, i, height))->Ok_0.index < hi
    &&& forall|i: nat|
        i < count ==> cars[(#[trigger] element_at(cars, cdrs, node, i, height))->Ok_0.index as int]
            == Value::Number(fill as i64)
    &&& forall|i: nat, j: nat|
        i < count && j < count && i != j ==> (#[trigger] element_at(cars, cdrs, node, i, height))->Ok_0.index
            != (#[trigger] element_at(cars, cdrs, node, j, height))->Ok_0.index
    &&& forall|i: nat, j: nat|
        j == i + 1 && j < count && j % (VECTOR_FACTOR as nat) != 0 ==> next_of(
            cdrs,
            (#[trigger] element_at(cars, cdrs, node, i, height))->Ok_0,
        ) == #[trigger] element_at(cars, cdrs, node, j, height)
    &&& count <= VECTOR_FACTOR * power(VECTOR_FACTOR as nat, height) ==> forall|i: nat|
        i < count && (i + 1 == count || (i + 1) % (VECTOR_FACTOR as nat) == 0) ==> next_of(
            cdrs,
            (#[trigger] element_at(cars, cdrs, node, i, height))->Ok_0,
        ) == Ok::<Cons, Error>(pair(0))
}

/// A lookup in a tree vector that succeeds reads the same once cells are
/// added to the heap.
pub proof fn lemma_tree_cell_extends(
    cars: Seq<Value>,
    cdrs: Seq<Value>,
    new_cars: Seq<Value>,
    new_cdrs: Seq<Value>,
    list: Cons,
    index: nat,
    level: nat,
)
    requires
        extends(cars, cdrs, new_cars, new_cdrs),
        cars.len() == cdrs.len(),
        element_at(cars, cdrs, list, index, level) is Ok,
    ensures
        element_at(new_cars, new_cdrs, list, index, level) == element_at(cars, cdrs, list, index, level),
    decreases level,
{
    let f = VECTOR_FACTOR as nat;
    let q = quotient(index, power(f, level));
    assert forall|k: int| 0 <= k < cdrs.len() implies new_cdrs[k] == #[trigger] cdrs[k] by {
        lemma_extends_index(cars, cdrs, new_cars, new_cdrs, k);
    }
    lemma_tail_of_frame(cdrs, new_cdrs, list, q);
    if level > 0 {
        let node = tail_of(cdrs, list, q)->Ok_0;
        let k = node.index as int;
        assert(car_cons_of(cars, node) is Ok);
        lemma_extends_index(cars, cdrs, new_cars, new_cdrs, k);
        assert(car_of(new_cars, node) == car_of(cars, node));
        let child = car_cons_of(cars, node)->Ok_0;
        lemma_tree_cell_extends(
            cars,
            cdrs,
            new_cars,
            new_cdrs,
            child,
            remainder(index, power(f, level)),
            (level - 1) as nat,
        );
    }
}

/// A filled node stays filled once cells are added to the heap.
pub proof fn lemma_filled_tree_extends(
    cars: Seq<Value>,
    cdrs: Seq<Value>,
    new_cars: Seq<Value>,
    new_cdrs: Seq<Value>,
    node: Cons,
    count: nat,
    height: nat,
    fill: u8,
    lo: nat,
    hi: nat,
)
    requires
        extends(cars, cdrs, new_cars, new_cdrs),
        cars.len() == cdrs.len(),
        hi <= cars.len(),
        filled_tree(cars, cdrs, node, count, height, fill, lo, hi),
    ensures
        filled_tree(new_cars, new_cdrs, node, count, height, fill, lo, hi),
{
    reveal(filled_tree);
    assert forall|i: nat| i < count implies #[trigger] element_at(new_cars, new_cdrs, node, i, height)
        == element_at(cars, cdrs, node, i, height) by {
        lemma_tree_cell_extends(cars, cdrs, new_cars, new_cdrs, node, i, height);
    }
    assert forall|i: nat| i < count implies new_cars[(#[trigger] element_at(new_cars, new_cdrs, node, i, height))->Ok_0.index as int]
        == Value::Number(fill as i64) by {
        let c = element_at(cars, cdrs, node, i, height)->Ok_0;
        lemma_extends_index(cars, cdrs, new_cars, new_cdrs, c.index as int);
    }
    assert forall|i: nat, j: nat|
        j == i + 1 && j < count && j % (VECTOR_FACTOR as nat) != 0 implies next_of(
            new_cdrs,
            (#[trigger] element_at(new_cars, new_cdrs, node, i, height))->Ok_0,
        ) == #[trigger] element_at(new_cars, new_cdrs, node, j, height) by {
        let c = element_at(cars, cdrs, node, i, height)->Ok_0;
        lemma_extends_index(cars, cdrs, new_cars, new_cdrs, c.index as int);
        assert(next_of(new_cdrs, c) == next_of(cdrs, c));
    }
    assert forall|i: nat|
        count <= VECTOR_FACTOR * power(VECTOR_FACTOR as nat, height) && i < count && (i + 1 == count
            || (i + 1) % (VECTOR_FACTOR as nat) == 0) implies next_of(
            new_cdrs,
            (#[trigger] element_at(new_cars, new_cdrs, node, i, height))->Ok_0,
        ) == Ok::<Cons, Error>(pair(0)) by {
        let c = element_at(cars, cdrs, node, i, height)->Ok_0;
        lemma_extends_index(cars, cdrs, new_cars, new_cdrs, c.index as int);
        assert(next_of(new_cdrs, c) == next_of(cdrs, c));
    }
}

/// The number of elements of child `k` of a node of `count` elements whose
/// children hold `cap` elements each, but the last.
pub open spec fn chunk_length(count: nat, cap: nat, k: nat) -> nat {
    if count >= k * cap + cap {
        cap
    } else {
        (count - k * cap) as nat
    }
}

/// The children `nodes` of a node of `count` elements, `height` levels above
/// the leaves, whose children hold `cap` elements each but the last: each
/// is filled with the elements of its chunk and occupies its own range of
/// cells `los[k]..his[k]`, the ranges in order within `lo..hi`.
pub open spec fn children_laid(
    cars: Seq<Value>,
    cdrs: Seq<Value>,
    nodes: Seq<Cons>,
    los: Seq<nat>,
    his: Seq<nat>,
    count: nat,
    height: nat,
    cap: nat,
    fill: u8,
    lo: nat,
    hi: nat,
) -> bool {
    let c = nodes.len();
    &&& los.len() == c
    &&& his.len() == c
    &&& forall|k: int|
        0 <= k < c ==> filled_tree(
            cars,
            cdrs,
            #[trigger] nodes[k],
            chunk_length(count, cap, k as nat),
            (height - 1) as nat,
            fill,
            los[k],
            his[k],
        )
    &&& forall|k: int| 0 <= k < c ==> lo <= #[trigger] los[k] <= his[k] <= hi
    &&& forall|a: int, b: int| 0 <= a < b < c ==> #[trigger] his[a] <= #[trigger] los[b]
}

/// The children of a node laid out as `children_laid` says, all of its
/// elements covered, and its list holding them, in the cells `cells`.
pub open spec fn children_filled(
    cars: Seq<Value>,
    cdrs: Seq<Value>,
    list: Cons,
    cells: Seq<Cons>,
    nodes: Seq<Cons>,
    los: Seq<nat>,
    his: Seq<nat>,
    count: nat,
    height: nat,
    cap: nat,
    fill: u8,
    lo: nat,
    hi: nat,
) -> bool {
    let c = nodes.len();
    &&& cells.len() == c
    &&& children_laid(cars, cdrs, nodes, los, his, count, height, cap, fill, lo, hi)
    &&& count <= c * cap
    &&& c >= 1 ==> (c - 1) * cap < count
    &&& forall|k: nat| k < c ==> #[trigger] tail_of(cdrs, list, k) == Ok::<Cons, Error>(cells[k as int])
    &&& forall|k: int| 0 <= k < c ==> car_of(cars, #[trigger] cells[k]) == Ok::<Value, Error>(Value::Cons(nodes[k]))
}

/// Laid children stay laid once cells are added to the heap.
pub proof fn lemma_children_laid_extends(
    cars: Seq<Value>,
    cdrs: Seq<Value>,
    new_cars: Seq<Value>,
    new_cdrs: Seq<Value>,
    nodes: Seq<Cons>,
    los: Seq<nat>,
    his: Seq<nat>,
    count: nat,
    height: nat,
    cap: nat,
    fill: u8,
    lo: nat,
    hi: nat,
    new_hi: nat,
)
    requires
        extends(cars, cdrs, new_cars, new_cdrs),
        cars.len() == cdrs.len(),
        hi <= cars.len(),
        hi <= new_hi,
        children_laid(cars, cdrs, nodes, los, his, count, height, cap, fill, lo, hi),
    ensures
        children_laid(new_cars, new_cdrs, nodes, los, his, count, height, cap, fill, lo, new_hi),
{
    assert forall|k: int| 0 <= k < nodes.len() implies filled_tree(
        new_cars,
        new_cdrs,
        #[trigger] nodes[k],
        chunk_length(count, cap, k as nat),
        (height - 1) as nat,
        fill,
        los[k],
        his[k],
    ) by {
        lemma_filled_tree_extends(
            cars,
            cdrs,
            new_cars,
            new_cdrs,
            nodes[k],
            chunk_length(count, cap, k as nat),
            (height - 1) as nat,
            fill,
            los[k],
            his[k],
        );
    }
}

/// One more child, filled in cells after those of the others, keeps the
/// children laid.
pub proof fn lemma_children_laid_push(
    cars: Seq<Value>,
    cdrs: Seq<Value>,
    nodes: Seq<Cons>,
    los: Seq<nat>,
    his: Seq<nat>,
    count: nat,
    height: nat,
    cap: nat,
    fill: u8,
    lo: nat,
    hi: nat,
    node: Cons,
    child_lo: nat,
    child_hi: nat,
)
    requires
        children_laid(cars, cdrs, nodes, los, his, count, height, cap, fill, lo, hi),
        lo <= hi <= child_lo <= child_hi,
        filled_tree(
            cars,
            cdrs,
            node,
            chunk_length(count, cap, nodes.len()),
            (height - 1) as nat,
            fill,
            child_lo,
            child_hi,
        ),
    ensures
        children_laid(
            cars,
            cdrs,
            nodes.push(node),
            los.push(child_lo),
            his.push(child_hi),
            count,
            height,
            cap,
            fill,
            lo,
            child_hi,
        ),
{
    let n = nodes.len() as int;
    let nodes2 = nodes.push(node);
    let los2 = los.push(child_lo);
    let his2 = his.push(child_hi);
    assert forall|k: int| 0 <= k < n + 1 implies filled_tree(
        cars,
        cdrs,
        #[trigger] nodes2[k],
        chunk_length(count, cap, k as nat),
        (height - 1) as nat,
        fill,
        los2[k],
        his2[k],
    ) by {
        if k < n {
            assert(nodes2[k] == nodes[k]);
        }
    }
    assert forall|k: int| 0 <= k < n + 1 implies lo <= #[trigger] los2[k] <= his2[k] <= child_hi by {
        if k < n {
            assert(los2[k] == los[k]);
            assert(lo <= los[k] <= his[k] <= hi);
        }
    }
    assert forall|a: int, b: int| 0 <= a < b < n + 1 implies #[trigger] his2[a] <= #[trigger] los2[b] by {
        if b < n {
            assert(his2[a] == his[a] && los2[b] == los[b]);
        } else {
            assert(his2[a] == his[a]);
            assert(lo <= los[a] <= his[a] <= hi);
        }
    }
}

/// Element `i` of a node lies in child `i / cap`, at `i % cap`.
proof fn lemma_element_in_child(
    cars: Seq<Value>,
    cdrs: Seq<Value>,
    list: Cons,
    cells: Seq<Cons>,
    nodes: Seq<Cons>,
    los: Seq<nat>,
    his: Seq<nat>,
    count: nat,
    height: nat,
    cap: nat,
    fill: u8,
    lo: nat,
    hi: nat,
    i: nat,
) -> (kr: (nat, nat))
    requires
        height >= 1,
        cap == power(VECTOR_FACTOR as nat, height),
        cap > 0,
        i < count,
        children_filled(cars, cdrs, list, cells, nodes, los, his, count, height, cap, fill, lo, hi),
    ensures
        kr.0 < nodes.len(),
        kr.1 < chunk_length(count, cap, kr.0),
        kr.1 < cap,
        i == kr.0 * cap + kr.1,
        element_at(cars, cdrs, list, i, height) == element_at(
            cars,
            cdrs,
            nodes[kr.0 as int],
            kr.1,
            (height - 1) as nat,
        ),
{
    let c = nodes.len();
    lemma_fundamental_div_mod(i as int, cap as int);
    lemma_mod_pos_bound(i as int, cap as int);
    let k = (i / cap) as nat;
    let r = (i % cap) as nat;
    assert(i == k * cap + r) by (nonlinear_arith)
        requires
            i == cap * (i / cap) + (i % cap),
            k == i / cap,
            r == i % cap,
    ;
    if k >= c {
        assert(k * cap >= c * cap) by (nonlinear_arith)
            requires
                k >= c,
        ;
    }
    assert(k < c);
    assert(quotient(i, power(VECTOR_FACTOR as nat, height)) == k);
    assert(remainder(i, power(VECTOR_FACTOR as nat, height)) == r);
    assert(tail_of(cdrs, list, k) == Ok::<Cons, Error>(cells[k as int]));
    assert(car_of(cars, cells[k as int]) == Ok::<Value, Error>(Value::Cons(nodes[k as int])));
    assert(car_cons_of(cars, cells[k as int]) == Ok::<Cons, Error>(nodes[k as int]));
    (k, r)
}

/// A multiple of a power of the factor, at least the factor, plus `r`
/// leaves `r`'s remainder by the factor.
proof fn lemma_mod_factor(k: nat, cap: nat, r: nat, height: nat)
    requires
        height >= 1,
        cap == power(VECTOR_FACTOR as nat, height),
    ensures
        (k * cap + r) % (VECTOR_FACTOR as nat) == r % (VECTOR_FACTOR as nat),
{
    let f = VECTOR_FACTOR as nat;
    let p = power(f, (height - 1) as nat);
    assert(cap == f * p);
    lemma_fundamental_div_mod(r as int, f as int);
    lemma_mod_pos_bound(r as int, f as int);
    let q = k * p + r / f;
    assert(k * cap + r == q * f + r % f) by (nonlinear_arith)
        requires
            cap == f * p,
            q == k * p + r / f,
            r == f * (r / f) + r % f,
    ;
    lemma_fundamental_div_mod_converse((k * cap + r) as int, f as int, q as int, (r % f) as int);
}

/// A node whose children are filled is filled.
pub proof fn lemma_node_filled(
    cars: Seq<Value>,
    cdrs: Seq<Value>,
    list: Cons,
    cells: Seq<Cons>,
    nodes: Seq<Cons>,
    los: Seq<nat>,
    his: Seq<nat>,
    count: nat,
    height: nat,
    cap: nat,
    fill: u8,
    lo: nat,
    hi: nat,
)
    requires
        height >= 1,
        cap == power(VECTOR_FACTOR as nat, height),
        cap > 0,
        children_filled(cars, cdrs, list, cells, nodes, los, his, count, height, cap, fill, lo, hi),
    ensures
        filled_tree(cars, cdrs, list, count, height, fill, lo, hi),
{
    let h1 = (height - 1) as nat;
    assert forall|i: nat| i < count implies {
        &&& (#[trigger] element_at(cars, cdrs, list, i, height)) is Ok
        &&& lo <= element_at(cars, cdrs, list, i, height)->Ok_0.index < hi
        &&& cars[element_at(cars, cdrs, list, i, height)->Ok_0.index as int] == Value::Number(fill as i64)
    } by {
        let (k, r) = lemma_element_in_child(cars, cdrs, list, cells, nodes, los, his, count, height, cap, fill, lo, hi, i);
        assert(filled_tree(cars, cdrs, nodes[k as int], chunk_length(count, cap, k), h1, fill, los[k as int], his[k as int]));
        assert(lo <= los[k as int] <= his[k as int] <= hi);
        reveal(filled_tree);
        assert(element_at(cars, cdrs, nodes[k as int], r, h1) is Ok);
    }
    assert forall|i: nat, j: nat|
        i < count && j < count && i != j implies (#[trigger] element_at(cars, cdrs, list, i, height))->Ok_0.index
            != (#[trigger] element_at(cars, cdrs, list, j, height))->Ok_0.index by {
        let (ki, ri) = lemma_element_in_child(cars, cdrs, list, cells, nodes, los, his, count, height, cap, fill, lo, hi, i);
        let (kj, rj) = lemma_element_in_child(cars, cdrs, list, cells, nodes, los, his, count, height, cap, fill, lo, hi, j);
        assert(filled_tree(cars, cdrs, nodes[ki as int], chunk_length(count, cap, ki), h1, fill, los[ki as int], his[ki as int]));
        assert(filled_tree(cars, cdrs, nodes[kj as int], chunk_length(count, cap, kj), h1, fill, los[kj as int], his[kj as int]));
        reveal(filled_tree);
        assert(element_at(cars, cdrs, nodes[ki as int], ri, h1) is Ok);
        assert(element_at(cars, cdrs, nodes[kj as int], rj, h1) is Ok);
        if ki == kj {
            assert(ri != rj);
        } else if ki < kj {
            assert(his[ki as int] <= los[kj as int]);
            assert(lo <= los[ki as int] <= his[ki as int] <= hi);
            assert(lo <= los[kj as int] <= his[kj as int] <= hi);
        } else {
            assert(his[kj as int] <= los[ki as int]);
            assert(lo <= los[ki as int] <= his[ki as int] <= hi);
            assert(lo <= los[kj as int] <= his[kj as int] <= hi);
        }
    }
    assert forall|i: nat, j: nat|
        j == i + 1 && j < count && j % (VECTOR_FACTOR as nat) != 0 implies next_of(
            cdrs,
            (#[trigger] element_at(cars, cdrs, list, i, height))->Ok_0,
        ) == #[trigger] element_at(cars, cdrs, list, j, height) by {
        let (ki, ri) = lemma_element_in_child(cars, cdrs, list, cells, nodes, los, his, count, height, cap, fill, lo, hi, i);
        let (kj, rj) = lemma_element_in_child(cars, cdrs, list, cells, nodes, los, his, count, height, cap, fill, lo, hi, j);
        if ri + 1 == cap {
            lemma_mod_factor(ki + 1, cap, 0, height);
            assert(j == (ki + 1) * cap + 0) by (nonlinear_arith)
                requires
                    j == i + 1,
                    i == ki * cap + ri,
                    ri + 1 == cap,
            ;
        }
        assert(ri + 1 < cap);
        lemma_fundamental_div_mod_converse(j as int, cap as int, ki as int, (ri + 1) as int);
        lemma_fundamental_div_mod_converse(j as int, cap as int, kj as int, rj as int);
        assert(kj == ki && rj == ri + 1);
        lemma_mod_factor(ki, cap, rj, height);
        assert(filled_tree(cars, cdrs, nodes[ki as int], chunk_length(count, cap, ki), h1, fill, los[ki as int], his[ki as int]));
        reveal(filled_tree);
        assert(element_at(cars, cdrs, nodes[ki as int], ri, h1) is Ok);
        assert(element_at(cars, cdrs, nodes[ki as int], rj, h1) is Ok);
    }
    assert forall|i: nat|
        count <= VECTOR_FACTOR * power(VECTOR_FACTOR as nat, height) && i < count && (i + 1 == count
            || (i + 1) % (VECTOR_FACTOR as nat) == 0) implies next_of(
            cdrs,
            (#[trigger] element_at(cars, cdrs, list, i, height))->Ok_0,
        ) == Ok::<Cons, Error>(pair(0)) by {
        let (k, r) = lemma_element_in_child(cars, cdrs, list, cells, nodes, los, his, count, height, cap, fill, lo, hi, i);
        let ck = chunk_length(count, cap, k);
        assert(filled_tree(cars, cdrs, nodes[k as int], ck, h1, fill, los[k as int], his[k as int]));
        assert(cap == VECTOR_FACTOR * power(VECTOR_FACTOR as nat, h1));
        assert(ck <= cap);
        if i + 1 == count {
            assert(r + 1 == ck);
        } else {
            lemma_mod_factor(k, cap, r + 1, height);
            assert(i + 1 == k * cap + (r + 1));
            assert((r + 1) % (VECTOR_FACTOR as nat) == 0);
        }
        reveal(filled_tree);
        assert(element_at(cars, cdrs, nodes[k as int], r, h1) is Ok);
    }
    reveal(filled_tree);
}

/// A leaf of `k` elements built by consing: its list runs down the cells
/// `lo + k - 1`, ..., `lo`, each holding `fill`.
pub open spec fn leaf_built(cars: Seq<Value>, cdrs: Seq<Value>, list: Cons, k: nat, lo: nat, fill: u8) -> bool {
    &&& lo + k <= usize::MAX
    &&& forall|i: nat| i < k ==> #[trigger] tail_of(cdrs, list, i) == Ok::<Cons, Error>(pair(lo + k - 1 - i))
    &&& forall|m: int| lo <= m < lo + k ==> #[trigger] cars[m] == Value::Number(fill as i64)
    &&& k > 0 ==> lo < cdrs.len() && cdrs[lo as int] == Value::Cons(pair(0))
}

/// A leaf built by consing is a filled node.
pub proof fn lemma_leaf_filled(cars: Seq<Value>, cdrs: Seq<Value>, list: Cons, k: nat, lo: nat, fill: u8)
    requires
        leaf_built(cars, cdrs, list, k, lo, fill),
    ensures
        filled_tree(cars, cdrs, list, k, 0, fill, lo, lo + k),
{
    assert forall|i: nat| i < k implies #[trigger] element_at(cars, cdrs, list, i, 0) == Ok::<Cons, Error>(pair(lo + k - 1 - i)) by {
        assert(power(VECTOR_FACTOR as nat, 0) == 1);
        assert(quotient(i, 1) == i);
        assert(tail_of(cdrs, list, i) == Ok::<Cons, Error>(pair(lo + k - 1 - i)));
    }
    assert forall|i: nat, j: nat|
        j == i + 1 && j < k && j % (VECTOR_FACTOR as nat) != 0 implies next_of(
            cdrs,
            (#[trigger] element_at(cars, cdrs, list, i, 0))->Ok_0,
        ) == #[trigger] element_at(cars, cdrs, list, j, 0) by {
        lemma_tail_of_step(cdrs, list, i);
    }
    assert forall|i: nat|
        k <= VECTOR_FACTOR * power(VECTOR_FACTOR as nat, 0) && i < k && (i + 1 == k || (i + 1) % (
        VECTOR_FACTOR as nat) == 0) implies next_of(
            cdrs,
            (#[trigger] element_at(cars, cdrs, list, i, 0))->Ok_0,
        ) == Ok::<Cons, Error>(pair(0)) by {
        assert(power(VECTOR_FACTOR as nat, 0) == 1);
        if i + 1 < k {
            assert((i + 1) % (VECTOR_FACTOR as nat) == i + 1) by (nonlinear_arith)
                requires
                    i + 1 < VECTOR_FACTOR,
            ;
        }
        assert(element_at(cars, cdrs, list, i, 0) == Ok::<Cons, Error>(pair(lo as int)));
    }
    reveal(filled_tree);
}

/// Consing one more `fill` in front of a leaf built by consing keeps it
/// built so.
pub proof fn lemma_leaf_step(
    cars: Seq<Value>,
    cdrs: Seq<Value>,
    new_cars: Seq<Value>,
    new_cdrs: Seq<Value>,
    prev: Cons,
    k: nat,
    lo: nat,
    fill: u8,
)
    requires
        leaf_built(cars, cdrs, prev, k, lo, fill),
        lo + k == cars.len(),
        lo + k == cdrs.len(),
        lo + k + 1 <= usize::MAX,
        prev.tag == PAIR_TAG,
        k == 0 ==> prev == pair(0),
        k > 0 ==> prev == pair(lo + k - 1),
        new_cars == cars.push(Value::Number(fill as i64)),
        new_cdrs == cdrs.push(Value::Cons(Cons { index: prev.index, tag: PAIR_TAG })),
    ensures
        leaf_built(new_cars, new_cdrs, pair((lo + k) as int), k + 1, lo, fill),
{
    let list = pair((lo + k) as int);
    assert(next_of(new_cdrs, list) == Ok::<Cons, Error>(prev));
    assert forall|k2: int| 0 <= k2 < cdrs.len() implies new_cdrs[k2] == #[trigger] cdrs[k2] by {}
    assert forall|i: nat| i < k + 1 implies #[trigger] tail_of(new_cdrs, list, i) == Ok::<Cons, Error>(pair(lo + (k + 1) - 1 - i)) by {
        if i > 0 {
            let i1 = (i - 1) as nat;
            assert(tail_of(cdrs, prev, i1) == Ok::<Cons, Error>(pair(lo + k - 1 - i1)));
            lemma_tail_of_frame(cdrs, new_cdrs, prev, i1);
            assert(tail_of(new_cdrs, list, i) == tail_of(new_cdrs, prev, i1));
        }
    }
}

/// The references to `nodes`.
pub open spec fn node_values(nodes: Seq<Cons>) -> Seq<Value> {
    nodes.map_values(|n: Cons| Value::Cons(n))
}

/// A list built by consing `vals`, last first, into the cells from `s` on:
/// its list runs down the cells `s + m - 1`, ..., `s`, holding `vals`.
pub open spec fn list_built(cars: Seq<Value>, cdrs: Seq<Value>, list: Cons, vals: Seq<Value>, s: nat) -> bool {
    let m = vals.len();
    &&& s + m <= usize::MAX
    &&& s + m <= cars.len()
    &&& forall|i: nat| i < m ==> #[trigger] tail_of(cdrs, list, i) == Ok::<Cons, Error>(pair(s + m - 1 - i))
    &&& forall|i: int| 0 <= i < m ==> cars[s + m - 1 - i] == #[trigger] vals[i]
}

/// Consing one more value in front of a list built by consing keeps it
/// built so.
pub proof fn lemma_list_step(
    cars: Seq<Value>,
    cdrs: Seq<Value>,
    new_cars: Seq<Value>,
    new_cdrs: Seq<Value>,
    prev: Cons,
    vals: Seq<Value>,
    s: nat,
    v: Value,
)
    requires
        list_built(cars, cdrs, prev, vals, s),
        s + vals.len() == cars.len(),
        s + vals.len() == cdrs.len(),
        s + vals.len() + 1 <= usize::MAX,
        prev.tag == PAIR_TAG,
        vals.len() == 0 ==> prev == pair(0),
        vals.len() > 0 ==> prev == pair(s + vals.len() - 1),
        new_cars == cars.push(v),
        new_cdrs == cdrs.push(Value::Cons(Cons { index: prev.index, tag: PAIR_TAG })),
    ensures
        list_built(new_cars, new_cdrs, pair((s + vals.len()) as int), seq![v] + vals, s),
{
    let m = vals.len();
    let list = pair((s + m) as int);
    let vals2 = seq![v] + vals;
    assert(next_of(new_cdrs, list) == Ok::<Cons, Error>(prev));
    assert forall|k2: int| 0 <= k2 < cdrs.len() implies new_cdrs[k2] == #[trigger] cdrs[k2] by {}
    assert forall|i: nat| i < m + 1 implies #[trigger] tail_of(new_cdrs, list, i) == Ok::<Cons, Error>(pair(s + (m + 1) - 1 - i)) by {
        if i > 0 {
            let i1 = (i - 1) as nat;
            assert(tail_of(cdrs, prev, i1) == Ok::<Cons, Error>(pair(s + m - 1 - i1)));
            lemma_tail_of_frame(cdrs, new_cdrs, prev, i1);
            assert(tail_of(new_cdrs, list, i) == tail_of(new_cdrs, prev, i1));
        }
    }
    assert forall|i: int| 0 <= i < m + 1 implies new_cars[s + (m + 1) - 1 - i] == #[trigger] vals2[i] by {
        if i > 0 {
            assert(vals2[i] == vals[i - 1]);
            assert(cars[s + m - 1 - (i - 1)] == vals[i - 1]);
        }
    }
}

/// A list built by consing stays so once cells are added to the heap.
pub proof fn lemma_list_built_extends(
    cars: Seq<Value>,
    cdrs: Seq<Value>,
    new_cars: Seq<Value>,
    new_cdrs: Seq<Value>,
    list: Cons,
    vals: Seq<Value>,
    s: nat,
)
    requires
        list_built(cars, cdrs, list, vals, s),
        extends(cars, cdrs, new_cars, new_cdrs),
        cars.len() == cdrs.len(),
    ensures
        list_built(new_cars, new_cdrs, list, vals, s),
{
    let m = vals.len();
    assert forall|k2: int| 0 <= k2 < cdrs.len() implies new_cdrs[k2] == #[trigger] cdrs[k2] by {
        lemma_extends_index(cars, cdrs, new_cars, new_cdrs, k2);
    }
    assert forall|i: nat| i < m implies #[trigger] tail_of(new_cdrs, list, i) == Ok::<Cons, Error>(pair(s + m - 1 - i)) by {
        lemma_tail_of_frame(cdrs, new_cdrs, list, i);
    }
    assert forall|i: int| 0 <= i < m implies new_cars[s + m - 1 - i] == #[trigger] vals[i] by {
        lemma_extends_index(cars, cdrs, new_cars, new_cdrs, s + m - 1 - i);
    }
}

/// A tree vector of `length` elements, at least one, has nodes of at most
/// `length` elements at its root level, and fewer once it has more than one
/// leaf.
pub proof fn lemma_height_power(length: nat)
    requires
        length >= 1,
    ensures
        power(VECTOR_FACTOR as nat, vector_height_spec(VECTOR_FACTOR as nat, length)) <= length,
        length > VECTOR_FACTOR ==> power(
            VECTOR_FACTOR as nat,
            vector_height_spec(VECTOR_FACTOR as nat, length),
        ) < length,
        length <= VECTOR_FACTOR * power(VECTOR_FACTOR as nat, vector_height_spec(VECTOR_FACTOR as nat, length)),
    decreases length,
{
    let f = VECTOR_FACTOR as nat;
    if length > f {
        let d = ((length - 1) as nat) / f;
        let m = 1 + d;
        lemma_fundamental_div_mod((length - 1) as int, f as int);
        lemma_mod_pos_bound((length - 1) as int, f as int);
        assert(d < length - 1) by (nonlinear_arith)
            requires
                length > f,
                f == 64,
                d == ((length - 1) as nat) / f,
        ;
        lemma_height_power(m);
        assert(vector_height_spec(f, length) == 1 + vector_height_spec(f, m));
        let p = power(f, vector_height_spec(f, m));
        assert(power(f, vector_height_spec(f, length)) == f * p);
        if m <= f {
            assert(vector_height_spec(f, m) == 0);
            assert(p == 1);
            assert(d >= 1) by (nonlinear_arith)
                requires
                    length - 1 >= f,
                    f == 64,
                    d == ((length - 1) as nat) / f,
            ;
        }
        assert(p <= d);
        assert(f * p <= f * d) by (nonlinear_arith)
            requires
                p <= d,
        ;
        assert(m <= f * p);
        assert(length <= f * m);
        assert(f * m <= f * (f * p)) by (nonlinear_arith)
            requires
                m <= f * p,
        ;
    } else {
        assert(vector_height_spec(f, length) == 0);
        assert(power(f, 0) == 1);
    }
}

/// Looking an element up from a reference with another tag finds the same
/// cells: the tag of the root only shows when the root is the element's
/// cell itself.
pub proof fn lemma_element_at_retag(
    cars: Seq<Value>,
    cdrs: Seq<Value>,
    node: Cons,
    tag: u16,
    i: nat,
    height: nat,
)
    ensures
        height > 0 || i > 0 ==> element_at(cars, cdrs, Cons { index: node.index, tag }, i, height)
            == element_at(cars, cdrs, node, i, height),
        height == 0 && i == 0 ==> element_at(cars, cdrs, Cons { index: node.index, tag }, i, height)
            == Ok::<Cons, Error>(Cons { index: node.index, tag }),
        height == 0 && i == 0 ==> element_at(cars, cdrs, node, i, height) == Ok::<Cons, Error>(
            node,
        ),
{
    let f = VECTOR_FACTOR as nat;
    let r = Cons { index: node.index, tag };
    let q = quotient(i, power(f, height));
    assert(next_of(cdrs, r) == next_of(cdrs, node));
    assert(car_cons_of(cars, r) == car_cons_of(cars, node));
    if q > 0 {
        assert(tail_of(cdrs, r, q) == tail_of(cdrs, node, q));
    }
    if height == 0 {
        assert(power(f, 0) == 1);
        assert(i / 1 == i) by (nonlinear_arith);
        assert(q == i);
    }
}

} // verus!
