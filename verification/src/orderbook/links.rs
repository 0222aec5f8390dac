//! Facts about price-ordered index lists threaded through arena nodes:
//! what linking a node in or unlinking it does to the list invariants.

use vstd::prelude::*;
use crate::orderbook::arena::{OrderNode, SENTINEL};
use crate::orderbook::book::{ascending, descending, disjoint, distinct, in_range, linked, list_wf};

verus! {

pub proof fn lemma_insert_index(l: Seq<u32>, p: int, x: u32)
    requires
        0 <= p <= l.len(),
    ensures
        l.insert(p, x).len() == l.len() + 1,
        l.insert(p, x)[p] == x,
        forall|i: int| 0 <= i < p ==> #[trigger] l.insert(p, x)[i] == l[i],
        forall|i: int| p < i <= l.len() ==> #[trigger] l.insert(p, x)[i] == l[i - 1],
{
    l.insert_ensures(p, x);
    assert forall|i: int| p < i <= l.len() implies #[trigger] l.insert(p, x)[i] == l[i - 1] by {
        assert(l.insert(p, x)[(i - 1) + 1] == l[i - 1]);
    }
}

pub proof fn lemma_remove_index(l: Seq<u32>, p: int)
    requires
        0 <= p < l.len(),
    ensures
        l.remove(p).len() == l.len() - 1,
        forall|i: int| 0 <= i < p ==> #[trigger] l.remove(p)[i] == l[i],
        forall|i: int| p <= i < l.len() - 1 ==> #[trigger] l.remove(p)[i] == l[i + 1],
{
    l.remove_ensures(p);
}

/// A list keeps its shape when none of its nodes changed.
pub proof fn lemma_list_frame(l: Seq<u32>, on: Seq<OrderNode>, nn: Seq<OrderNode>, head: u32)
    requires
        list_wf(l, on, head),
        nn.len() >= on.len(),
        forall|i: int| 0 <= i < l.len() ==> nn[#[trigger] l[i] as int] == on[l[i] as int],
    ensures
        list_wf(l, nn, head),
{
    reveal(linked);
    reveal(in_range);
    assert forall|i: int| 0 <= i < l.len() implies {
        &&& nn[#[trigger] l[i] as int].next == if i + 1 < l.len() {
            l[i + 1]
        } else {
            SENTINEL
        }
        &&& nn[l[i] as int].prev == if i > 0 {
            l[i - 1]
        } else {
            SENTINEL
        }
    } by {
        assert(nn[l[i] as int] == on[l[i] as int]);
    }
}

/// Prices along a list are unchanged when no node's price changed.
pub proof fn lemma_order_frame(l: Seq<u32>, on: Seq<OrderNode>, nn: Seq<OrderNode>)
    requires
        in_range(l, on.len()),
        nn.len() == on.len(),
        forall|k: int| 0 <= k < on.len() ==> (#[trigger] nn[k]).price == on[k].price,
    ensures
        descending(l, on) ==> descending(l, nn),
        ascending(l, on) ==> ascending(l, nn),
{
    reveal(in_range);
    reveal(descending);
    reveal(ascending);
    if descending(l, on) {
        assert forall|i: int, j: int| 0 <= i < j < l.len() implies nn[#[trigger] l[i] as int].price
            >= nn[#[trigger] l[j] as int].price by {
            assert(l[i] < on.len() && l[j] < on.len());
        }
    }
    if ascending(l, on) {
        assert forall|i: int, j: int| 0 <= i < j < l.len() implies nn[#[trigger] l[i] as int].price
            <= nn[#[trigger] l[j] as int].price by {
            assert(l[i] < on.len() && l[j] < on.len());
        }
    }
}

pub proof fn lemma_disjoint_sym(a: Seq<u32>, b: Seq<u32>)
    requires
        disjoint(a, b),
    ensures
        disjoint(b, a),
{
    reveal(disjoint);
    assert forall|i: int, j: int| 0 <= i < b.len() && 0 <= j < a.len() implies #[trigger] b[i]
        != #[trigger] a[j] by {
        assert(a[j] != b[i]);
    }
}

/// `x` is not an entry of `l`.
pub open spec fn absent(l: Seq<u32>, x: u32) -> bool {
    forall|i: int| 0 <= i < l.len() ==> #[trigger] l[i] != x
}

pub proof fn lemma_absent_contains(l: Seq<u32>, x: u32)
    ensures
        absent(l, x) <==> !l.contains(x),
{
    if !absent(l, x) {
        let i = choose|i: int| 0 <= i < l.len() && #[trigger] l[i] == x;
        assert(l.contains(x));
    }
}

pub proof fn lemma_disjoint_insert(a: Seq<u32>, b: Seq<u32>, p: int, x: u32)
    requires
        disjoint(a, b),
        0 <= p <= a.len(),
        absent(b, x),
    ensures
        disjoint(a.insert(p, x), b),
        disjoint(b, a.insert(p, x)),
{
    reveal(disjoint);
    lemma_insert_index(a, p, x);
    let na = a.insert(p, x);
    assert forall|i: int, j: int| 0 <= i < na.len() && 0 <= j < b.len() implies #[trigger] na[i]
        != #[trigger] b[j] by {
        if i < p {
            assert(na[i] == a[i]);
        } else if i > p {
            assert(na[i] == a[i - 1]);
        }
    }
    lemma_disjoint_sym(na, b);
}

pub proof fn lemma_disjoint_remove(a: Seq<u32>, b: Seq<u32>, p: int)
    requires
        disjoint(a, b),
        0 <= p < a.len(),
    ensures
        disjoint(a.remove(p), b),
        disjoint(b, a.remove(p)),
{
    reveal(disjoint);
    lemma_remove_index(a, p);
    let na = a.remove(p);
    assert forall|i: int, j: int| 0 <= i < na.len() && 0 <= j < b.len() implies #[trigger] na[i]
        != #[trigger] b[j] by {
        if i < p {
            assert(na[i] == a[i]);
        } else {
            assert(na[i] == a[i + 1]);
        }
    }
    lemma_disjoint_sym(na, b);
}

/// Dropping the last entry keeps `a` and `b` disjoint.
pub proof fn lemma_disjoint_drop_last(a: Seq<u32>, b: Seq<u32>)
    requires
        disjoint(a, b),
        a.len() > 0,
    ensures
        disjoint(a.drop_last(), b),
{
    reveal(disjoint);
    let na = a.drop_last();
    assert forall|i: int, j: int| 0 <= i < na.len() && 0 <= j < b.len() implies #[trigger] na[i]
        != #[trigger] b[j] by {
        assert(na[i] == a[i]);
    }
}

/// Linking node `x` between positions `p - 1` and `p` of `l` yields a
/// well-linked list `l.insert(p, x)`.
#[verifier::spinoff_prover]
pub proof fn lemma_link_insert(
    l: Seq<u32>,
    on: Seq<OrderNode>,
    nn: Seq<OrderNode>,
    old_head: u32,
    new_head: u32,
    p: int,
    x: u32,
)
    requires
        list_wf(l, on, old_head),
        0 <= p <= l.len(),
        x < on.len(),
        absent(l, x),
        nn.len() == on.len(),
        new_head == if p == 0 {
            x
        } else {
            old_head
        },
        nn[x as int].next == if p < l.len() {
            l[p]
        } else {
            SENTINEL
        },
        nn[x as int].prev == if p > 0 {
            l[p - 1]
        } else {
            SENTINEL
        },
        p > 0 ==> nn[l[p - 1] as int].next == x && nn[l[p - 1] as int].prev == on[l[p
            - 1] as int].prev,
        p < l.len() ==> nn[l[p] as int].prev == x && nn[l[p] as int].next == on[l[p] as int].next,
        forall|k: int|
            0 <= k < on.len() && k != x && (p == 0 || k != l[p - 1]) && (p == l.len() || k
                != l[p]) ==> #[trigger] nn[k] == on[k],
    ensures
        list_wf(l.insert(p, x), nn, new_head),
{
    reveal(in_range);
    reveal(distinct);
    reveal(linked);
    lemma_insert_index(l, p, x);
    let nl = l.insert(p, x);
    assert forall|i: int| 0 <= i < nl.len() implies #[trigger] nl[i] < nn.len() by {
        if i > p {
            assert(nl[i] == l[i - 1]);
        }
    }
    assert forall|i: int| 0 <= i < nl.len() implies {
        &&& nn[#[trigger] nl[i] as int].next == if i + 1 < nl.len() {
            nl[i + 1]
        } else {
            SENTINEL
        }
        &&& nn[nl[i] as int].prev == if i > 0 {
            nl[i - 1]
        } else {
            SENTINEL
        }
    } by {
        if i < p {
            let k = l[i];
            if i + 1 < p {
                assert(k != l[p - 1]);
                if p < l.len() {
                    assert(k != l[p]);
                }
                assert(nn[k as int] == on[k as int]);
            }
        } else if i > p {
            let k = l[i - 1];
            if i - 1 > p {
                assert(k != l[p]);
                if p > 0 {
                    assert(k != l[p - 1]);
                }
                assert(nn[k as int] == on[k as int]);
            }
        }
    }
    assert forall|i: int, j: int| 0 <= i < j < nl.len() implies #[trigger] nl[i] != #[trigger] nl[j] by {
        if i < p && j > p {
            assert(l[i] != l[j - 1]);
        } else if i > p {
            assert(l[i - 1] != l[j - 1]);
        } else if j < p {
            assert(l[i] != l[j]);
        }
    }
}

/// Unlinking the node at position `p` of `l` (its neighbours now point past
/// it) yields a well-linked list `l.remove(p)`.
#[verifier::spinoff_prover]
pub proof fn lemma_link_remove(
    l: Seq<u32>,
    on: Seq<OrderNode>,
    nn: Seq<OrderNode>,
    old_head: u32,
    new_head: u32,
    p: int,
)
    requires
        list_wf(l, on, old_head),
        0 <= p < l.len(),
        nn.len() == on.len(),
        new_head == if p == 0 {
            if l.len() > 1 {
                l[1]
            } else {
                SENTINEL
            }
        } else {
            old_head
        },
        p > 0 ==> nn[l[p - 1] as int].next == (if p + 1 < l.len() {
            l[p + 1]
        } else {
            SENTINEL
        }) && nn[l[p - 1] as int].prev == on[l[p - 1] as int].prev,
        p + 1 < l.len() ==> nn[l[p + 1] as int].prev == (if p > 0 {
            l[p - 1]
        } else {
            SENTINEL
        }) && nn[l[p + 1] as int].next == on[l[p + 1] as int].next,
        forall|k: int|
            0 <= k < on.len() && (p == 0 || k != l[p - 1]) && (p + 1 == l.len() || k != l[p
                + 1]) ==> #[trigger] nn[k] == on[k],
    ensures
        list_wf(l.remove(p), nn, new_head),
{
    reveal(in_range);
    reveal(distinct);
    reveal(linked);
    lemma_remove_index(l, p);
    let nl = l.remove(p);
    assert forall|i: int| 0 <= i < nl.len() implies #[trigger] nl[i] < nn.len() by {
        if i >= p {
            assert(nl[i] == l[i + 1]);
        }
    }
    assert forall|i: int| 0 <= i < nl.len() implies {
        &&& nn[#[trigger] nl[i] as int].next == if i + 1 < nl.len() {
            nl[i + 1]
        } else {
            SENTINEL
        }
        &&& nn[nl[i] as int].prev == if i > 0 {
            nl[i - 1]
        } else {
            SENTINEL
        }
    } by {
        lemma_link_remove_at(l, on, nn, old_head, p, i);
    }
    assert forall|i: int, j: int| 0 <= i < j < nl.len() implies #[trigger] nl[i] != #[trigger] nl[j] by {
        if j < p {
            assert(l[i] != l[j]);
        } else if i < p {
            assert(l[i] != l[j + 1]);
        } else {
            assert(l[i + 1] != l[j + 1]);
        }
    }
    if p == 0 && nl.len() > 0 {
        assert(nl[0] == l[1]);
    }
}

#[verifier::spinoff_prover]
proof fn lemma_link_remove_at(
    l: Seq<u32>,
    on: Seq<OrderNode>,
    nn: Seq<OrderNode>,
    old_head: u32,
    p: int,
    i: int,
)
    requires
        list_wf(l, on, old_head),
        0 <= p < l.len(),
        0 <= i < l.len() - 1,
        nn.len() == on.len(),
        p > 0 ==> nn[l[p - 1] as int].next == (if p + 1 < l.len() {
            l[p + 1]
        } else {
            SENTINEL
        }) && nn[l[p - 1] as int].prev == on[l[p - 1] as int].prev,
        p + 1 < l.len() ==> nn[l[p + 1] as int].prev == (if p > 0 {
            l[p - 1]
        } else {
            SENTINEL
        }) && nn[l[p + 1] as int].next == on[l[p + 1] as int].next,
        forall|k: int|
            0 <= k < on.len() && (p == 0 || k != l[p - 1]) && (p + 1 == l.len() || k != l[p
                + 1]) ==> #[trigger] nn[k] == on[k],
    ensures
        ({
            let nl = l.remove(p);
        &&& nn[nl[i] as int].next == if i + 1 < nl.len() {
            nl[i + 1]
        } else {
            SENTINEL
        }
        &&& nn[nl[i] as int].prev == if i > 0 {
            nl[i - 1]
        } else {
            SENTINEL
        }
    }),
{
    reveal(in_range);
    reveal(distinct);
    reveal(linked);
    lemma_remove_index(l, p);
    let nl = l.remove(p);
    if i < p {
        let k = l[i];
        if i + 1 < p {
            assert(k != l[p - 1]);
            if p + 1 < l.len() {
                assert(k != l[p + 1]);
            }
            assert(nn[k as int] == on[k as int]);
        } else {
            if p + 1 < l.len() {
                assert(nl[i + 1] == l[p + 1]);
            }
        }
    } else {
        let k = l[i + 1];
        if i > p {
            assert(k != l[p + 1]);
            if p > 0 {
                assert(k != l[p - 1]);
            }
            assert(nn[k as int] == on[k as int]);
            assert(nl[i - 1] == l[i]);
        } else {
            if p > 0 {
                assert(k != l[p - 1]);
            }
        }
        if i + 1 < nl.len() {
            assert(nl[i + 1] == l[i + 2]);
        }
    }
}

pub proof fn lemma_descending_insert(l: Seq<u32>, nodes: Seq<OrderNode>, p: int, x: u32)
    requires
        descending(l, nodes),
        in_range(l, nodes.len()),
        x < nodes.len(),
        0 <= p <= l.len(),
        forall|j: int| 0 <= j < p ==> nodes[l[j] as int].price > nodes[x as int].price,
        p == l.len() || nodes[l[p] as int].price <= nodes[x as int].price,
    ensures
        descending(l.insert(p, x), nodes),
{
    reveal(descending);
    reveal(in_range);
    lemma_insert_index(l, p, x);
    let nl = l.insert(p, x);
    assert forall|i: int, j: int| 0 <= i < j < nl.len() implies nodes[#[trigger] nl[i] as int].price
        >= nodes[#[trigger] nl[j] as int].price by {
        if i == p {
            assert(nl[j] == l[j - 1]);
            if j - 1 > p {
                assert(nodes[l[p] as int].price >= nodes[l[j - 1] as int].price);
            }
        } else if j == p {
            assert(nl[i] == l[i]);
        } else if i < p && j < p {
            assert(nodes[l[i] as int].price >= nodes[l[j] as int].price);
        } else if i < p {
            assert(nl[j] == l[j - 1]);
            assert(nodes[l[i] as int].price >= nodes[l[j - 1] as int].price);
        } else {
            assert(nl[i] == l[i - 1]);
            assert(nl[j] == l[j - 1]);
            assert(nodes[l[i - 1] as int].price >= nodes[l[j - 1] as int].price);
        }
    }
}

pub proof fn lemma_ascending_insert(l: Seq<u32>, nodes: Seq<OrderNode>, p: int, x: u32)
    requires
        ascending(l, nodes),
        in_range(l, nodes.len()),
        x < nodes.len(),
        0 <= p <= l.len(),
        forall|j: int| 0 <= j < p ==> nodes[l[j] as int].price < nodes[x as int].price,
        p == l.len() || nodes[l[p] as int].price >= nodes[x as int].price,
    ensures
        ascending(l.insert(p, x), nodes),
{
    reveal(ascending);
    reveal(in_range);
    lemma_insert_index(l, p, x);
    let nl = l.insert(p, x);
    assert forall|i: int, j: int| 0 <= i < j < nl.len() implies nodes[#[trigger] nl[i] as int].price
        <= nodes[#[trigger] nl[j] as int].price by {
        if i == p {
            assert(nl[j] == l[j - 1]);
            if j - 1 > p {
                assert(nodes[l[p] as int].price <= nodes[l[j - 1] as int].price);
            }
        } else if j == p {
            assert(nl[i] == l[i]);
        } else if i < p && j < p {
            assert(nodes[l[i] as int].price <= nodes[l[j] as int].price);
        } else if i < p {
            assert(nl[j] == l[j - 1]);
            assert(nodes[l[i] as int].price <= nodes[l[j - 1] as int].price);
        } else {
            assert(nl[i] == l[i - 1]);
            assert(nl[j] == l[j - 1]);
            assert(nodes[l[i - 1] as int].price <= nodes[l[j - 1] as int].price);
        }
    }
}

pub proof fn lemma_sorted_remove(l: Seq<u32>, nodes: Seq<OrderNode>, p: int)
    requires
        0 <= p < l.len(),
    ensures
        descending(l, nodes) ==> descending(l.remove(p), nodes),
        ascending(l, nodes) ==> ascending(l.remove(p), nodes),
{
    reveal(descending);
    reveal(ascending);
    lemma_remove_index(l, p);
    let nl = l.remove(p);
    if descending(l, nodes) {
        assert forall|i: int, j: int| 0 <= i < j < nl.len() implies nodes[#[trigger] nl[i] as int].price
            >= nodes[#[trigger] nl[j] as int].price by {
            let a = if i < p { i } else { i + 1 };
            let b = if j < p { j } else { j + 1 };
            assert(nodes[l[a] as int].price >= nodes[l[b] as int].price);
        }
    }
    if ascending(l, nodes) {
        assert forall|i: int, j: int| 0 <= i < j < nl.len() implies nodes[#[trigger] nl[i] as int].price
            <= nodes[#[trigger] nl[j] as int].price by {
            let a = if i < p { i } else { i + 1 };
            let b = if j < p { j } else { j + 1 };
            assert(nodes[l[a] as int].price <= nodes[l[b] as int].price);
        }
    }
}

} // verus!
