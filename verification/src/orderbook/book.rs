//! Order book: bids and asks kept as price-ordered, doubly linked lists of
//! arena nodes. Bids run from the highest price, asks from the lowest.

use vstd::prelude::*;
use crate::orderbook::arena::{OrderArena, OrderNode, SENTINEL, blank_node, lemma_fresh_allocation, unused_slots};
use vstd::set_lib::{lemma_int_range, lemma_len_subset, set_int_range};
use crate::orderbook::links::{
    absent, lemma_absent_contains, lemma_ascending_insert, lemma_descending_insert,
    lemma_disjoint_drop_last, lemma_disjoint_insert, lemma_disjoint_remove, lemma_disjoint_sym, lemma_insert_index,
    lemma_link_insert, lemma_link_remove, lemma_list_frame, lemma_order_frame,
    lemma_remove_index, lemma_sorted_remove,
};

verus! {

/// The order carried by a node: its id, price and quantity.
#[derive(Debug, Clone, Copy, PartialEq, Eq)]
pub struct RestingOrder {
    pub order_id: u64,
    pub price: u64,
    pub qty: u32,
}

/// The order carried by node `n`.
pub open spec fn order_of(n: OrderNode) -> RestingOrder {
    RestingOrder { order_id: n.order_id, price: n.price, qty: n.qty }
}

/// The order carried by each slot.
pub open spec fn orders_of(nodes: Seq<OrderNode>) -> Seq<RestingOrder> {
    nodes.map_values(|n: OrderNode| order_of(n))
}

/// Every entry of `l` indexes a slot of `nodes`.
#[verifier::opaque]
pub open spec fn in_range(l: Seq<u32>, n: nat) -> bool {
    forall|i: int| 0 <= i < l.len() ==> #[trigger] l[i] < n
}

/// No entry of `l` occurs twice.
#[verifier::opaque]
pub open spec fn distinct(l: Seq<u32>) -> bool {
    forall|i: int, j: int| 0 <= i < j < l.len() ==> #[trigger] l[i] != #[trigger] l[j]
}

/// No entry of `a` occurs in `b`.
#[verifier::opaque]
pub open spec fn disjoint(a: Seq<u32>, b: Seq<u32>) -> bool {
    forall|i: int, j: int| 0 <= i < a.len() && 0 <= j < b.len() ==> #[trigger] a[i] != #[trigger] b[j]
}

/// Each node of `l` links to its neighbours in `l`.
#[verifier::opaque]
pub open spec fn linked(l: Seq<u32>, nodes: Seq<OrderNode>) -> bool {
    forall|i: int|
        0 <= i < l.len() ==> {
            &&& nodes[#[trigger] l[i] as int].next == if i + 1 < l.len() {
                l[i + 1]
            } else {
                SENTINEL
            }
            &&& nodes[l[i] as int].prev == if i > 0 {
                l[i - 1]
            } else {
                SENTINEL
            }
        }
}

/// `l` is a doubly linked list through `nodes` that starts at `head`.
pub open spec fn list_wf(l: Seq<u32>, nodes: Seq<OrderNode>, head: u32) -> bool {
    &&& head == if l.len() == 0 {
        SENTINEL
    } else {
        l[0]
    }
    &&& in_range(l, nodes.len())
    &&& distinct(l)
    &&& linked(l, nodes)
}

/// Prices along `l` never rise.
#[verifier::opaque]
pub open spec fn descending(l: Seq<u32>, nodes: Seq<OrderNode>) -> bool {
    forall|i: int, j: int|
        0 <= i < j < l.len() ==> nodes[#[trigger] l[i] as int].price >= nodes[#[trigger] l[j] as int].price
}

/// Prices along `l` never fall.
#[verifier::opaque]
pub open spec fn ascending(l: Seq<u32>, nodes: Seq<OrderNode>) -> bool {
    forall|i: int, j: int|
        0 <= i < j < l.len() ==> nodes[#[trigger] l[i] as int].price <= nodes[#[trigger] l[j] as int].price
}

/// Every slot on none of `a`, `b`, `c` has no links.
#[verifier::opaque]
pub open spec fn unlinked_rest(nodes: Seq<OrderNode>, a: Seq<u32>, b: Seq<u32>, c: Seq<u32>) -> bool {
    forall|k: int|
        0 <= k < nodes.len() && !a.contains(k as u32) && !b.contains(k as u32) && !c.contains(
            k as u32,
        ) ==> (#[trigger] nodes[k]).next == SENTINEL && nodes[k].prev == SENTINEL
}

/// Number of leading bids priced strictly above `price`: where a new bid at
/// `price` goes.
pub open spec fn bid_rank(bids: Seq<RestingOrder>, price: u64) -> nat
    decreases bids.len(),
{
    if bids.len() == 0 || bids[0].price <= price {
        0
    } else {
        1 + bid_rank(bids.drop_first(), price)
    }
}

/// Number of leading asks priced strictly below `price`: where a new ask at
/// `price` goes.
pub open spec fn ask_rank(asks: Seq<RestingOrder>, price: u64) -> nat
    decreases asks.len(),
{
    if asks.len() == 0 || asks[0].price >= price {
        0
    } else {
        1 + ask_rank(asks.drop_first(), price)
    }
}

/// `s` with the entry `k` taken out (unchanged when `k` is absent).
pub open spec fn without(s: Seq<u32>, k: u32) -> Seq<u32> {
    if s.contains(k) {
        s.remove(choose|p: int| 0 <= p < s.len() && s[p] == k)
    } else {
        s
    }
}

/// The lowest slot below `n` whose node carries `order_id`.
pub open spec fn first_slot_with(nodes: Seq<OrderNode>, order_id: u64, n: nat) -> Option<nat>
    decreases n,
{
    if n == 0 {
        None
    } else {
        match first_slot_with(nodes, order_id, (n - 1) as nat) {
            Some(k) => Some(k),
            None => if nodes[n - 1].order_id == order_id {
                Some((n - 1) as nat)
            } else {
                None
            },
        }
    }
}

/// Price-level order book over an arena of nodes.
pub struct OrderBook {
    /// Index of the best bid.
    bids_head: u32,
    /// Index of the best ask.
    asks_head: u32,
    arena: OrderArena,
    bids: Ghost<Seq<u32>>,
    asks: Ghost<Seq<u32>>,
}

impl OrderBook {
    /// The arena's nodes.
    pub closed spec fn nodes(&self) -> Seq<OrderNode> {
        self.arena.nodes()
    }

    /// The arena's free list.
    pub closed spec fn free_slots(&self) -> Seq<u32> {
        self.arena.free_slots()
    }

    /// Slots of the bids, best first.
    pub closed spec fn bid_slots(&self) -> Seq<u32> {
        self.bids@
    }

    /// Slots of the asks, best first.
    pub closed spec fn ask_slots(&self) -> Seq<u32> {
        self.asks@
    }

    /// The order in slot `k`.
    pub open spec fn order_in(&self, k: int) -> RestingOrder {
        order_of(self.nodes()[k])
    }

    /// Resting bids, best (highest price) first.
    pub open spec fn bids(&self) -> Seq<RestingOrder> {
        self.bid_slots().map_values(|k: u32| self.order_in(k as int))
    }

    /// Resting asks, best (lowest price) first.
    pub open spec fn asks(&self) -> Seq<RestingOrder> {
        self.ask_slots().map_values(|k: u32| self.order_in(k as int))
    }

    /// Both lists are well linked, ordered by price and disjoint; free slots
    /// are distinct and on neither list; every other node has no links.
    pub closed spec fn wf(&self) -> bool {
        let nodes = self.arena.nodes();
        let free = self.arena.free_slots();
        &&& nodes.len() <= SENTINEL
        &&& list_wf(self.bids@, nodes, self.bids_head)
        &&& list_wf(self.asks@, nodes, self.asks_head)
        &&& disjoint(self.bids@, self.asks@)
        &&& in_range(free, nodes.len())
        &&& distinct(free)
        &&& disjoint(free, self.bids@)
        &&& disjoint(free, self.asks@)
        &&& unlinked_rest(nodes, self.bids@, self.asks@, free)
        &&& descending(self.bids@, nodes)
        &&& ascending(self.asks@, nodes)
    }

    /// An empty book over an arena of `arena_capacity` pre-allocated nodes,
    /// all of them free.
    pub fn new(arena_capacity: usize) -> (r: Self)
        requires
            arena_capacity <= SENTINEL,
        ensures
            r.wf(),
            r.bids() == Seq::<RestingOrder>::empty(),
            r.asks() == Seq::<RestingOrder>::empty(),
            r.nodes() == Seq::new(arena_capacity as nat, |i: int| blank_node()),
            r.free_slots() == unused_slots(arena_capacity as nat, 0),
    {
        let r = OrderBook {
            bids_head: SENTINEL,
            asks_head: SENTINEL,
            arena: OrderArena::with_capacity(arena_capacity),
            bids: Ghost(Seq::empty()),
            asks: Ghost(Seq::empty()),
        };
        proof {
            reveal(in_range);
            reveal(distinct);
            reveal(linked);
            reveal(disjoint);
            reveal(unlinked_rest);
            reveal(descending);
            reveal(ascending);
            let free = r.free_slots();
            let n = arena_capacity as nat;
            assert forall|i: int, j: int| 0 <= i < j < free.len() implies #[trigger] free[i]
                != #[trigger] free[j] by {
                assert(free[i] == (n - 1 - i) as u32);
                assert(free[j] == (n - 1 - j) as u32);
            }
        }
        assert(r.bids() =~= Seq::<RestingOrder>::empty());
        assert(r.asks() =~= Seq::<RestingOrder>::empty());
        r
    }

    /// Price of the best bid, if any; no bid is priced higher.
    pub fn best_bid(&self) -> (r: Option<u64>)
        requires
            self.wf(),
        ensures
            r == if self.bids().len() == 0 {
                None
            } else {
                Some(self.bids()[0].price)
            },
            r matches Some(p) ==> forall|i: int| 0 <= i < self.bids().len() ==> self.bids()[i].price <= p,
    {
        proof {
            reveal(in_range);
            reveal(descending);
            if self.bids@.len() > 0 {
                assert(self.bids@[0] < self.nodes().len());
            }
        }
        if self.bids_head == SENTINEL {
            return None;
        }
        Some(self.arena.get(self.bids_head).price)
    }

    /// Price of the best ask, if any; no ask is priced lower.
    pub fn best_ask(&self) -> (r: Option<u64>)
        requires
            self.wf(),
        ensures
            r == if self.asks().len() == 0 {
                None
            } else {
                Some(self.asks()[0].price)
            },
            r matches Some(p) ==> forall|i: int| 0 <= i < self.asks().len() ==> self.asks()[i].price >= p,
    {
        proof {
            reveal(in_range);
            reveal(ascending);
            if self.asks@.len() > 0 {
                assert(self.asks@[0] < self.nodes().len());
            }
        }
        if self.asks_head == SENTINEL {
            return None;
        }
        Some(self.arena.get(self.asks_head).price)
    }
}

proof fn lemma_list_facts(l: Seq<u32>, nodes: Seq<OrderNode>, head: u32)
    requires
        list_wf(l, nodes, head),
    ensures
        forall|i: int| 0 <= i < l.len() ==> #[trigger] l[i] < nodes.len(),
        forall|i: int|
            0 <= i < l.len() ==> (#[trigger] nodes[l[i] as int]).next == if i + 1 < l.len() {
                l[i + 1]
            } else {
                SENTINEL
            },
{
    reveal(in_range);
    reveal(linked);
}

proof fn lemma_linked_at(l: Seq<u32>, nodes: Seq<OrderNode>, head: u32, p: int)
    requires
        list_wf(l, nodes, head),
        0 <= p < l.len(),
    ensures
        l[p] < nodes.len(),
        p > 0 ==> l[p - 1] < nodes.len(),
        p + 1 < l.len() ==> l[p + 1] < nodes.len(),
        nodes[l[p] as int].next == if p + 1 < l.len() {
            l[p + 1]
        } else {
            SENTINEL
        },
        nodes[l[p] as int].prev == if p > 0 {
            l[p - 1]
        } else {
            SENTINEL
        },
        head == l[0],
        forall|i: int| 0 <= i < l.len() && i != p ==> #[trigger] l[i] != l[p],
        p > 0 && p + 1 < l.len() ==> l[p - 1] != l[p + 1],
{
    reveal(in_range);
    reveal(linked);
    reveal(distinct);
    assert(l[p] < nodes.len());
    if p > 0 {
        assert(l[p - 1] < nodes.len());
    }
    if p + 1 < l.len() {
        assert(l[p + 1] < nodes.len());
    }
    assert forall|i: int| 0 <= i < l.len() && i != p implies #[trigger] l[i] != l[p] by {
        if i < p {
            assert(l[i] != l[p]);
        } else {
            assert(l[p] != l[i]);
        }
    }
}

proof fn lemma_unlinked_at(
    nodes: Seq<OrderNode>,
    a: Seq<u32>,
    b: Seq<u32>,
    c: Seq<u32>,
    k: int,
)
    requires
        unlinked_rest(nodes, a, b, c),
        0 <= k < nodes.len(),
        !a.contains(k as u32),
        !b.contains(k as u32),
        !c.contains(k as u32),
    ensures
        nodes[k].next == SENTINEL,
        nodes[k].prev == SENTINEL,
{
    reveal(unlinked_rest);
}

proof fn lemma_unlinked_rest_push(
    nodes: Seq<OrderNode>,
    a: Seq<u32>,
    b: Seq<u32>,
    c: Seq<u32>,
    k: u32,
)
    requires
        unlinked_rest(nodes, a, b, c),
    ensures
        unlinked_rest(nodes, a, b, c.push(k)),
{
    reveal(unlinked_rest);
    assert forall|j: int|
        0 <= j < nodes.len() && !a.contains(j as u32) && !b.contains(j as u32) && !c.push(
            k,
        ).contains(j as u32) implies (#[trigger] nodes[j]).next == SENTINEL && nodes[j].prev
        == SENTINEL by {
        if c.contains(j as u32) {
            let i = choose|i: int| 0 <= i < c.len() && c[i] == j as u32;
            assert(c.push(k)[i] == j as u32);
        }
    }
}

proof fn lemma_bid_rank(bids: Seq<RestingOrder>, price: u64, p: int)
    requires
        0 <= p <= bids.len(),
        forall|j: int| 0 <= j < p ==> bids[j].price > price,
        p == bids.len() || bids[p].price <= price,
    ensures
        bid_rank(bids, price) == p,
    decreases bids.len(),
{
    if bids.len() > 0 && p > 0 {
        lemma_bid_rank(bids.drop_first(), price, p - 1);
    }
}

proof fn lemma_ask_rank(asks: Seq<RestingOrder>, price: u64, p: int)
    requires
        0 <= p <= asks.len(),
        forall|j: int| 0 <= j < p ==> asks[j].price < price,
        p == asks.len() || asks[p].price >= price,
    ensures
        ask_rank(asks, price) == p,
    decreases asks.len(),
{
    if asks.len() > 0 && p > 0 {
        lemma_ask_rank(asks.drop_first(), price, p - 1);
    }
}

proof fn lemma_bid_rank_bound(bids: Seq<RestingOrder>, price: u64)
    ensures
        bid_rank(bids, price) <= bids.len(),
        forall|j: int| 0 <= j < bid_rank(bids, price) ==> #[trigger] bids[j].price > price,
        bid_rank(bids, price) < bids.len() ==> bids[bid_rank(bids, price) as int].price <= price,
    decreases bids.len(),
{
    if bids.len() > 0 && bids[0].price > price {
        lemma_bid_rank_bound(bids.drop_first(), price);
        assert forall|j: int| 0 <= j < bid_rank(bids, price) implies #[trigger] bids[j].price > price by {
            if j > 0 {
                assert(bids[j] == bids.drop_first()[j - 1]);
            }
        }
    }
}

proof fn lemma_ask_rank_bound(asks: Seq<RestingOrder>, price: u64)
    ensures
        ask_rank(asks, price) <= asks.len(),
        forall|j: int| 0 <= j < ask_rank(asks, price) ==> #[trigger] asks[j].price < price,
        ask_rank(asks, price) < asks.len() ==> asks[ask_rank(asks, price) as int].price >= price,
    decreases asks.len(),
{
    if asks.len() > 0 && asks[0].price < price {
        lemma_ask_rank_bound(asks.drop_first(), price);
        assert forall|j: int| 0 <= j < ask_rank(asks, price) implies #[trigger] asks[j].price < price by {
            if j > 0 {
                assert(asks[j] == asks.drop_first()[j - 1]);
            }
        }
    }
}

impl OrderBook {
    /// Linking node `idx` into one side at position `p` (the bids when
    /// `on_bids`), where the rank facts place it by price, keeps the book
    /// well formed.
    #[verifier::spinoff_prover]
    proof fn lemma_insert_keeps_wf(self, old_book: OrderBook, p: int, idx: u32, on_bids: bool)
        requires
            old_book.wf(),
            idx < old_book.nodes().len(),
            absent(old_book.bids@, idx),
            absent(old_book.asks@, idx),
            absent(old_book.free_slots(), idx),
            self.nodes().len() == old_book.nodes().len(),
            self.free_slots() == old_book.free_slots(),
            forall|k: int|
                0 <= k < self.nodes().len() ==> (#[trigger] self.nodes()[k]).price == old_book.nodes()[k].price,
            on_bids ==> {
                &&& 0 <= p <= old_book.bids@.len()
                &&& self.bids@ == old_book.bids@.insert(p, idx)
                &&& self.asks@ == old_book.asks@
                &&& self.asks_head == old_book.asks_head
                &&& list_wf(self.bids@, self.nodes(), self.bids_head)
                &&& forall|j: int|
                    0 <= j < p ==> old_book.nodes()[old_book.bids@[j] as int].price
                        > old_book.nodes()[idx as int].price
                &&& p == old_book.bids@.len() || old_book.nodes()[old_book.bids@[p] as int].price
                    <= old_book.nodes()[idx as int].price
                &&& forall|k: int|
                    0 <= k < self.nodes().len() && k != idx && absent(old_book.bids@, k as u32)
                        ==> #[trigger] self.nodes()[k] == old_book.nodes()[k]
            },
            !on_bids ==> {
                &&& 0 <= p <= old_book.asks@.len()
                &&& self.asks@ == old_book.asks@.insert(p, idx)
                &&& self.bids@ == old_book.bids@
                &&& self.bids_head == old_book.bids_head
                &&& list_wf(self.asks@, self.nodes(), self.asks_head)
                &&& forall|j: int|
                    0 <= j < p ==> old_book.nodes()[old_book.asks@[j] as int].price
                        < old_book.nodes()[idx as int].price
                &&& p == old_book.asks@.len() || old_book.nodes()[old_book.asks@[p] as int].price
                    >= old_book.nodes()[idx as int].price
                &&& forall|k: int|
                    0 <= k < self.nodes().len() && k != idx && absent(old_book.asks@, k as u32)
                        ==> #[trigger] self.nodes()[k] == old_book.nodes()[k]
            },
        ensures
            self.wf(),
    {
        let on = old_book.nodes();
        let nn = self.nodes();
        let ob = old_book.bids@;
        let oa = old_book.asks@;
        let free = self.free_slots();
        reveal(disjoint);
        reveal(in_range);
        lemma_disjoint_sym(free, ob);
        lemma_disjoint_sym(free, oa);
        let (ins, other) = if on_bids {
            (ob, oa)
        } else {
            (oa, ob)
        };
        let nl = ins.insert(p, idx);
        lemma_insert_index(ins, p, idx);
        // the untouched side keeps its links
        assert forall|i: int| 0 <= i < other.len() implies nn[#[trigger] other[i] as int]
            == on[other[i] as int] by {
            assert(absent(ins, other[i]));
        }
        if on_bids {
            lemma_list_frame(oa, on, nn, self.asks_head);
            lemma_disjoint_insert(ob, oa, p, idx);
            lemma_disjoint_insert(ob, free, p, idx);
            lemma_descending_insert(ob, on, p, idx);
            lemma_order_frame(nl, on, nn);
            lemma_order_frame(oa, on, nn);
        } else {
            lemma_list_frame(ob, on, nn, self.bids_head);
            lemma_disjoint_insert(oa, ob, p, idx);
            lemma_disjoint_sym(oa.insert(p, idx), ob);
            lemma_disjoint_insert(oa, free, p, idx);
            lemma_ascending_insert(oa, on, p, idx);
            lemma_order_frame(nl, on, nn);
            lemma_order_frame(ob, on, nn);
        }
        reveal(unlinked_rest);
        assert forall|k: int|
            0 <= k < nn.len() && !self.bids@.contains(k as u32) && !self.asks@.contains(k as u32)
                && !free.contains(k as u32) implies (#[trigger] nn[k]).next == SENTINEL
            && nn[k].prev == SENTINEL by {
            assert(nl[p] == idx);
            assert(nl.contains(idx));
            lemma_absent_contains(nl, k as u32);
            lemma_absent_contains(ins, k as u32);
            lemma_absent_contains(ob, k as u32);
            lemma_absent_contains(oa, k as u32);
            if !absent(ins, k as u32) {
                let j = choose|j: int| 0 <= j < ins.len() && #[trigger] ins[j] == k as u32;
                if j < p {
                    assert(nl[j] == ins[j]);
                } else {
                    assert(nl[j + 1] == ins[j]);
                }
            }
            assert(nn[k] == on[k]);
        }
    }

    /// Links node `idx` into the bids after every bid priced higher.
    fn insert_bid(&mut self, idx: u32)
        requires
            old(self).wf(),
            idx < old(self).nodes().len(),
            absent(old(self).bid_slots(), idx),
            absent(old(self).ask_slots(), idx),
            absent(old(self).free_slots(), idx),
        ensures
            final(self).wf(),
            final(self).bid_slots() == old(self).bid_slots().insert(
                bid_rank(old(self).bids(), old(self).nodes()[idx as int].price) as int,
                idx,
            ),
            final(self).ask_slots() == old(self).ask_slots(),
            final(self).free_slots() == old(self).free_slots(),
            orders_of(final(self).nodes()) == orders_of(old(self).nodes()),
    {
        let price = self.arena.get(idx).price;
        let ghost bids = self.bids@;
        let ghost nodes0 = self.arena.nodes();
        proof {
            lemma_list_facts(bids, nodes0, if bids.len() == 0 { SENTINEL } else { bids[0] });
        }
        let mut prev = SENTINEL;
        let mut curr = self.bids_head;
        let ghost mut p: int = 0;
        while curr != SENTINEL
            invariant
                *self == *old(self),
                bids == old(self).bids@,
                nodes0 == self.arena.nodes(),
                nodes0.len() <= SENTINEL,
                price == nodes0[idx as int].price,
                forall|i: int| 0 <= i < bids.len() ==> #[trigger] bids[i] < nodes0.len(),
                forall|i: int|
                    0 <= i < bids.len() ==> (#[trigger] nodes0[bids[i] as int]).next == if i + 1
                        < bids.len() {
                        bids[i + 1]
                    } else {
                        SENTINEL
                    },
                0 <= p <= bids.len(),
                prev == if p == 0 {
                    SENTINEL
                } else {
                    bids[p - 1]
                },
                curr == if p < bids.len() {
                    bids[p]
                } else {
                    SENTINEL
                },
                forall|j: int| 0 <= j < p ==> nodes0[bids[j] as int].price > price,
            ensures
                0 <= p <= bids.len(),
                prev == if p == 0 {
                    SENTINEL
                } else {
                    bids[p - 1]
                },
                curr == if p < bids.len() {
                    bids[p]
                } else {
                    SENTINEL
                },
                forall|j: int| 0 <= j < p ==> nodes0[bids[j] as int].price > price,
                p == bids.len() || nodes0[bids[p] as int].price <= price,
            decreases bids.len() - p,
        {
            assert(bids[p] < nodes0.len());
            if self.arena.get(curr).price <= price {
                break;
            }
            prev = curr;
            curr = self.arena.get(curr).next;
            proof {
                p = p + 1;
            }
        }
        proof {
            lemma_bid_rank(self.bids(), price, p);
            if p > 0 {
                assert(bids[p - 1] < nodes0.len());
            }
        }
        self.arena.get_mut(idx).prev = prev;
        self.arena.get_mut(idx).next = curr;
        if prev != SENTINEL {
            self.arena.get_mut(prev).next = idx;
        } else {
            self.bids_head = idx;
        }
        if curr != SENTINEL {
            self.arena.get_mut(curr).prev = idx;
        }
        self.bids = Ghost(bids.insert(p, idx));
        proof {
            let nodes1 = self.arena.nodes();
            lemma_link_insert(bids, nodes0, nodes1, old(self).bids_head, self.bids_head, p, idx);
            assert forall|k: int|
                0 <= k < nodes1.len() && k != idx && absent(bids, k as u32) implies #[trigger] nodes1[k]
                == nodes0[k] by {
                if p > 0 {
                    assert(bids[p - 1] != k);
                }
                if p < bids.len() {
                    assert(bids[p] != k);
                }
            }
            self.lemma_insert_keeps_wf(*old(self), p, idx, true);
            assert(orders_of(nodes1) =~= orders_of(nodes0));
        }
    }

    /// Links node `idx` into the asks after every ask priced lower.
    fn insert_ask(&mut self, idx: u32)
        requires
            old(self).wf(),
            idx < old(self).nodes().len(),
            absent(old(self).bid_slots(), idx),
            absent(old(self).ask_slots(), idx),
            absent(old(self).free_slots(), idx),
        ensures
            final(self).wf(),
            final(self).ask_slots() == old(self).ask_slots().insert(
                ask_rank(old(self).asks(), old(self).nodes()[idx as int].price) as int,
                idx,
            ),
            final(self).bid_slots() == old(self).bid_slots(),
            final(self).free_slots() == old(self).free_slots(),
            orders_of(final(self).nodes()) == orders_of(old(self).nodes()),
    {
        let price = self.arena.get(idx).price;
        let ghost bids = self.asks@;
        let ghost nodes0 = self.arena.nodes();
        proof {
            lemma_list_facts(bids, nodes0, if bids.len() == 0 { SENTINEL } else { bids[0] });
        }
        let mut prev = SENTINEL;
        let mut curr = self.asks_head;
        let ghost mut p: int = 0;
        while curr != SENTINEL
            invariant
                *self == *old(self),
                bids == old(self).asks@,
                nodes0 == self.arena.nodes(),
                nodes0.len() <= SENTINEL,
                price == nodes0[idx as int].price,
                forall|i: int| 0 <= i < bids.len() ==> #[trigger] bids[i] < nodes0.len(),
                forall|i: int|
                    0 <= i < bids.len() ==> (#[trigger] nodes0[bids[i] as int]).next == if i + 1
                        < bids.len() {
                        bids[i + 1]
                    } else {
                        SENTINEL
                    },
                0 <= p <= bids.len(),
                prev == if p == 0 {
                    SENTINEL
                } else {
                    bids[p - 1]
                },
                curr == if p < bids.len() {
                    bids[p]
                } else {
                    SENTINEL
                },
                forall|j: int| 0 <= j < p ==> nodes0[bids[j] as int].price < price,
            ensures
                0 <= p <= bids.len(),
                prev == if p == 0 {
                    SENTINEL
                } else {
                    bids[p - 1]
                },
                curr == if p < bids.len() {
                    bids[p]
                } else {
                    SENTINEL
                },
                forall|j: int| 0 <= j < p ==> nodes0[bids[j] as int].price < price,
                p == bids.len() || nodes0[bids[p] as int].price >= price,
            decreases bids.len() - p,
        {
            assert(bids[p] < nodes0.len());
            if self.arena.get(curr).price >= price {
                break;
            }
            prev = curr;
            curr = self.arena.get(curr).next;
            proof {
                p = p + 1;
            }
        }
        proof {
            lemma_ask_rank(self.asks(), price, p);
            if p > 0 {
                assert(bids[p - 1] < nodes0.len());
            }
        }
        self.arena.get_mut(idx).prev = prev;
        self.arena.get_mut(idx).next = curr;
        if prev != SENTINEL {
            self.arena.get_mut(prev).next = idx;
        } else {
            self.asks_head = idx;
        }
        if curr != SENTINEL {
            self.arena.get_mut(curr).prev = idx;
        }
        self.asks = Ghost(bids.insert(p, idx));
        proof {
            let nodes1 = self.arena.nodes();
            lemma_link_insert(bids, nodes0, nodes1, old(self).asks_head, self.asks_head, p, idx);
            assert forall|k: int|
                0 <= k < nodes1.len() && k != idx && absent(bids, k as u32) implies #[trigger] nodes1[k]
                == nodes0[k] by {
                if p > 0 {
                    assert(bids[p - 1] != k);
                }
                if p < bids.len() {
                    assert(bids[p] != k);
                }
            }
            self.lemma_insert_keeps_wf(*old(self), p, idx, false);
            assert(orders_of(nodes1) =~= orders_of(nodes0));
        }
    }
}

impl OrderBook {
    /// The well-formedness the book has while slot `k`, just unlinked, is
    /// about to join the free list.
    closed spec fn wf_free_pending(&self, k: u32) -> bool {
        let nodes = self.arena.nodes();
        let free = self.arena.free_slots();
        &&& nodes.len() <= SENTINEL
        &&& k < nodes.len()
        &&& absent(self.bids@, k)
        &&& absent(self.asks@, k)
        &&& absent(free, k)
        &&& list_wf(self.bids@, nodes, self.bids_head)
        &&& list_wf(self.asks@, nodes, self.asks_head)
        &&& disjoint(self.bids@, self.asks@)
        &&& in_range(free, nodes.len())
        &&& distinct(free)
        &&& disjoint(free, self.bids@)
        &&& disjoint(free, self.asks@)
        &&& unlinked_rest(nodes, self.bids@, self.asks@, free.push(k))
        &&& descending(self.bids@, nodes)
        &&& ascending(self.asks@, nodes)
    }

    proof fn lemma_free_pending_then_free(self, before: OrderBook, k: u32)
        requires
            before.wf_free_pending(k),
            self.nodes() == before.nodes(),
            self.free_slots() == before.free_slots().push(k),
            self.bids@ == before.bids@,
            self.asks@ == before.asks@,
            self.bids_head == before.bids_head,
            self.asks_head == before.asks_head,
        ensures
            self.wf(),
    {
        let free = before.free_slots();
        let nf = free.push(k);
        reveal(in_range);
        reveal(distinct);
        reveal(disjoint);
        assert forall|i: int| 0 <= i < nf.len() implies #[trigger] nf[i] < self.nodes().len() by {
            if i < free.len() {
                assert(nf[i] == free[i]);
            }
        }
        assert forall|i: int, j: int| 0 <= i < j < nf.len() implies #[trigger] nf[i]
            != #[trigger] nf[j] by {
            assert(nf[i] == free[i]);
            if j < free.len() {
                assert(nf[j] == free[j]);
            }
        }
        assert forall|i: int, j: int|
            0 <= i < nf.len() && 0 <= j < self.bids@.len() implies #[trigger] nf[i]
            != #[trigger] self.bids@[j] by {
            if i < free.len() {
                assert(nf[i] == free[i]);
            }
        }
        assert forall|i: int, j: int|
            0 <= i < nf.len() && 0 <= j < self.asks@.len() implies #[trigger] nf[i]
            != #[trigger] self.asks@[j] by {
            if i < free.len() {
                assert(nf[i] == free[i]);
            }
        }
    }

    /// Unlinking the node at position `p` of one side (the bids when
    /// `on_bids`) leaves a book that is well formed once that node is freed.
    #[verifier::spinoff_prover]
    proof fn lemma_remove_keeps_wf(self, old_book: OrderBook, p: int, on_bids: bool)
        requires
            old_book.wf(),
            self.nodes().len() == old_book.nodes().len(),
            self.free_slots() == old_book.free_slots(),
            forall|k: int|
                0 <= k < self.nodes().len() ==> (#[trigger] self.nodes()[k]).price == old_book.nodes()[k].price,
            on_bids ==> {
                &&& 0 <= p < old_book.bids@.len()
                &&& self.bids@ == old_book.bids@.remove(p)
                &&& self.asks@ == old_book.asks@
                &&& self.asks_head == old_book.asks_head
                &&& list_wf(self.bids@, self.nodes(), self.bids_head)
                &&& forall|k: int|
                    0 <= k < self.nodes().len() && absent(old_book.bids@, k as u32)
                        ==> #[trigger] self.nodes()[k] == old_book.nodes()[k]
            },
            !on_bids ==> {
                &&& 0 <= p < old_book.asks@.len()
                &&& self.asks@ == old_book.asks@.remove(p)
                &&& self.bids@ == old_book.bids@
                &&& self.bids_head == old_book.bids_head
                &&& list_wf(self.asks@, self.nodes(), self.asks_head)
                &&& forall|k: int|
                    0 <= k < self.nodes().len() && absent(old_book.asks@, k as u32)
                        ==> #[trigger] self.nodes()[k] == old_book.nodes()[k]
            },
        ensures
            self.wf_free_pending(if on_bids {
                old_book.bids@[p]
            } else {
                old_book.asks@[p]
            }),
    {
        let on = old_book.nodes();
        let nn = self.nodes();
        let ob = old_book.bids@;
        let oa = old_book.asks@;
        let free = self.free_slots();
        let (ins, other) = if on_bids {
            (ob, oa)
        } else {
            (oa, ob)
        };
        let x = ins[p];
        let nl = ins.remove(p);
        reveal(disjoint);
        reveal(in_range);
        reveal(distinct);
        lemma_remove_index(ins, p);
        assert forall|i: int| 0 <= i < other.len() implies nn[#[trigger] other[i] as int]
            == on[other[i] as int] by {
            assert(absent(ins, other[i]));
        }
        assert forall|i: int| 0 <= i < nl.len() implies #[trigger] nl[i] != x by {
            if i < p {
                assert(nl[i] == ins[i]);
            } else {
                assert(nl[i] == ins[i + 1]);
            }
        }
        assert(absent(other, x));
        assert forall|i: int| 0 <= i < free.len() implies #[trigger] free[i] != x by {
            assert(free[i] != ins[p]);
        }
        lemma_disjoint_sym(free, ob);
        lemma_disjoint_sym(free, oa);
        lemma_sorted_remove(ins, on, p);
        if on_bids {
            lemma_list_frame(oa, on, nn, self.asks_head);
            lemma_disjoint_remove(ob, oa, p);
            lemma_disjoint_remove(ob, free, p);
            lemma_order_frame(nl, on, nn);
            lemma_order_frame(oa, on, nn);
        } else {
            lemma_list_frame(ob, on, nn, self.bids_head);
            lemma_disjoint_remove(oa, ob, p);
            lemma_disjoint_sym(oa.remove(p), ob);
            lemma_disjoint_remove(oa, free, p);
            lemma_order_frame(nl, on, nn);
            lemma_order_frame(ob, on, nn);
        }
        reveal(unlinked_rest);
        let nf = free.push(x);
        assert forall|k: int|
            0 <= k < nn.len() && !self.bids@.contains(k as u32) && !self.asks@.contains(k as u32)
                && !nf.contains(k as u32) implies (#[trigger] nn[k]).next == SENTINEL
            && nn[k].prev == SENTINEL by {
            assert(nf[free.len() as int] == x);
            lemma_absent_contains(nl, k as u32);
            lemma_absent_contains(ob, k as u32);
            lemma_absent_contains(oa, k as u32);
            lemma_absent_contains(nf, k as u32);
            lemma_absent_contains(free, k as u32);
            if !absent(free, k as u32) {
                let j = choose|j: int| 0 <= j < free.len() && #[trigger] free[j] == k as u32;
                assert(nf[j] == free[j]);
            }
            if !absent(ins, k as u32) {
                let j = choose|j: int| 0 <= j < ins.len() && #[trigger] ins[j] == k as u32;
                if j < p {
                    assert(nl[j] == ins[j]);
                } else if j > p {
                    assert(nl[j - 1] == ins[j]);
                }
            }
            assert(nn[k] == on[k]);
        }
    }

    /// Takes slot `idx` out of whichever side holds it. A slot on no side
    /// has no links, and nothing changes.
    fn unlink(&mut self, idx: u32)
        requires
            old(self).wf(),
            idx < old(self).nodes().len(),
            absent(old(self).free_slots(), idx),
        ensures
            final(self).wf_free_pending(idx),
            final(self).bid_slots() == without(old(self).bid_slots(), idx),
            final(self).ask_slots() == without(old(self).ask_slots(), idx),
            final(self).free_slots() == old(self).free_slots(),
            orders_of(final(self).nodes()) == orders_of(old(self).nodes()),
    {
        let ghost nodes0 = self.arena.nodes();
        let ghost bids = self.bids@;
        let ghost asks = self.asks@;
        let prev = self.arena.get(idx).prev;
        let next = self.arena.get(idx).next;
        proof {
            lemma_absent_contains(bids, idx);
            lemma_absent_contains(asks, idx);
        }
        let ghost on_bids = bids.contains(idx);
        let ghost on_asks = asks.contains(idx);
        let ghost l = if on_bids {
            bids
        } else {
            asks
        };
        let ghost p: int = if on_bids {
            choose|p: int| 0 <= p < bids.len() && bids[p] == idx
        } else if on_asks {
            choose|p: int| 0 <= p < asks.len() && asks[p] == idx
        } else {
            0
        };
        proof {
            if on_bids {
                lemma_linked_at(bids, nodes0, old(self).bids_head, p);
                if asks.len() > 0 {
                    reveal(disjoint);
                    assert(bids[p] != asks[0]);
                }
            } else if on_asks {
                lemma_linked_at(asks, nodes0, old(self).asks_head, p);
                if bids.len() > 0 {
                    reveal(disjoint);
                    assert(bids[0] != asks[p]);
                }
            } else {
                lemma_absent_contains(old(self).free_slots(), idx);
                lemma_unlinked_at(nodes0, bids, asks, old(self).free_slots(), idx as int);
                lemma_unlinked_rest_push(nodes0, bids, asks, old(self).free_slots(), idx);
                if bids.len() > 0 {
                    assert(bids[0] != idx);
                }
                if asks.len() > 0 {
                    assert(asks[0] != idx);
                }
            }
        }
        if prev != SENTINEL {
            self.arena.get_mut(prev).next = next;
        } else {
            if self.bids_head == idx {
                self.bids_head = next;
            } else if self.asks_head == idx {
                self.asks_head = next;
            }
        }
        if next != SENTINEL {
            self.arena.get_mut(next).prev = prev;
        }
        proof {
            let nodes1 = self.arena.nodes();
            if on_bids || on_asks {
                lemma_link_remove(l, nodes0, nodes1, if on_bids { old(self).bids_head } else {
                    old(self).asks_head
                }, if on_bids { self.bids_head } else { self.asks_head }, p);
                assert forall|k: int|
                    0 <= k < nodes1.len() && absent(l, k as u32) implies #[trigger] nodes1[k]
                    == nodes0[k] by {
                    if p > 0 {
                        assert(l[p - 1] != k as u32);
                    }
                    if p + 1 < l.len() {
                        assert(l[p + 1] != k as u32);
                    }
                }
            }
        }
        proof {
            if on_bids {
                self.bids@ = bids.remove(p);
                self.lemma_remove_keeps_wf(*old(self), p, true);
                assert(without(bids, idx) == bids.remove(p));
            } else if on_asks {
                self.asks@ = asks.remove(p);
                self.lemma_remove_keeps_wf(*old(self), p, false);
                assert(without(asks, idx) == asks.remove(p));
            }
        }
        proof {
            let nodes1 = self.arena.nodes();
            assert(orders_of(nodes1) =~= orders_of(nodes0));
        }
    }
}

proof fn lemma_first_slot_stable(nodes: Seq<OrderNode>, order_id: u64, k: nat, m: nat)
    requires
        k < m,
        first_slot_with(nodes, order_id, k) == None::<nat>,
        nodes[k as int].order_id == order_id,
    ensures
        first_slot_with(nodes, order_id, m) == Some(k),
    decreases m,
{
    if m > k + 1 {
        lemma_first_slot_stable(nodes, order_id, k, (m - 1) as nat);
    }
}

impl OrderBook {
    /// The slot that a cancel of `order_id` acts on: the lowest slot whose
    /// node carries that id, whether or not it rests on a side.
    pub open spec fn cancel_target(&self, order_id: u64) -> Option<nat> {
        first_slot_with(self.nodes(), order_id, self.nodes().len())
    }

    /// After slot `idx` was taken off the free list or appended, with a
    /// node that has no links, the book is well formed and `idx` is on no
    /// list and not free.
    #[verifier::spinoff_prover]
    proof fn lemma_alloc_keeps_wf(self, old_book: OrderBook, idx: u32)
        requires
            old_book.wf(),
            self.bids@ == old_book.bids@,
            self.asks@ == old_book.asks@,
            self.bids_head == old_book.bids_head,
            self.asks_head == old_book.asks_head,
            self.nodes()[idx as int].next == SENTINEL,
            self.nodes()[idx as int].prev == SENTINEL,
            old_book.free_slots().len() > 0 ==> {
                &&& idx == old_book.free_slots().last()
                &&& self.free_slots() == old_book.free_slots().drop_last()
                &&& self.nodes().len() == old_book.nodes().len()
                &&& forall|k: int|
                    0 <= k < self.nodes().len() && k != idx ==> #[trigger] self.nodes()[k]
                        == old_book.nodes()[k]
            },
            old_book.free_slots().len() == 0 ==> {
                &&& idx == old_book.nodes().len()
                &&& self.free_slots() == old_book.free_slots()
                &&& self.nodes().len() == old_book.nodes().len() + 1
                &&& old_book.nodes().len() < SENTINEL
                &&& forall|k: int|
                    0 <= k < old_book.nodes().len() ==> #[trigger] self.nodes()[k]
                        == old_book.nodes()[k]
            },
        ensures
            self.wf(),
            idx < self.nodes().len(),
            absent(self.bids@, idx),
            absent(self.asks@, idx),
            absent(self.free_slots(), idx),
    {
        let on = old_book.nodes();
        let nn = self.nodes();
        let ob = old_book.bids@;
        let oa = old_book.asks@;
        let of = old_book.free_slots();
        let nf = self.free_slots();
        reveal(in_range);
        reveal(distinct);
        reveal(disjoint);
        assert forall|i: int| 0 <= i < ob.len() implies #[trigger] ob[i] != idx by {
            if of.len() > 0 {
                assert(of[of.len() - 1] != ob[i]);
            }
        }
        assert forall|i: int| 0 <= i < oa.len() implies #[trigger] oa[i] != idx by {
            if of.len() > 0 {
                assert(of[of.len() - 1] != oa[i]);
            }
        }
        assert forall|i: int| 0 <= i < nf.len() implies #[trigger] nf[i] != idx by {
            if of.len() > 0 {
                assert(nf[i] == of[i]);
                assert(of[i] != of[of.len() - 1]);
            }
        }
        assert forall|i: int| 0 <= i < ob.len() implies nn[#[trigger] ob[i] as int] == on[ob[i] as int] by {}
        assert forall|i: int| 0 <= i < oa.len() implies nn[#[trigger] oa[i] as int] == on[oa[i] as int] by {}
        lemma_list_frame(ob, on, nn, self.bids_head);
        lemma_list_frame(oa, on, nn, self.asks_head);
        if of.len() > 0 {
            lemma_disjoint_drop_last(of, ob);
            lemma_disjoint_drop_last(of, oa);
        }
        reveal(descending);
        reveal(ascending);
        assert forall|i: int, j: int| 0 <= i < j < ob.len() implies nn[#[trigger] ob[i] as int].price
            >= nn[#[trigger] ob[j] as int].price by {
            assert(on[ob[i] as int].price >= on[ob[j] as int].price);
        }
        assert forall|i: int, j: int| 0 <= i < j < oa.len() implies nn[#[trigger] oa[i] as int].price
            <= nn[#[trigger] oa[j] as int].price by {
            assert(on[oa[i] as int].price <= on[oa[j] as int].price);
        }
        reveal(unlinked_rest);
        assert forall|k: int|
            0 <= k < nn.len() && !ob.contains(k as u32) && !oa.contains(k as u32) && !nf.contains(
                k as u32,
            ) implies (#[trigger] nn[k]).next == SENTINEL && nn[k].prev == SENTINEL by {
            if k != idx {
                assert(nn[k] == on[k]);
                if of.contains(k as u32) {
                    let i = choose|i: int| 0 <= i < of.len() && of[i] == k as u32;
                    assert(i != of.len() - 1);
                    assert(nf[i] == of[i]);
                }
            }
        }
    }

    /// Adds a resting order. The node reuses the most recently freed slot,
    /// or a new one, and is linked in after every order on its side with a
    /// better price: ahead of the orders at the same price.
    pub fn add_order(&mut self, order_id: u64, is_buy: bool, price: u64, qty: u32)
        requires
            old(self).wf(),
            old(self).free_slots().len() > 0 || old(self).nodes().len() < SENTINEL,
        ensures
            final(self).wf(),
            old(self).adds(*final(self), order_id, is_buy, price, qty),
    {
        proof {
            if old(self).free_slots().len() > 0 {
                reveal(in_range);
                assert(old(self).free_slots()[old(self).free_slots().len() - 1] < old(self).nodes().len());
            }
        }
        let idx = self.arena.alloc_node(price, qty, order_id);
        proof {
            self.lemma_alloc_keeps_wf(*old(self), idx);
        }
        let ghost mid = *self;
        if is_buy {
            self.insert_bid(idx);
        } else {
            self.insert_ask(idx);
        }
        proof {
            let order = RestingOrder { order_id, price, qty };
            let on = old(self).nodes();
            let mn = mid.nodes();
            assert(orders_of(mn) =~= if old(self).free_slots().len() > 0 {
                orders_of(on).update(idx as int, order)
            } else {
                orders_of(on).push(order)
            });
            // slots on either side are unchanged in content
            reveal(in_range);
            assert forall|i: int| 0 <= i < old(self).bid_slots().len() implies mid.order_in(
                #[trigger] old(self).bid_slots()[i] as int) == old(self).order_in(
                old(self).bid_slots()[i] as int) by {
                assert(old(self).bid_slots()[i] != idx);
            }
            assert forall|i: int| 0 <= i < old(self).ask_slots().len() implies mid.order_in(
                #[trigger] old(self).ask_slots()[i] as int) == old(self).order_in(
                old(self).ask_slots()[i] as int) by {
                assert(old(self).ask_slots()[i] != idx);
            }
            assert(mid.bids() =~= old(self).bids());
            assert(mid.asks() =~= old(self).asks());
            assert(mid.nodes()[idx as int].price == price);
            let fb = self.bid_slots();
            let fa = self.ask_slots();
            assert forall|k: int| 0 <= k < self.nodes().len() implies self.order_in(k)
                == #[trigger] mid.order_in(k) by {
                assert(orders_of(self.nodes())[k] == orders_of(mid.nodes())[k]);
            }
            assert(orders_of(mn)[idx as int] == order);
            assert(mid.order_in(idx as int) == order);
            if is_buy {
                let r = bid_rank(old(self).bids(), price) as int;
                lemma_bid_rank_bound(old(self).bids(), price);
                lemma_insert_index(mid.bid_slots(), r, idx);
                let ob = old(self).bids();
                ob.insert_ensures(r, order);
                assert forall|i: int| 0 <= i < fb.len() implies #[trigger] self.bids()[i]
                    == ob.insert(r, order)[i] by {
                    assert(fb[i] < self.nodes().len());
                    if i < r {
                        assert(fb[i] == old(self).bid_slots()[i]);
                    } else if i > r {
                        assert(fb[i] == old(self).bid_slots()[i - 1]);
                        assert(ob.insert(r, order)[i] == ob[i - 1]);
                    }
                }
                assert(self.bids() =~= old(self).bids().insert(r, order));
                assert(self.asks() =~= old(self).asks());
            } else {
                let r = ask_rank(old(self).asks(), price) as int;
                lemma_ask_rank_bound(old(self).asks(), price);
                lemma_insert_index(mid.ask_slots(), r, idx);
                let oa = old(self).asks();
                oa.insert_ensures(r, order);
                assert forall|i: int| 0 <= i < fa.len() implies #[trigger] self.asks()[i]
                    == oa.insert(r, order)[i] by {
                    assert(fa[i] < self.nodes().len());
                    if i < r {
                        assert(fa[i] == old(self).ask_slots()[i]);
                    } else if i > r {
                        assert(fa[i] == old(self).ask_slots()[i - 1]);
                        assert(oa.insert(r, order)[i] == oa[i - 1]);
                    }
                }
                assert(self.asks() =~= old(self).asks().insert(r, order));
                assert(self.bids() =~= old(self).bids());
            }
        }
    }

    /// The slot that a cancel of `order_id` acts on, or [`SENTINEL`].
    fn find_slot(&self, order_id: u64) -> (r: u32)
        requires
            self.wf(),
        ensures
            match self.cancel_target(order_id) {
                None => r == SENTINEL,
                Some(k) => r == k && k < self.nodes().len(),
            },
    {
        let ghost nodes0 = self.arena.nodes();
        let n = self.arena.len();
        let mut i: usize = 0;
        while i < n
            invariant
                nodes0 == self.arena.nodes(),
                n == nodes0.len(),
                n <= SENTINEL,
                i <= n,
                first_slot_with(nodes0, order_id, i as nat) == None::<nat>,
            decreases n - i,
        {
            if self.arena.get(i as u32).order_id == order_id {
                proof {
                    lemma_first_slot_stable(nodes0, order_id, i as nat, n as nat);
                }
                return i as u32;
            }
            i = i + 1;
        }
        SENTINEL
    }

    /// Takes slot `k` off its side and frees it.
    fn remove_slot(&mut self, k: u32)
        requires
            old(self).wf(),
            k < old(self).nodes().len(),
            !old(self).free_slots().contains(k),
        ensures
            final(self).wf(),
            old(self).frees_slot(*final(self), k as nat),
    {
        proof {
            lemma_absent_contains(self.arena.free_slots(), k);
        }
        self.unlink(k);
        let ghost mid = *self;
        self.arena.free(k);
        proof {
            self.lemma_free_pending_then_free(mid, k);
        }
    }

    /// Cancels the order with id `order_id`: the lowest slot carrying that id
    /// is unlinked from its side and freed, and the call returns true. When
    /// no slot carries the id, or that slot is already free (the order was
    /// cancelled before), nothing changes and the call returns false: freeing
    /// the slot a second time would put it on the free list twice and hand
    /// it out to two orders.
    pub fn cancel_order(&mut self, order_id: u64) -> (r: bool)
        requires
            old(self).wf(),
        ensures
            final(self).wf(),
            old(self).cancels(*final(self), order_id, r),
    {
        let found = self.find_slot(order_id);
        if found == SENTINEL || self.arena.is_free(found) {
            return false;
        }
        self.remove_slot(found);
        true
    }

    /// Deletes the order with id `order_id`: the whole order leaves the book,
    /// as with [`OrderBook::cancel_order`].
    pub fn delete_order(&mut self, order_id: u64) -> (r: bool)
        requires
            old(self).wf(),
        ensures
            final(self).wf(),
            old(self).cancels(*final(self), order_id, r),
    {
        self.cancel_order(order_id)
    }

    /// Executes `shares` of the order with id `order_id`: its quantity drops
    /// by `shares`, and the order leaves the book when nothing remains.
    /// Returns false, changing nothing, when no live order carries the id
    /// (as [`OrderBook::cancel_order`]).
    pub fn execute_order(&mut self, order_id: u64, shares: u32) -> (r: bool)
        requires
            old(self).wf(),
        ensures
            final(self).wf(),
            old(self).executes(*final(self), order_id, shares, r),
    {
        let found = self.find_slot(order_id);
        if found == SENTINEL || self.arena.is_free(found) {
            return false;
        }
        let qty = self.arena.get(found).qty;
        if shares >= qty {
            self.remove_slot(found);
        } else {
            let ghost before = *self;
            self.arena.get_mut(found).qty = qty - shares;
            proof {
                self.lemma_same_links_keeps_wf(before);
                let o = before.order_in(found as int);
                assert(orders_of(self.nodes()) =~= orders_of(before.nodes()).update(
                    found as int,
                    RestingOrder { order_id: o.order_id, price: o.price, qty: (qty - shares) as u32 },
                ));
            }
        }
        true
    }
}

impl OrderBook {
    /// The two sides together hold no more orders than there are slots.
    proof fn lemma_sides_fit(self)
        requires
            self.wf(),
        ensures
            self.bid_slots().len() + self.ask_slots().len() <= self.nodes().len(),
    {
        let b = self.bids@;
        let a = self.asks@;
        let n = self.nodes().len();
        let ba = b + a;
        let s = ba.map_values(|x: u32| x as int);
        reveal(distinct);
        reveal(disjoint);
        reveal(in_range);
        assert forall|i: int, j: int| 0 <= i < s.len() && 0 <= j < s.len() && i != j implies s[i]
            != s[j] by {
            if i < b.len() && j < b.len() {
                if i < j {
                    assert(b[i] != b[j]);
                } else {
                    assert(b[j] != b[i]);
                }
            } else if i >= b.len() && j >= b.len() {
                let i2 = i - b.len();
                let j2 = j - b.len();
                if i2 < j2 {
                    assert(a[i2] != a[j2]);
                } else {
                    assert(a[j2] != a[i2]);
                }
            } else if i < b.len() {
                assert(b[i] != a[j - b.len()]);
            } else {
                assert(b[j] != a[i - b.len()]);
            }
        }
        assert(s.no_duplicates());
        s.unique_seq_to_set();
        assert forall|x: int| s.to_set().contains(x) implies set_int_range(0, n as int).contains(x) by {
            let i = choose|i: int| 0 <= i < s.len() && s[i] == x;
            if i < b.len() {
                assert(b[i] < n);
            } else {
                assert(a[i - b.len()] < n);
            }
        }
        lemma_int_range(0, n as int);
        lemma_len_subset(s.to_set(), set_int_range(0, n as int));
    }

    /// Number of orders resting in a side list that starts at `head`.
    fn count_side(&self, head: u32, Ghost(l): Ghost<Seq<u32>>) -> (r: usize)
        requires
            self.wf(),
            l == self.bids@ || l == self.asks@,
            head == if l == self.bids@ {
                self.bids_head
            } else {
                self.asks_head
            },
        ensures
            r == l.len(),
    {
        proof {
            self.lemma_sides_fit();
            lemma_list_facts(l, self.nodes(), head);
        }
        let mut c: usize = 0;
        let mut cur = head;
        while cur != SENTINEL
            invariant
                self.wf(),
                l.len() <= self.nodes().len() <= SENTINEL,
                forall|i: int| 0 <= i < l.len() ==> #[trigger] l[i] < self.nodes().len(),
                forall|i: int|
                    0 <= i < l.len() ==> (#[trigger] self.nodes()[l[i] as int]).next == if i + 1
                        < l.len() {
                        l[i + 1]
                    } else {
                        SENTINEL
                    },
                c <= l.len(),
                cur == if c < l.len() {
                    l[c as int]
                } else {
                    SENTINEL
                },
            decreases l.len() - c,
        {
            assert(l[c as int] < self.nodes().len());
            cur = self.arena.get(cur).next;
            c = c + 1;
        }
        c
    }

    /// Number of resting orders on both sides.
    pub fn order_count(&self) -> (r: usize)
        requires
            self.wf(),
        ensures
            r == self.bids().len() + self.asks().len(),
    {
        proof {
            self.lemma_sides_fit();
        }
        let nb = self.count_side(self.bids_head, Ghost(self.bids@));
        let na = self.count_side(self.asks_head, Ghost(self.asks@));
        nb + na
    }

    /// Best ask minus best bid, when both sides hold orders and the best
    /// ask is not below the best bid.
    pub fn spread(&self) -> (r: Option<u64>)
        requires
            self.wf(),
        ensures
            r == if self.bids().len() > 0 && self.asks().len() > 0 && self.asks()[0].price
                >= self.bids()[0].price {
                Some((self.asks()[0].price - self.bids()[0].price) as u64)
            } else {
                None
            },
    {
        match (self.best_bid(), self.best_ask()) {
            (Some(bid), Some(ask)) => if ask >= bid {
                Some(ask - bid)
            } else {
                None
            },
            _ => None,
        }
    }
}

impl OrderBook {
    /// An add can take a slot: one is free, or the arena can grow.
    pub open spec fn has_room(&self) -> bool {
        self.free_slots().len() > 0 || self.nodes().len() < SENTINEL
    }

    /// Whether an add can take a slot.
    pub fn can_add(&self) -> (r: bool)
        requires
            self.wf(),
        ensures
            r == self.has_room(),
    {
        self.arena.free_len() > 0 || self.arena.len() < SENTINEL as usize
    }
}

impl OrderBook {
    /// `after` is this book with the order `(order_id, price, qty)` added on
    /// the bid side when `is_buy`, else on the ask side: its node takes the
    /// most recently freed slot, or a new one, and it rests after every
    /// order on its side with a better price, ahead of those at its price.
    pub open spec fn adds(self, after: OrderBook, order_id: u64, is_buy: bool, price: u64, qty: u32) -> bool {
        let order = RestingOrder { order_id, price, qty };
        let reuse = self.free_slots().len() > 0;
        let slot = if reuse {
            self.free_slots().last()
        } else {
            self.nodes().len() as u32
        };
        &&& orders_of(after.nodes()) == if reuse {
            orders_of(self.nodes()).update(slot as int, order)
        } else {
            orders_of(self.nodes()).push(order)
        }
        &&& after.free_slots() == if reuse {
            self.free_slots().drop_last()
        } else {
            self.free_slots()
        }
        &&& if is_buy {
            &&& after.bid_slots() == self.bid_slots().insert(bid_rank(self.bids(), price) as int, slot)
            &&& after.ask_slots() == self.ask_slots()
            &&& after.bids() == self.bids().insert(bid_rank(self.bids(), price) as int, order)
            &&& after.asks() == self.asks()
        } else {
            &&& after.ask_slots() == self.ask_slots().insert(ask_rank(self.asks(), price) as int, slot)
            &&& after.bid_slots() == self.bid_slots()
            &&& after.asks() == self.asks().insert(ask_rank(self.asks(), price) as int, order)
            &&& after.bids() == self.bids()
        }
    }

    /// `after` holds the same orders in the same places as this book.
    pub open spec fn same_orders(self, after: OrderBook) -> bool {
        &&& orders_of(after.nodes()) == orders_of(self.nodes())
        &&& after.bid_slots() == self.bid_slots()
        &&& after.ask_slots() == self.ask_slots()
        &&& after.free_slots() == self.free_slots()
    }

    /// `after` is this book with slot `k` taken off its side and freed.
    pub open spec fn frees_slot(self, after: OrderBook, k: nat) -> bool {
        &&& orders_of(after.nodes()) == orders_of(self.nodes())
        &&& after.bid_slots() == without(self.bid_slots(), k as u32)
        &&& after.ask_slots() == without(self.ask_slots(), k as u32)
        &&& after.free_slots() == self.free_slots().push(k as u32)
    }

    /// A cancel, delete or execution of `order_id` acts: some slot carries
    /// the id, and the lowest such slot is not on the free list.
    pub open spec fn cancel_hits(self, order_id: u64) -> bool {
        self.cancel_target(order_id) matches Some(k) && !self.free_slots().contains(k as u32)
    }

    /// `after` is this book after a cancel of `order_id` that returned `r`.
    pub open spec fn cancels(self, after: OrderBook, order_id: u64, r: bool) -> bool {
        if self.cancel_hits(order_id) {
            r && self.frees_slot(after, self.cancel_target(order_id)->0)
        } else {
            !r && self.same_orders(after)
        }
    }

    /// `after` is this book after `shares` of `order_id` were executed, the
    /// call returning `r`.
    pub open spec fn executes(self, after: OrderBook, order_id: u64, shares: u32, r: bool) -> bool {
        if self.cancel_hits(order_id) {
            let k = self.cancel_target(order_id)->0;
            let o = self.order_in(k as int);
            &&& r
            &&& if shares >= o.qty {
                self.frees_slot(after, k)
            } else {
                &&& orders_of(after.nodes()) == orders_of(self.nodes()).update(
                    k as int,
                    RestingOrder { order_id: o.order_id, price: o.price, qty: (o.qty - shares) as u32 },
                )
                &&& after.bid_slots() == self.bid_slots()
                &&& after.ask_slots() == self.ask_slots()
                &&& after.free_slots() == self.free_slots()
            }
        } else {
            !r && self.same_orders(after)
        }
    }

    /// A book whose nodes keep their links and prices, with the same lists
    /// and free list, stays well formed.
    proof fn lemma_same_links_keeps_wf(self, before: OrderBook)
        requires
            before.wf(),
            self.nodes().len() == before.nodes().len(),
            forall|k: int|
                0 <= k < self.nodes().len() ==> (#[trigger] self.nodes()[k]).next == before.nodes()[k].next
                    && self.nodes()[k].prev == before.nodes()[k].prev && self.nodes()[k].price
                    == before.nodes()[k].price,
            self.bids@ == before.bids@,
            self.asks@ == before.asks@,
            self.bids_head == before.bids_head,
            self.asks_head == before.asks_head,
            self.free_slots() == before.free_slots(),
        ensures
            self.wf(),
    {
        let on = before.nodes();
        let nn = self.nodes();
        reveal(in_range);
        reveal(linked);
        reveal(unlinked_rest);
        lemma_order_frame(self.bids@, on, nn);
        lemma_order_frame(self.asks@, on, nn);
        assert forall|i: int| 0 <= i < self.bids@.len() implies {
            &&& nn[#[trigger] self.bids@[i] as int].next == on[self.bids@[i] as int].next
            &&& nn[self.bids@[i] as int].prev == on[self.bids@[i] as int].prev
        } by {
            assert(self.bids@[i] < on.len());
        }
        assert forall|i: int| 0 <= i < self.asks@.len() implies {
            &&& nn[#[trigger] self.asks@[i] as int].next == on[self.asks@[i] as int].next
            &&& nn[self.asks@[i] as int].prev == on[self.asks@[i] as int].prev
        } by {
            assert(self.asks@[i] < on.len());
        }
    }
}

proof fn lemma_first_slot_facts(nodes: Seq<OrderNode>, order_id: u64, n: nat)
    ensures
        first_slot_with(nodes, order_id, n) matches Some(k) ==> k < n && nodes[k as int].order_id
            == order_id,
        first_slot_with(nodes, order_id, n) == None::<nat> <==> forall|j: int|
            0 <= j < n ==> #[trigger] nodes[j].order_id != order_id,
    decreases n,
{
    if n > 0 {
        lemma_first_slot_facts(nodes, order_id, (n - 1) as nat);
    }
}

proof fn lemma_without_absent(l: Seq<u32>, k: u32)
    requires
        absent(l, k),
    ensures
        without(l, k) == l,
{
    lemma_absent_contains(l, k);
}

proof fn lemma_without_insert(l: Seq<u32>, p: int, k: u32)
    requires
        absent(l, k),
        0 <= p <= l.len(),
    ensures
        without(l.insert(p, k), k) == l,
{
    lemma_insert_index(l, p, k);
    let nl = l.insert(p, k);
    assert(nl[p] == k);
    assert(nl.contains(k));
    let q = choose|q: int| 0 <= q < nl.len() && nl[q] == k;
    if q < p {
        assert(nl[q] == l[q]);
    } else if q > p {
        assert(nl[q] == l[q - 1]);
    }
    lemma_remove_index(nl, p);
    assert(nl.remove(p) =~= l);
}

/// Bids run from the highest price down and asks from the lowest price up.
pub proof fn lemma_sides_ordered(book: OrderBook)
    requires
        book.wf(),
    ensures
        forall|i: int, j: int|
            0 <= i < j < book.bids().len() ==> #[trigger] book.bids()[i].price >= #[trigger] book.bids()[j].price,
        forall|i: int, j: int|
            0 <= i < j < book.asks().len() ==> #[trigger] book.asks()[i].price <= #[trigger] book.asks()[j].price,
{
    reveal(descending);
    reveal(ascending);
    let b = book.bid_slots();
    let a = book.ask_slots();
    let nodes = book.nodes();
    assert forall|i: int, j: int| 0 <= i < j < book.bids().len() implies #[trigger] book.bids()[i].price
        >= #[trigger] book.bids()[j].price by {
        assert(nodes[b[i] as int].price >= nodes[b[j] as int].price);
    }
    assert forall|i: int, j: int| 0 <= i < j < book.asks().len() implies #[trigger] book.asks()[i].price
        <= #[trigger] book.asks()[j].price by {
        assert(nodes[a[i] as int].price <= nodes[a[j] as int].price);
    }
}

/// Adding an order under an id that no slot carries, then cancelling that
/// id, takes the order out again: both sides rest as before, and so does
/// the free list when the add reused a freed slot.
pub proof fn lemma_cancel_undoes_add(
    b0: OrderBook,
    b1: OrderBook,
    b2: OrderBook,
    order_id: u64,
    is_buy: bool,
    price: u64,
    qty: u32,
    r: bool,
)
    requires
        b0.wf(),
        b0.cancel_target(order_id) == None::<nat>,
        b0.adds(b1, order_id, is_buy, price, qty),
        b1.wf(),
        b1.cancels(b2, order_id, r),
    ensures
        r,
        b2.bids() == b0.bids(),
        b2.asks() == b0.asks(),
        b0.free_slots().len() > 0 ==> b2.free_slots() == b0.free_slots(),
{
    let n0 = b0.nodes();
    let n1 = b1.nodes();
    let n2 = b2.nodes();
    let f0 = b0.free_slots();
    let reuse = f0.len() > 0;
    let s: u32 = if reuse {
        f0.last()
    } else {
        n0.len() as u32
    };
    let order = RestingOrder { order_id, price, qty };
    reveal(in_range);
    reveal(disjoint);
    lemma_first_slot_facts(n0, order_id, n0.len());
    assert(orders_of(n1).len() == n1.len());
    assert(orders_of(n0).len() == n0.len());
    if reuse {
        assert(f0[f0.len() - 1] < n0.len());
    }
    assert(s < n1.len());
    // the new slot is the only one that carries the id
    assert forall|j: int| 0 <= j < n1.len() && j != s implies #[trigger] n1[j].order_id != order_id by {
        assert(orders_of(n1)[j] == orders_of(n0)[j]);
    }
    assert(orders_of(n1)[s as int] == order);
    assert(n1[s as int].order_id == order_id);
    lemma_first_slot_facts(n1, order_id, s as nat);
    lemma_first_slot_stable(n1, order_id, s as nat, n1.len());
    assert(b1.cancel_target(order_id) == Some(s as nat));
    // the new slot rested on neither side before
    let bs = b0.bid_slots();
    let as_ = b0.ask_slots();
    assert forall|i: int| 0 <= i < bs.len() implies #[trigger] bs[i] != s by {
        if reuse {
            assert(f0[f0.len() - 1] != bs[i]);
        }
    }
    assert forall|i: int| 0 <= i < as_.len() implies #[trigger] as_[i] != s by {
        if reuse {
            assert(f0[f0.len() - 1] != as_[i]);
        }
    }
    if is_buy {
        lemma_bid_rank_bound(b0.bids(), price);
        lemma_without_insert(bs, bid_rank(b0.bids(), price) as int, s);
        lemma_without_absent(as_, s);
    } else {
        lemma_ask_rank_bound(b0.asks(), price);
        lemma_without_insert(as_, ask_rank(b0.asks(), price) as int, s);
        lemma_without_absent(bs, s);
    }
    assert(b2.bid_slots() == bs);
    assert(b2.ask_slots() == as_);
    // the orders on those slots are untouched
    assert(orders_of(n2).len() == n2.len());
    assert forall|i: int| 0 <= i < bs.len() implies #[trigger] b2.bids()[i] == b0.bids()[i] by {
        let e = bs[i] as int;
        assert(e < n0.len());
        assert(orders_of(n2)[e] == orders_of(n1)[e]);
        assert(orders_of(n1)[e] == orders_of(n0)[e]);
    }
    assert forall|i: int| 0 <= i < as_.len() implies #[trigger] b2.asks()[i] == b0.asks()[i] by {
        let e = as_[i] as int;
        assert(e < n0.len());
        assert(orders_of(n2)[e] == orders_of(n1)[e]);
        assert(orders_of(n1)[e] == orders_of(n0)[e]);
    }
    assert(b2.bids() =~= b0.bids());
    assert(b2.asks() =~= b0.asks());
    if reuse {
        assert(f0.drop_last().push(f0.last()) =~= f0);
    }
}

/// Executing at least the resting quantity of an order takes it off the
/// book exactly as a cancel of its id does.
pub proof fn lemma_full_execution_is_cancel(b0: OrderBook, b1: OrderBook, order_id: u64, shares: u32, r: bool)
    requires
        b0.executes(b1, order_id, shares, r),
        b0.cancel_target(order_id) matches Some(k) ==> shares >= b0.order_in(k as int).qty,
    ensures
        b0.cancels(b1, order_id, r),
{
}

/// One call on a book: an add of an order, or a cancel of an id.
pub enum BookCall {
    Add { order_id: u64, is_buy: bool, price: u64, qty: u32 },
    Cancel { order_id: u64 },
}

/// The ids that `calls` added and did not cancel afterwards.
pub open spec fn live_ids(calls: Seq<BookCall>) -> Set<u64>
    decreases calls.len(),
{
    if calls.len() == 0 {
        Set::empty()
    } else {
        let before = live_ids(calls.drop_last());
        match calls.last() {
            BookCall::Add { order_id, .. } => before.insert(order_id),
            BookCall::Cancel { order_id } => before.remove(order_id),
        }
    }
}

/// The ids that `calls` added.
pub open spec fn added_ids(calls: Seq<BookCall>) -> Set<u64>
    decreases calls.len(),
{
    if calls.len() == 0 {
        Set::empty()
    } else {
        let before = added_ids(calls.drop_last());
        match calls.last() {
            BookCall::Add { order_id, .. } => before.insert(order_id),
            BookCall::Cancel { .. } => before,
        }
    }
}

/// No add of `calls` uses an id that an earlier call added.
pub open spec fn adds_distinct(calls: Seq<BookCall>) -> bool {
    forall|i: int|
        0 <= i < calls.len() ==> (#[trigger] calls[i] matches BookCall::Add { order_id, .. } ==> !added_ids(
            calls.take(i),
        ).contains(order_id))
}

impl OrderBook {
    /// `after` is this book after `call`; `r` is what a cancel returned.
    pub open spec fn performs(self, after: OrderBook, call: BookCall, r: bool) -> bool {
        match call {
            BookCall::Add { order_id, is_buy, price, qty } => self.adds(after, order_id, is_buy, price, qty),
            BookCall::Cancel { order_id } => self.cancels(after, order_id, r),
        }
    }

    /// An order with id `order_id` rests on one of the sides.
    pub open spec fn rests(self, order_id: u64) -> bool {
        ||| exists|i: int| 0 <= i < self.bids().len() && #[trigger] self.bids()[i].order_id == order_id
        ||| exists|i: int| 0 <= i < self.asks().len() && #[trigger] self.asks()[i].order_id == order_id
    }

    /// Slot `k` rests on one of the sides.
    spec fn on_side(self, k: u32) -> bool {
        self.bid_slots().contains(k) || self.ask_slots().contains(k)
    }

    /// The id carried by slot `k`.
    spec fn id_at(self, k: u32) -> u64 {
        self.order_in(k as int).order_id
    }

    /// What adds with fresh ids and cancels keep of a fresh book: the free
    /// list is the never used slots `m` and up, followed by the recycled
    /// slots `rec`, all below `m`; below `m` each slot rests or is free;
    /// resting slots carry distinct live ids, one slot for each live id;
    /// free slots carry ids that were added and are no longer live.
    #[verifier::opaque]
    spec fn history_inv(self, live: Set<u64>, added: Set<u64>, m: nat, rec: Seq<u32>) -> bool {
        &&& self.wf()
        &&& m <= self.nodes().len()
        &&& self.free_slots() == unused_slots(self.nodes().len(), m) + rec
        &&& forall|i: int| 0 <= i < rec.len() ==> #[trigger] rec[i] < m
        &&& live.subset_of(added)
        &&& forall|k: u32|
            #![trigger self.on_side(k)]
            #![trigger self.free_slots().contains(k)]
            k < m ==> self.on_side(k) || self.free_slots().contains(k)
        &&& forall|k: u32| k < m && #[trigger] self.on_side(k) ==> live.contains(self.id_at(k))
        &&& forall|k: u32|
            k < m && #[trigger] self.free_slots().contains(k) ==> added.contains(self.id_at(k)) && !live.contains(
                self.id_at(k),
            )
        &&& forall|k: u32, j: u32|
            k < m && j < m && k != j && #[trigger] self.on_side(k) && #[trigger] self.on_side(j) ==> self.id_at(k)
                != self.id_at(j)
        &&& forall|id: u64| #[trigger]
            live.contains(id) ==> exists|k: u32| k < m && #[trigger] self.on_side(k) && self.id_at(k) == id
    }

    /// A resting slot lies below `m`, exists, and is not free.
    proof fn lemma_side_below(self, live: Set<u64>, added: Set<u64>, m: nat, rec: Seq<u32>, k: u32)
        requires
            self.history_inv(live, added, m, rec),
            self.on_side(k),
        ensures
            k < m,
            k < self.nodes().len(),
            !self.free_slots().contains(k),
    {
        reveal(OrderBook::history_inv);
        reveal(in_range);
        reveal(disjoint);
        let f = self.free_slots();
        if self.bid_slots().contains(k) {
            let i = choose|i: int| 0 <= i < self.bid_slots().len() && self.bid_slots()[i] == k;
            assert(self.bids@[i] == k);
        } else {
            let i = choose|i: int| 0 <= i < self.ask_slots().len() && self.ask_slots()[i] == k;
            assert(self.asks@[i] == k);
        }
        if f.contains(k) {
            let j = choose|j: int| 0 <= j < f.len() && f[j] == k;
            assert(self.arena.free_slots()[j] == k);
        }
        if k >= m {
            lemma_unused_contains(self.nodes().len(), m, k);
            let u = unused_slots(self.nodes().len(), m);
            let q = (self.nodes().len() - 1 - k) as int;
            assert(f[q] == u[q]);
        }
    }
}

impl OrderBook {
    /// Under the history invariant a cancel of `id` acts exactly when `id`
    /// is live, and then on the resting slot that carries it.
    proof fn lemma_hits_live(self, live: Set<u64>, added: Set<u64>, m: nat, rec: Seq<u32>, id: u64)
        requires
            self.history_inv(live, added, m, rec),
        ensures
            self.cancel_hits(id) <==> live.contains(id),
            live.contains(id) ==> (self.cancel_target(id) matches Some(k) && k < m && self.on_side(k as u32)
                && self.id_at(k as u32) == id),
    {
        reveal(OrderBook::history_inv);
        let nodes = self.nodes();
        let len = nodes.len();
        if live.contains(id) {
            let k = choose|k: u32| k < m && #[trigger] self.on_side(k) && self.id_at(k) == id;
            self.lemma_side_below(live, added, m, rec, k);
            assert forall|j: int| 0 <= j < k implies #[trigger] nodes[j].order_id != id by {
                let ju = j as u32;
                assert(ju as int == j);
                assert(self.on_side(ju) || self.free_slots().contains(ju));
                if self.on_side(ju) {
                    assert(self.id_at(ju) != self.id_at(k));
                } else {
                    assert(!live.contains(self.id_at(ju)));
                }
            }
            lemma_first_slot_facts(nodes, id, k as nat);
            assert(nodes[k as int].order_id == id);
            lemma_first_slot_stable(nodes, id, k as nat, len);
            assert(self.cancel_target(id) == Some(k as nat));
        } else if self.cancel_hits(id) {
            let k = self.cancel_target(id)->0;
            lemma_first_slot_facts(nodes, id, len);
            let ku = k as u32;
            assert(ku as int == k);
            if k >= m {
                lemma_unused_contains(len, m, ku);
                let q = (len - 1 - ku) as int;
                assert(self.free_slots()[q] == unused_slots(len, m)[q]);
                assert(self.free_slots().contains(ku));
            }
            assert(self.on_side(ku) || self.free_slots().contains(ku));
            assert(self.id_at(ku) == id);
        }
    }

    /// Under the history invariant the ids resting on the book are the
    /// live ids.
    proof fn lemma_rests_live(self, live: Set<u64>, added: Set<u64>, m: nat, rec: Seq<u32>, id: u64)
        requires
            self.history_inv(live, added, m, rec),
        ensures
            self.rests(id) <==> live.contains(id),
    {
        reveal(OrderBook::history_inv);
        let bs = self.bid_slots();
        let as_ = self.ask_slots();
        if self.rests(id) {
            if exists|i: int| 0 <= i < self.bids().len() && #[trigger] self.bids()[i].order_id == id {
                let i = choose|i: int| 0 <= i < self.bids().len() && #[trigger] self.bids()[i].order_id == id;
                let k = bs[i];
                assert(bs.contains(k));
                assert(self.on_side(k));
                self.lemma_side_below(live, added, m, rec, k);
                assert(self.id_at(k) == id);
            } else {
                let i = choose|i: int| 0 <= i < self.asks().len() && #[trigger] self.asks()[i].order_id == id;
                let k = as_[i];
                assert(as_.contains(k));
                assert(self.on_side(k));
                self.lemma_side_below(live, added, m, rec, k);
                assert(self.id_at(k) == id);
            }
        }
        if live.contains(id) {
            let k = choose|k: u32| k < m && #[trigger] self.on_side(k) && self.id_at(k) == id;
            if bs.contains(k) {
                let i = choose|i: int| 0 <= i < bs.len() && bs[i] == k;
                assert(self.bids()[i].order_id == id);
            } else {
                let i = choose|i: int| 0 <= i < as_.len() && as_[i] == k;
                assert(self.asks()[i].order_id == id);
            }
        }
    }
}

impl OrderBook {
    /// A cancel keeps the history invariant with its id no longer live, and
    /// returns whether that id was live.
    #[verifier::spinoff_prover]
    proof fn lemma_cancel_step(
        self,
        after: OrderBook,
        id: u64,
        r: bool,
        live: Set<u64>,
        added: Set<u64>,
        m: nat,
        rec: Seq<u32>,
    ) -> (res: Seq<u32>)
        requires
            self.history_inv(live, added, m, rec),
            after.wf(),
            self.cancels(after, id, r),
        ensures
            r == live.contains(id),
            after.history_inv(live.remove(id), added, m, res),
    {
        reveal(OrderBook::history_inv);
        self.lemma_hits_live(live, added, m, rec, id);
        let live1 = live.remove(id);
        let len = self.nodes().len();
        assert(orders_of(self.nodes()).len() == len);
        assert(orders_of(after.nodes()).len() == after.nodes().len());
        assert(after.nodes().len() == len);
        assert forall|j: u32| j < len implies #[trigger] after.id_at(j) == self.id_at(j) by {
            assert(orders_of(after.nodes())[j as int] == orders_of(self.nodes())[j as int]);
        }
        if live.contains(id) {
            let k = self.cancel_target(id)->0;
            let ku = k as u32;
            assert(ku as int == k);
            let rec1 = rec.push(ku);
            assert(after.free_slots() =~= unused_slots(len, m) + rec1);
            assert forall|y: u32| #[trigger] after.on_side(y) <==> self.on_side(y) && y != ku by {
                lemma_contains_without(self.bid_slots(), ku, y);
                lemma_contains_without(self.ask_slots(), ku, y);
            }
            assert forall|y: u32| #[trigger] after.free_slots().contains(y) <==> self.free_slots().contains(y)
                || y == ku by {
                let f = self.free_slots();
                if f.push(ku).contains(y) && y != ku {
                    let q = choose|q: int| 0 <= q < f.push(ku).len() && f.push(ku)[q] == y;
                    assert(f[q] == y);
                }
                if f.contains(y) {
                    let q = choose|q: int| 0 <= q < f.len() && f[q] == y;
                    assert(f.push(ku)[q] == y);
                }
                assert(f.push(ku)[f.len() as int] == ku);
            }
            assert forall|i: int| 0 <= i < rec1.len() implies #[trigger] rec1[i] < m by {
                if i < rec.len() {
                    assert(rec1[i] == rec[i]);
                }
            }
            assert forall|j: u32| j < m && #[trigger] after.on_side(j) implies live1.contains(after.id_at(j)) by {
                self.lemma_side_below(live, added, m, rec, j);
                assert(self.id_at(j) != self.id_at(ku));
            }
            assert forall|j: u32| j < m && #[trigger] after.free_slots().contains(j) implies added.contains(
                after.id_at(j),
            ) && !live1.contains(after.id_at(j)) by {
                if j != ku {
                    assert(self.free_slots().contains(j));
                }
            }
            assert forall|x: u64| #[trigger] live1.contains(x) implies exists|j: u32|
                j < m && #[trigger] after.on_side(j) && after.id_at(j) == x by {
                let j = choose|j: u32| j < m && #[trigger] self.on_side(j) && self.id_at(j) == x;
                self.lemma_side_below(live, added, m, rec, j);
                assert(after.on_side(j));
            }
            assert forall|j: u32|
                #![trigger after.on_side(j)]
                #![trigger after.free_slots().contains(j)]
                j < m implies after.on_side(j) || after.free_slots().contains(j) by {
                assert(self.on_side(j) || self.free_slots().contains(j));
            }
            rec1
        } else {
            assert(live1 =~= live);
            assert forall|y: u32| #[trigger] after.on_side(y) <==> self.on_side(y) by {}
            assert forall|x: u64| #[trigger] live1.contains(x) implies exists|j: u32|
                j < m && #[trigger] after.on_side(j) && after.id_at(j) == x by {
                let j = choose|j: u32| j < m && #[trigger] self.on_side(j) && self.id_at(j) == x;
                self.lemma_side_below(live, added, m, rec, j);
                assert(after.on_side(j));
            }
            assert forall|j: u32| j < m && #[trigger] after.on_side(j) implies live1.contains(after.id_at(j)) by {
                self.lemma_side_below(live, added, m, rec, j);
            }
            assert forall|j: u32| j < m && #[trigger] after.free_slots().contains(j) implies added.contains(
                after.id_at(j),
            ) && !live1.contains(after.id_at(j)) by {
                assert(self.free_slots().contains(j));
            }
            assert forall|k: u32, j: u32|
                k < m && j < m && k != j && #[trigger] after.on_side(k) && #[trigger] after.on_side(j) implies after.id_at(
                k,
            ) != after.id_at(j) by {
                self.lemma_side_below(live, added, m, rec, j);
                self.lemma_side_below(live, added, m, rec, k);
                assert(self.id_at(k) != self.id_at(j));
            }
            rec
        }
    }
}

impl OrderBook {
    /// An add under an id never added before keeps the history invariant
    /// with that id added and live.
    #[verifier::spinoff_prover]
    proof fn lemma_add_step(
        self,
        after: OrderBook,
        id: u64,
        is_buy: bool,
        price: u64,
        qty: u32,
        live: Set<u64>,
        added: Set<u64>,
        m: nat,
        rec: Seq<u32>,
    ) -> (res: (nat, Seq<u32>))
        requires
            self.history_inv(live, added, m, rec),
            after.wf(),
            self.adds(after, id, is_buy, price, qty),
            !added.contains(id),
        ensures
            after.history_inv(live.insert(id), added.insert(id), res.0, res.1),
    {
        reveal(OrderBook::history_inv);
        reveal(in_range);
        let n0 = self.nodes();
        let len0 = n0.len();
        let f0 = self.free_slots();
        let u = unused_slots(len0, m);
        let live1 = live.insert(id);
        let added1 = added.insert(id);
        let order = RestingOrder { order_id: id, price, qty };
        assert(orders_of(n0).len() == len0);
        assert(orders_of(after.nodes()).len() == after.nodes().len());
        let reuse = f0.len() > 0;
        if reuse {
            assert(f0[f0.len() - 1] < len0);
        }
        let slot: u32 = if reuse {
            f0.last()
        } else {
            len0 as u32
        };
        assert(slot < after.nodes().len());
        assert forall|j: u32| j < len0 && j != slot implies #[trigger] after.id_at(j) == self.id_at(j) by {
            assert(orders_of(after.nodes())[j as int] == orders_of(n0)[j as int]);
        }
        assert(orders_of(after.nodes())[slot as int] == order);
        assert(after.id_at(slot) == id);
        if is_buy {
            lemma_bid_rank_bound(self.bids(), price);
        } else {
            lemma_ask_rank_bound(self.asks(), price);
        }
        assert forall|y: u32| #[trigger] after.on_side(y) <==> self.on_side(y) || y == slot by {
            if is_buy {
                lemma_contains_insert(self.bid_slots(), bid_rank(self.bids(), price) as int, slot, y);
            } else {
                lemma_contains_insert(self.ask_slots(), ask_rank(self.asks(), price) as int, slot, y);
            }
        }
        assert forall|y: u32| #[trigger] after.free_slots().contains(y) <==> self.free_slots().contains(y) && y
            != slot by {
            if reuse {
                lemma_contains_drop_last(f0, y);
            }
        }
        if self.on_side(slot) {
            self.lemma_side_below(live, added, m, rec, slot);
            if reuse {
                assert(f0[f0.len() - 1] == slot);
            }
        }
        assert(!self.on_side(slot));
        let res: (nat, Seq<u32>) = if reuse {
            if rec.len() > 0 {
                assert(f0.last() == rec.last());
                assert(f0.drop_last() =~= u + rec.drop_last());
                assert(rec[rec.len() - 1] < m);
                (m, rec.drop_last())
            } else {
                assert(f0 =~= u);
                lemma_fresh_allocation(len0, m);
                assert(f0.drop_last() =~= unused_slots(len0, m + 1) + rec);
                (m + 1, rec)
            }
        } else {
            assert(u.len() == len0 - m);
            assert(rec.len() == 0);
            assert(after.free_slots() =~= unused_slots(len0 + 1, m + 1) + rec);
            (m + 1, rec)
        };
        let m1 = res.0;
        let rec1 = res.1;
        assert(slot < m1);
        assert(after.free_slots() == unused_slots(after.nodes().len(), m1) + rec1);
        assert forall|i: int| 0 <= i < rec1.len() implies #[trigger] rec1[i] < m1 by {
            assert(rec1[i] == rec[i]);
        }
        assert forall|k: u32|
            #![trigger after.on_side(k)]
            #![trigger after.free_slots().contains(k)]
            k < m1 implies after.on_side(k) || after.free_slots().contains(k) by {
            if k != slot {
                assert(self.on_side(k) || self.free_slots().contains(k));
            }
        }
        assert forall|k: u32| k < m1 && #[trigger] after.on_side(k) implies live1.contains(after.id_at(k)) by {
            if k != slot {
                assert(self.on_side(k));
                assert(live.contains(self.id_at(k)));
            }
        }
        assert forall|k: u32| k < m1 && #[trigger] after.free_slots().contains(k) implies added1.contains(
            after.id_at(k),
        ) && !live1.contains(after.id_at(k)) by {
            assert(self.free_slots().contains(k));
            assert(added.contains(self.id_at(k)));
        }
        assert forall|k: u32, j: u32|
            k < m1 && j < m1 && k != j && #[trigger] after.on_side(k) && #[trigger] after.on_side(j) implies after.id_at(
                k,
            ) != after.id_at(j) by {
            if k == slot {
                assert(self.on_side(j));
                assert(live.contains(self.id_at(j)));
            } else if j == slot {
                assert(self.on_side(k));
                assert(live.contains(self.id_at(k)));
            } else {
                assert(self.on_side(k) && self.on_side(j));
                assert(self.id_at(k) != self.id_at(j));
            }
        }
        assert forall|x: u64| #[trigger] live1.contains(x) implies exists|j: u32|
            j < m1 && #[trigger] after.on_side(j) && after.id_at(j) == x by {
            if x == id {
                assert(after.on_side(slot));
            } else {
                let j = choose|j: u32| j < m && #[trigger] self.on_side(j) && self.id_at(j) == x;
                self.lemma_side_below(live, added, m, rec, j);
                assert(after.on_side(j));
            }
        }
        res
    }
}

/// From a fresh book, the history invariant holds after the whole run, and
/// every cancel of the run returned whether its id was live.
/// One call of a run keeps the history invariant, with the live and added
/// ids updated by the call, and a cancel returns whether its id was live.
proof fn lemma_history_step(
    b0: OrderBook,
    b1: OrderBook,
    call: BookCall,
    r: bool,
    live: Set<u64>,
    added: Set<u64>,
    m: nat,
    rec: Seq<u32>,
) -> (res: (nat, Seq<u32>))
    requires
        b0.history_inv(live, added, m, rec),
        b1.wf(),
        b0.performs(b1, call, r),
        call matches BookCall::Add { order_id, .. } ==> !added.contains(order_id),
    ensures
        match call {
            BookCall::Add { order_id, .. } => b1.history_inv(live.insert(order_id), added.insert(order_id), res.0, res.1),
            BookCall::Cancel { order_id } => r == live.contains(order_id) && b1.history_inv(
                live.remove(order_id),
                added,
                res.0,
                res.1,
            ),
        },
{
    match call {
        BookCall::Add { order_id, is_buy, price, qty } => {
            b0.lemma_add_step(b1, order_id, is_buy, price, qty, live, added, m, rec)
        },
        BookCall::Cancel { order_id } => {
            let rec1 = b0.lemma_cancel_step(b1, order_id, r, live, added, m, rec);
            (m, rec1)
        },
    }
}

#[verifier::spinoff_prover]
#[verifier::rlimit(40)]
proof fn lemma_history_inv(books: Seq<OrderBook>, calls: Seq<BookCall>, results: Seq<bool>) -> (res: (
    nat,
    Seq<u32>,
))
    requires
        books.len() == calls.len() + 1,
        results.len() == calls.len(),
        books[0].bids() == Seq::<RestingOrder>::empty(),
        books[0].asks() == Seq::<RestingOrder>::empty(),
        books[0].free_slots() == unused_slots(books[0].nodes().len(), 0),
        forall|i: int| 0 <= i < books.len() ==> #[trigger] books[i].wf(),
        forall|i: int| 0 <= i < calls.len() ==> #[trigger] books[i].performs(books[i + 1], calls[i], results[i]),
        adds_distinct(calls),
    ensures
        books.last().history_inv(live_ids(calls), added_ids(calls), res.0, res.1),
        forall|i: int|
            0 <= i < calls.len() ==> (#[trigger] calls[i] matches BookCall::Cancel { order_id } ==> results[i]
                == live_ids(calls.take(i)).contains(order_id)),
    decreases calls.len(),
{
    if calls.len() == 0 {
        reveal(OrderBook::history_inv);
        let b = books[0];
        assert(books[0].wf());
        assert(b.bid_slots().len() == b.bids().len());
        assert(b.ask_slots().len() == b.asks().len());
        assert(b.free_slots() =~= unused_slots(b.nodes().len(), 0) + Seq::<u32>::empty());
        assert(live_ids(calls) == Set::<u64>::empty());
        assert(added_ids(calls) == Set::<u64>::empty());
        (0, Seq::<u32>::empty())
    } else {
        let n = calls.len() - 1;
        let b2 = books.drop_last();
        let c2 = calls.drop_last();
        let r2 = results.drop_last();
        assert forall|i: int| 0 <= i < b2.len() implies #[trigger] b2[i].wf() by {
            assert(b2[i] == books[i]);
            assert(books[i].wf());
        }
        assert forall|i: int| 0 <= i < c2.len() implies #[trigger] b2[i].performs(b2[i + 1], c2[i], r2[i]) by {
            assert(books[i].performs(books[i + 1], calls[i], results[i]));
        }
        assert forall|i: int|
            0 <= i < c2.len() implies (#[trigger] c2[i] matches BookCall::Add { order_id, .. } ==> !added_ids(
                c2.take(i),
            ).contains(order_id)) by {
            assert(c2[i] == calls[i]);
            assert(c2.take(i) =~= calls.take(i));
        }
        let prev = lemma_history_inv(b2, c2, r2);
        assert(c2.len() == n);
        let b0 = books[n];
        let b1 = books[n + 1];
        assert(b2.last() == b0);
        assert(calls.take(n) =~= c2);
        assert(calls.drop_last() == c2);
        assert(b0.performs(b1, calls[n], results[n]));
        assert(b1.wf());
        assert(books.last() == b1);
        let res = lemma_history_step(
            b0,
            b1,
            calls[n],
            results[n],
            live_ids(c2),
            added_ids(c2),
            prev.0,
            prev.1,
        );
        assert forall|i: int|
            0 <= i < calls.len() implies (#[trigger] calls[i] matches BookCall::Cancel { order_id } ==> results[i]
                == live_ids(calls.take(i)).contains(order_id)) by {
            if i < n {
                assert(c2[i] == calls[i]);
                assert(r2[i] == results[i]);
                assert(c2.take(i) =~= calls.take(i));
            }
        }
        res
    }
}

/// From a fresh book (as [`OrderBook::new`] makes one), over any run of
/// adds that never reuse an id, mixed with cancels, each cancel returns
/// true exactly when its id was added and not cancelled since, and after
/// every call the ids resting on the book are exactly those added and not
/// cancelled.
#[verifier::spinoff_prover]
#[verifier::rlimit(40)]
pub proof fn lemma_cancel_history(books: Seq<OrderBook>, calls: Seq<BookCall>, results: Seq<bool>)
    requires
        books.len() == calls.len() + 1,
        results.len() == calls.len(),
        books[0].bids() == Seq::<RestingOrder>::empty(),
        books[0].asks() == Seq::<RestingOrder>::empty(),
        books[0].free_slots() == unused_slots(books[0].nodes().len(), 0),
        forall|i: int| 0 <= i < books.len() ==> #[trigger] books[i].wf(),
        forall|i: int| 0 <= i < calls.len() ==> #[trigger] books[i].performs(books[i + 1], calls[i], results[i]),
        adds_distinct(calls),
    ensures
        forall|i: int|
            0 <= i < calls.len() ==> (#[trigger] calls[i] matches BookCall::Cancel { order_id } ==> results[i]
                == live_ids(calls.take(i)).contains(order_id)),
        forall|i: int, id: u64|
            0 <= i < books.len() ==> (#[trigger] books[i].rests(id) <==> live_ids(calls.take(i)).contains(id)),
{
    lemma_history_inv(books, calls, results);
    assert forall|i: int, id: u64| 0 <= i < books.len() implies (#[trigger] books[i].rests(id)
        <==> live_ids(calls.take(i)).contains(id)) by {
        let bs = books.take(i + 1);
        let cs = calls.take(i);
        let rs = results.take(i);
        assert forall|j: int| 0 <= j < bs.len() implies #[trigger] bs[j].wf() by {
            assert(bs[j] == books[j]);
            assert(books[j].wf());
        }
        assert forall|j: int| 0 <= j < cs.len() implies #[trigger] bs[j].performs(bs[j + 1], cs[j], rs[j]) by {
            assert(books[j].performs(books[j + 1], calls[j], results[j]));
        }
        assert forall|j: int|
            0 <= j < cs.len() implies (#[trigger] cs[j] matches BookCall::Add { order_id, .. } ==> !added_ids(
                cs.take(j),
            ).contains(order_id)) by {
            assert(cs[j] == calls[j]);
            assert(cs.take(j) =~= calls.take(j));
        }
        assert(bs[0] == books[0]);
        let res = lemma_history_inv(bs, cs, rs);
        assert(bs.last() == books[i]);
        books[i].lemma_rests_live(live_ids(cs), added_ids(cs), res.0, res.1, id);
    }
}

proof fn lemma_contains_insert(l: Seq<u32>, p: int, x: u32, y: u32)
    requires
        0 <= p <= l.len(),
    ensures
        l.insert(p, x).contains(y) <==> l.contains(y) || y == x,
{
    lemma_insert_index(l, p, x);
    let nl = l.insert(p, x);
    if nl.contains(y) {
        let q = choose|q: int| 0 <= q < nl.len() && nl[q] == y;
        if q < p {
            assert(l[q] == y);
        } else if q > p {
            assert(l[q - 1] == y);
        }
    }
    if l.contains(y) {
        let q = choose|q: int| 0 <= q < l.len() && l[q] == y;
        if q < p {
            assert(nl[q] == y);
        } else {
            assert(nl[q + 1] == y);
        }
    }
    assert(nl[p] == x);
}

proof fn lemma_contains_without(l: Seq<u32>, k: u32, y: u32)
    requires
        distinct(l),
    ensures
        without(l, k).contains(y) <==> l.contains(y) && y != k,
{
    reveal(distinct);
    if l.contains(k) {
        let p = choose|p: int| 0 <= p < l.len() && l[p] == k;
        lemma_remove_index(l, p);
        let nl = l.remove(p);
        assert(without(l, k) == nl);
        if nl.contains(y) {
            let q = choose|q: int| 0 <= q < nl.len() && nl[q] == y;
            if q < p {
                assert(l[q] == y);
            } else {
                assert(l[q + 1] == y);
            }
        }
        if l.contains(y) && y != k {
            let q = choose|q: int| 0 <= q < l.len() && l[q] == y;
            if q < p {
                assert(nl[q] == y);
            } else {
                assert(q != p);
                assert(nl[q - 1] == y);
            }
        }
    }
}

proof fn lemma_contains_drop_last(l: Seq<u32>, y: u32)
    requires
        distinct(l),
        l.len() > 0,
    ensures
        l.drop_last().contains(y) <==> l.contains(y) && y != l.last(),
{
    reveal(distinct);
    let d = l.drop_last();
    if d.contains(y) {
        let q = choose|q: int| 0 <= q < d.len() && d[q] == y;
        assert(l[q] == y);
    }
    if l.contains(y) && y != l.last() {
        let q = choose|q: int| 0 <= q < l.len() && l[q] == y;
        assert(d[q] == y);
    }
}

/// The slots that a fresh arena of `n` slots has not handed out after its
/// first `m` allocations are those from `m` up.
proof fn lemma_unused_contains(n: nat, m: nat, k: u32)
    requires
        m <= k < n,
        n <= SENTINEL,
    ensures
        unused_slots(n, m)[(n - 1 - k) as int] == k,
        unused_slots(n, m).contains(k),
{
    let u = unused_slots(n, m);
    let q = (n - 1 - k) as int;
    assert(u[q] == k);
}

proof fn lemma_first_slot_same_ids(n0: Seq<OrderNode>, n1: Seq<OrderNode>, order_id: u64, n: nat)
    requires
        n <= n0.len(),
        n <= n1.len(),
        forall|j: int| 0 <= j < n ==> #[trigger] n0[j].order_id == n1[j].order_id,
    ensures
        first_slot_with(n0, order_id, n) == first_slot_with(n1, order_id, n),
    decreases n,
{
    if n > 0 {
        lemma_first_slot_same_ids(n0, n1, order_id, (n - 1) as nat);
        assert(n0[n - 1].order_id == n1[n - 1].order_id);
    }
}

impl OrderBook {
    /// Books whose slots carry the same orders send a cancel of any id to
    /// the same slot.
    proof fn lemma_same_orders_same_target(self, other: OrderBook, order_id: u64)
        requires
            orders_of(other.nodes()) == orders_of(self.nodes()),
        ensures
            other.nodes().len() == self.nodes().len(),
            other.cancel_target(order_id) == self.cancel_target(order_id),
            forall|j: int| 0 <= j < self.nodes().len() ==> #[trigger] other.order_in(j) == self.order_in(j),
    {
        assert(orders_of(other.nodes()).len() == other.nodes().len());
        assert(orders_of(self.nodes()).len() == self.nodes().len());
        assert forall|j: int| 0 <= j < self.nodes().len() implies #[trigger] other.order_in(j) == self.order_in(j) by {
            assert(orders_of(other.nodes())[j] == orders_of(self.nodes())[j]);
            assert(orders_of(other.nodes())[j] == order_of(other.nodes()[j]));
            assert(orders_of(self.nodes())[j] == order_of(self.nodes()[j]));
        }
        assert forall|j: int| 0 <= j < self.nodes().len() implies #[trigger] self.nodes()[j].order_id
            == other.nodes()[j].order_id by {
            assert(other.order_in(j) == self.order_in(j));
        }
        lemma_first_slot_same_ids(self.nodes(), other.nodes(), order_id, self.nodes().len());
    }

    /// A book that freed slot `k` no longer rests it on a side, holds it on
    /// the free list, and no cancel or execution of its id acts any more.
    proof fn lemma_freed_slot_gone(self, after: OrderBook, order_id: u64)
        requires
            self.wf(),
            self.cancel_hits(order_id),
            self.frees_slot(after, self.cancel_target(order_id)->0),
        ensures
            !after.bid_slots().contains(self.cancel_target(order_id)->0 as u32),
            !after.ask_slots().contains(self.cancel_target(order_id)->0 as u32),
            after.free_slots().contains(self.cancel_target(order_id)->0 as u32),
            !after.cancel_hits(order_id),
            after.bids().len() + after.asks().len() <= self.bids().len() + self.asks().len(),
    {
        let k = self.cancel_target(order_id)->0;
        let ku = k as u32;
        self.lemma_same_orders_same_target(after, order_id);
        lemma_contains_without(self.bid_slots(), ku, ku);
        lemma_contains_without(self.ask_slots(), ku, ku);
        let f = self.free_slots();
        assert(f.push(ku)[f.len() as int] == ku);
        assert(without(self.bid_slots(), ku).len() <= self.bid_slots().len());
        assert(without(self.ask_slots(), ku).len() <= self.ask_slots().len());
    }
}

/// Executing fewer shares than the order holds leaves it resting in its
/// place with the remainder: its quantity drops by exactly the executed
/// shares, its id and price stay, every other resting order is untouched,
/// and further executions or a cancel of its id still act on it.
pub proof fn lemma_partial_execution(b0: OrderBook, b1: OrderBook, order_id: u64, shares: u32, r: bool)
    requires
        b0.wf(),
        b0.executes(b1, order_id, shares, r),
        b0.cancel_hits(order_id),
        shares < b0.order_in(b0.cancel_target(order_id)->0 as int).qty,
    ensures
        ({
            let k = b0.cancel_target(order_id)->0;
            let o = b0.order_in(k as int);
            let rest = RestingOrder { order_id, price: o.price, qty: (o.qty - shares) as u32 };
            &&& r
            &&& b1.cancel_target(order_id) == Some(k)
            &&& b1.cancel_hits(order_id)
            &&& b1.order_in(k as int) == rest
            &&& b1.bid_slots() == b0.bid_slots()
            &&& b1.ask_slots() == b0.ask_slots()
            &&& b1.free_slots() == b0.free_slots()
            &&& b1.bids().len() == b0.bids().len()
            &&& b1.asks().len() == b0.asks().len()
            &&& forall|i: int|
                0 <= i < b1.bids().len() ==> #[trigger] b1.bids()[i] == if b0.bid_slots()[i] == k {
                    rest
                } else {
                    b0.bids()[i]
                }
            &&& forall|i: int|
                0 <= i < b1.asks().len() ==> #[trigger] b1.asks()[i] == if b0.ask_slots()[i] == k {
                    rest
                } else {
                    b0.asks()[i]
                }
        }),
{
    let k = b0.cancel_target(order_id)->0;
    let o = b0.order_in(k as int);
    let rest = RestingOrder { order_id, price: o.price, qty: (o.qty - shares) as u32 };
    let n0 = b0.nodes();
    let n1 = b1.nodes();
    reveal(in_range);
    lemma_first_slot_facts(n0, order_id, n0.len());
    assert(orders_of(n0).len() == n0.len());
    assert(orders_of(n1).len() == n1.len());
    assert(o.order_id == order_id);
    assert(orders_of(n1)[k as int] == rest);
    assert forall|j: int| 0 <= j < n0.len() && j != k implies #[trigger] b1.order_in(j) == b0.order_in(j) by {
        assert(orders_of(n1)[j] == orders_of(n0)[j]);
    }
    assert forall|j: int| 0 <= j < n0.len() implies #[trigger] n0[j].order_id == n1[j].order_id by {
        assert(orders_of(n1)[j] == orders_of(n0)[j] || j == k);
        if j != k {
            assert(b1.order_in(j) == b0.order_in(j));
        } else {
            assert(b1.order_in(j) == rest);
        }
    }
    lemma_first_slot_same_ids(n0, n1, order_id, n0.len());
    assert forall|i: int| 0 <= i < b1.bids().len() implies #[trigger] b1.bids()[i] == if b0.bid_slots()[i] == k {
        rest
    } else {
        b0.bids()[i]
    } by {
        assert(b0.bid_slots()[i] < n0.len());
    }
    assert forall|i: int| 0 <= i < b1.asks().len() implies #[trigger] b1.asks()[i] == if b0.ask_slots()[i] == k {
        rest
    } else {
        b0.asks()[i]
    } by {
        assert(b0.ask_slots()[i] < n0.len());
    }
}

/// Two partial executions of an order that together take fewer shares
/// than it holds leave it resting with its quantity less both.
pub proof fn lemma_two_partial_executions(
    b0: OrderBook,
    b1: OrderBook,
    b2: OrderBook,
    order_id: u64,
    s1: u32,
    s2: u32,
    r1: bool,
    r2: bool,
)
    requires
        b0.wf(),
        b1.wf(),
        b0.executes(b1, order_id, s1, r1),
        b1.executes(b2, order_id, s2, r2),
        b0.cancel_hits(order_id),
        s1 + s2 < b0.order_in(b0.cancel_target(order_id)->0 as int).qty,
    ensures
        ({
            let k = b0.cancel_target(order_id)->0;
            let o = b0.order_in(k as int);
            &&& r1
            &&& r2
            &&& b2.cancel_hits(order_id)
            &&& b2.cancel_target(order_id) == Some(k)
            &&& b2.order_in(k as int) == RestingOrder { order_id, price: o.price, qty: (o.qty - s1 - s2) as u32 }
        }),
{
    lemma_partial_execution(b0, b1, order_id, s1, r1);
    lemma_partial_execution(b1, b2, order_id, s2, r2);
}

/// Executing at least what the order holds takes it off the book: its slot
/// leaves both sides and goes to the free list, no side grows, and the id
/// no longer acts.
pub proof fn lemma_full_execution(b0: OrderBook, b1: OrderBook, order_id: u64, shares: u32, r: bool)
    requires
        b0.wf(),
        b0.executes(b1, order_id, shares, r),
        b0.cancel_hits(order_id),
        shares >= b0.order_in(b0.cancel_target(order_id)->0 as int).qty,
    ensures
        r,
        !b1.bid_slots().contains(b0.cancel_target(order_id)->0 as u32),
        !b1.ask_slots().contains(b0.cancel_target(order_id)->0 as u32),
        b1.free_slots().contains(b0.cancel_target(order_id)->0 as u32),
        !b1.cancel_hits(order_id),
        b1.bids().len() + b1.asks().len() <= b0.bids().len() + b0.asks().len(),
{
    b0.lemma_freed_slot_gone(b1, order_id);
}

/// A cancel of a live id takes the order off the book: its slot leaves
/// both sides and goes to the free list, no side grows, and the id no
/// longer acts. A cancel of any other id changes no side.
pub proof fn lemma_cancel_removes(b0: OrderBook, b1: OrderBook, order_id: u64, r: bool)
    requires
        b0.wf(),
        b0.cancels(b1, order_id, r),
    ensures
        r == b0.cancel_hits(order_id),
        r ==> !b1.bid_slots().contains(b0.cancel_target(order_id)->0 as u32) && !b1.ask_slots().contains(
            b0.cancel_target(order_id)->0 as u32,
        ) && b1.free_slots().contains(b0.cancel_target(order_id)->0 as u32) && !b1.cancel_hits(order_id)
            && b1.bids().len() + b1.asks().len() <= b0.bids().len() + b0.asks().len(),
        !r ==> b1.bids() == b0.bids() && b1.asks() == b0.asks(),
{
    if r {
        b0.lemma_freed_slot_gone(b1, order_id);
    } else {
        b0.lemma_same_orders_same_target(b1, order_id);
        reveal(in_range);
        assert forall|i: int| 0 <= i < b0.bids().len() implies #[trigger] b1.bids()[i] == b0.bids()[i] by {
            assert(b0.bid_slots()[i] < b0.nodes().len());
        }
        assert forall|i: int| 0 <= i < b0.asks().len() implies #[trigger] b1.asks()[i] == b0.asks()[i] by {
            assert(b0.ask_slots()[i] < b0.nodes().len());
        }
        assert(b1.bids() =~= b0.bids());
        assert(b1.asks() =~= b0.asks());
    }
}

/// An add rests the order `(order_id, price, qty)` on the side `is_buy`
/// picks, next to everything that rested there before, and leaves the
/// other side alone.
pub proof fn lemma_add_rests(b0: OrderBook, b1: OrderBook, order_id: u64, is_buy: bool, price: u64, qty: u32)
    requires
        b0.wf(),
        b0.adds(b1, order_id, is_buy, price, qty),
    ensures
        ({
            let o = RestingOrder { order_id, price, qty };
            if is_buy {
                &&& b1.asks() == b0.asks()
                &&& exists|p: int| 0 <= p < b1.bids().len() && b1.bids()[p] == o && b1.bids().remove(p) == b0.bids()
            } else {
                &&& b1.bids() == b0.bids()
                &&& exists|p: int| 0 <= p < b1.asks().len() && b1.asks()[p] == o && b1.asks().remove(p) == b0.asks()
            }
        }),
{
    let o = RestingOrder { order_id, price, qty };
    if is_buy {
        let p = bid_rank(b0.bids(), price) as int;
        lemma_bid_rank_bound(b0.bids(), price);
        assert(b0.bids().insert(p, o).remove(p) =~= b0.bids());
        assert(b1.bids()[p] == o);
    } else {
        let p = ask_rank(b0.asks(), price) as int;
        lemma_ask_rank_bound(b0.asks(), price);
        assert(b0.asks().insert(p, o).remove(p) =~= b0.asks());
        assert(b1.asks()[p] == o);
    }
}

} // verus!
