//! Arena of order-book nodes addressed by `u32` index: nodes are
//! pre-allocated and start out free, so allocations are served from the
//! pre-allocated slots before the arena grows; freed slots are recycled
//! through the free list, and links between nodes are indices with
//! [`SENTINEL`] as null.

use vstd::prelude::*;

verus! {

/// The null index.
pub const SENTINEL: u32 = 0xFFFF_FFFF;

/// One resting order and its neighbours in a price-ordered list.
#[derive(Debug, Clone)]
pub struct OrderNode {
    pub price: u64,
    pub qty: u32,
    /// Index of the next node, [`SENTINEL`] for none.
    pub next: u32,
    /// Index of the previous node, [`SENTINEL`] for none.
    pub prev: u32,
    pub order_id: u64,
}

/// The node that pre-fills an arena: zero order, no links.
pub open spec fn blank_node() -> OrderNode {
    OrderNode { price: 0, qty: 0, next: SENTINEL, prev: SENTINEL, order_id: 0 }
}

impl Default for OrderNode {
    fn default() -> (r: Self)
        ensures
            r == blank_node(),
    {
        OrderNode { price: 0, qty: 0, next: SENTINEL, prev: SENTINEL, order_id: 0 }
    }
}

/// The free list of a fresh arena of `n` slots once the slots below `k`
/// have been handed out: slots `n - 1` down to `k`, so that the next
/// allocation takes slot `k`.
pub open spec fn unused_slots(n: nat, k: nat) -> Seq<u32> {
    Seq::new((n - k) as nat, |i: int| (n - 1 - i) as u32)
}

/// One call on an arena, with its arguments and, for an allocation, the
/// slot it returned.
pub enum ArenaCall {
    Alloc { idx: u32, price: u64, qty: u32, order_id: u64 },
    Free { idx: u32 },
}

/// Pre-allocated node storage with a free list of recycled slots.
pub struct OrderArena {
    nodes: Vec<OrderNode>,
    free_list: Vec<u32>,
}

impl OrderArena {
    /// The node in each slot.
    pub closed spec fn nodes(&self) -> Seq<OrderNode> {
        self.nodes@
    }

    /// The free list; the next allocation reuses its last entry.
    pub closed spec fn free_slots(&self) -> Seq<u32> {
        self.free_list@
    }

    /// Slot `k` holds a live node: it exists and is not on the free list.
    pub open spec fn live(&self, k: u32) -> bool {
        k < self.nodes().len() && !self.free_slots().contains(k)
    }

    /// No slot is on the free list twice, and every free slot exists.
    pub open spec fn free_list_sound(&self) -> bool {
        &&& self.free_slots().no_duplicates()
        &&& forall|i: int| 0 <= i < self.free_slots().len() ==> #[trigger] self.free_slots()[i] < self.nodes().len()
    }

    /// `after` is this arena after `call`; a free is made only of a live slot.
    pub open spec fn performs(self, after: OrderArena, call: ArenaCall) -> bool {
        match call {
            ArenaCall::Alloc { idx, price, qty, order_id } => self.allocates(after, idx, price, qty, order_id),
            ArenaCall::Free { idx } => {
                &&& self.live(idx)
                &&& after.nodes() == self.nodes()
                &&& after.free_slots() == self.free_slots().push(idx)
            },
        }
    }

    /// `after` is this arena once `idx` was allocated for the order: the
    /// last freed slot is reused when there is one, else a slot is appended;
    /// the node has no links.
    pub open spec fn allocates(self, after: OrderArena, idx: u32, price: u64, qty: u32, order_id: u64) -> bool {
        let node = OrderNode { price, qty, next: SENTINEL, prev: SENTINEL, order_id };
        if self.free_slots().len() > 0 {
            &&& idx == self.free_slots().last()
            &&& after.free_slots() == self.free_slots().drop_last()
            &&& after.nodes() == self.nodes().update(idx as int, node)
        } else {
            &&& idx == self.nodes().len()
            &&& after.free_slots() == self.free_slots()
            &&& after.nodes() == self.nodes().push(node)
        }
    }

    /// An arena of `n` blank nodes, all of them free: allocations are
    /// served from these slots, lowest index first, before the arena grows.
    pub fn with_capacity(n: usize) -> (r: Self)
        requires
            n <= SENTINEL,
        ensures
            r.nodes() == Seq::new(n as nat, |i: int| blank_node()),
            r.free_slots() == unused_slots(n as nat, 0),
            r.free_list_sound(),
    {
        let mut nodes: Vec<OrderNode> = Vec::with_capacity(n);
        let mut i: usize = 0;
        while i < n
            invariant
                i <= n,
                nodes@ == Seq::new(i as nat, |k: int| blank_node()),
            decreases n - i,
        {
            nodes.push(OrderNode::default());
            i = i + 1;
            assert(nodes@ =~= Seq::new(i as nat, |k: int| blank_node()));
        }
        let mut free_list: Vec<u32> = Vec::with_capacity(n);
        let mut k: usize = n;
        while k > 0
            invariant
                k <= n <= SENTINEL,
                free_list@ == unused_slots(n as nat, k as nat),
            decreases k,
        {
            k = k - 1;
            free_list.push(k as u32);
            assert(free_list@ =~= unused_slots(n as nat, k as nat));
        }
        let r = OrderArena { nodes, free_list };
        proof {
            let f = r.free_slots();
            assert forall|i: int, j: int| 0 <= i < f.len() && 0 <= j < f.len() && i != j implies f[i]
                != f[j] by {
                assert(f[i] == (n - 1 - i) as u32);
                assert(f[j] == (n - 1 - j) as u32);
            }
        }
        r
    }

    /// Allocates a node for an order with no links. Reuses the last freed
    /// slot when there is one, and otherwise appends a slot.
    pub fn alloc_node(&mut self, price: u64, qty: u32, order_id: u64) -> (idx: u32)
        requires
            old(self).free_slots().len() > 0 ==> old(self).free_slots().last() < old(
                self,
            ).nodes().len(),
            old(self).free_slots().len() == 0 ==> old(self).nodes().len() < SENTINEL,
        ensures
            old(self).allocates(*final(self), idx, price, qty, order_id),
    {
        let idx = match self.free_list.pop() {
            Some(idx) => idx,
            None => {
                let idx = self.nodes.len() as u32;
                self.nodes.push(OrderNode::default());
                idx
            },
        };
        self.nodes.set(
            idx as usize,
            OrderNode { price, qty, next: SENTINEL, prev: SENTINEL, order_id },
        );
        proof {
            if old(self).free_slots().len() == 0 {
                assert(self.nodes@ =~= old(self).nodes().push(
                    OrderNode { price, qty, next: SENTINEL, prev: SENTINEL, order_id },
                ));
            }
        }
        idx
    }

    /// Returns slot `idx` to the free list.
    pub fn free(&mut self, idx: u32)
        requires
            idx < old(self).nodes().len(),
        ensures
            final(self).nodes() == old(self).nodes(),
            final(self).free_slots() == old(self).free_slots().push(idx),
    {
        self.free_list.push(idx);
    }

    /// The node in slot `idx`.
    #[inline(always)]
    pub fn get(&self, idx: u32) -> (r: &OrderNode)
        requires
            idx < self.nodes().len(),
        ensures
            *r == self.nodes()[idx as int],
    {
        &self.nodes[idx as usize]
    }

    /// Mutable access to the node in slot `idx`.
    #[inline(always)]
    pub fn get_mut(&mut self, idx: u32) -> (r: &mut OrderNode)
        requires
            idx < old(self).nodes().len(),
        ensures
            *r == old(self).nodes()[idx as int],
            final(self).nodes() == old(self).nodes().update(idx as int, *final(r)),
            final(self).free_slots() == old(self).free_slots(),
    {
        &mut self.nodes[idx as usize]
    }

    /// Number of slots on the free list.
    pub fn free_len(&self) -> (r: usize)
        ensures
            r == self.free_slots().len(),
    {
        self.free_list.len()
    }

    /// Whether slot `idx` is on the free list.
    pub fn is_free(&self, idx: u32) -> (r: bool)
        ensures
            r == self.free_slots().contains(idx),
    {
        let mut i: usize = 0;
        while i < self.free_list.len()
            invariant
                i <= self.free_list@.len(),
                forall|j: int| 0 <= j < i ==> self.free_list@[j] != idx,
            decreases self.free_list@.len() - i,
        {
            if self.free_list[i] == idx {
                assert(self.free_list@[i as int] == idx);
                return true;
            }
            i = i + 1;
        }
        false
    }

    /// Number of slots.
    pub fn len(&self) -> (r: usize)
        ensures
            r == self.nodes().len(),
    {
        self.nodes.len()
    }
}

/// A fresh arena of `n` slots hands out slot `k` at its allocation number
/// `k` (counting from zero, while `k < n`) without growing, and the slots
/// above `k` stay free.
pub proof fn lemma_fresh_allocation(n: nat, k: nat)
    requires
        k < n,
        n <= SENTINEL,
    ensures
        unused_slots(n, k).len() > 0,
        unused_slots(n, k).last() == k,
        unused_slots(n, k).last() < n,
        unused_slots(n, k).drop_last() == unused_slots(n, k + 1),
{
    assert(unused_slots(n, k).drop_last() =~= unused_slots(n, k + 1));
}

/// While no slot sits on the free list twice, an allocation hands out a
/// slot that was free or new, never one holding a live node, and leaves
/// the free list without repeats and without that slot.
pub proof fn lemma_alloc_not_live(before: OrderArena, after: OrderArena, idx: u32, price: u64, qty: u32, order_id: u64)
    requires
        before.free_slots().no_duplicates(),
        forall|i: int| 0 <= i < before.free_slots().len() ==> #[trigger] before.free_slots()[i] < before.nodes().len(),
        before.allocates(after, idx, price, qty, order_id),
    ensures
        idx < after.nodes().len(),
        before.free_slots().contains(idx) || idx == before.nodes().len(),
        !after.free_slots().contains(idx),
        after.free_slots().no_duplicates(),
        before.free_slots().len() > 0 ==> after.nodes().len() == before.nodes().len(),
{
    let f = before.free_slots();
    if f.len() > 0 {
        assert(f[f.len() - 1] == idx);
        assert(f[f.len() - 1] < before.nodes().len());
        if after.free_slots().contains(idx) {
            let j = choose|j: int| 0 <= j < after.free_slots().len() && after.free_slots()[j] == idx;
            assert(f[j] == idx);
        }
    } else {
        if after.free_slots().contains(idx) {
            let j = choose|j: int| 0 <= j < f.len() && f[j] == idx;
        }
    }
}

/// From a fresh arena of `n` slots, a run of at most `n` allocations and
/// no frees hands out slots `0, 1, 2, ...` in turn and never grows the
/// arena: every allocation is served from the pre-allocated slots.
pub proof fn lemma_fresh_allocations(n: nat, arenas: Seq<OrderArena>, calls: Seq<ArenaCall>)
    requires
        n <= SENTINEL,
        calls.len() <= n,
        arenas.len() == calls.len() + 1,
        arenas[0].nodes().len() == n,
        arenas[0].free_slots() == unused_slots(n, 0),
        forall|i: int|
            0 <= i < calls.len() ==> #[trigger] calls[i] is Alloc && arenas[i].performs(arenas[i + 1], calls[i]),
    ensures
        forall|i: int|
            0 <= i < arenas.len() ==> #[trigger] arenas[i].nodes().len() == n && arenas[i].free_slots()
                == unused_slots(n, i as nat),
        forall|i: int| 0 <= i < calls.len() ==> (#[trigger] calls[i] matches ArenaCall::Alloc { idx, .. } && idx == i),
    decreases calls.len(),
{
    if calls.len() > 0 {
        let last = calls.len() - 1;
        let a2 = arenas.drop_last();
        let c2 = calls.drop_last();
        assert forall|i: int| 0 <= i < c2.len() implies #[trigger] c2[i] is Alloc && a2[i].performs(
            a2[i + 1],
            c2[i],
        ) by {
            assert(calls[i] is Alloc && arenas[i].performs(arenas[i + 1], calls[i]));
        }
        lemma_fresh_allocations(n, a2, c2);
        assert(a2[last] == arenas[last]);
        assert(arenas[last].nodes().len() == n && arenas[last].free_slots() == unused_slots(n, last as nat));
        assert(calls[last] is Alloc && arenas[last].performs(arenas[last + 1], calls[last]));
        lemma_fresh_allocation(n, last as nat);
        assert forall|i: int| 0 <= i < arenas.len() implies #[trigger] arenas[i].nodes().len() == n
            && arenas[i].free_slots() == unused_slots(n, i as nat) by {
            if i < a2.len() {
                assert(a2[i] == arenas[i]);
            }
        }
        assert forall|i: int| 0 <= i < calls.len() implies (#[trigger] calls[i] matches ArenaCall::Alloc {
            idx,
            ..
        } && idx == i) by {
            if i < last {
                assert(c2[i] == calls[i]);
            }
        }
    }
}

proof fn lemma_call_keeps_sound(before: OrderArena, after: OrderArena, call: ArenaCall)
    requires
        before.free_list_sound(),
        before.performs(after, call),
    ensures
        after.free_list_sound(),
        after.nodes().len() >= before.nodes().len(),
        call matches ArenaCall::Alloc { idx, .. } ==> !before.live(idx) && after.live(idx),
{
    match call {
        ArenaCall::Alloc { idx, price, qty, order_id } => {
            lemma_alloc_not_live(before, after, idx, price, qty, order_id);
            let f = before.free_slots();
            assert forall|i: int| 0 <= i < after.free_slots().len() implies #[trigger] after.free_slots()[i]
                < after.nodes().len() by {
                assert(after.free_slots()[i] == f[i]);
            }
        },
        ArenaCall::Free { idx } => {
            let f = before.free_slots();
            let g = after.free_slots();
            assert forall|i: int| 0 <= i < g.len() implies #[trigger] g[i] < after.nodes().len() by {
                if i < f.len() {
                    assert(g[i] == f[i]);
                }
            }
            assert forall|i: int, j: int| 0 <= i < g.len() && 0 <= j < g.len() && i != j implies g[i]
                != g[j] by {
                if i < f.len() && j < f.len() {
                    assert(g[i] == f[i] && g[j] == f[j]);
                } else if i < f.len() {
                    assert(g[i] == f[i]);
                    assert(f.contains(g[i]));
                } else {
                    assert(g[j] == f[j]);
                    assert(f.contains(g[j]));
                }
            }
        },
    }
}

/// Over any history of calls that frees only live slots, starting from a
/// sound free list (as every fresh arena has), the free list stays sound
/// and every allocation hands out a slot that held no live node and holds
/// one afterwards: no slot is ever handed out twice while live.
pub proof fn lemma_no_live_slot_handed_out(arenas: Seq<OrderArena>, calls: Seq<ArenaCall>)
    requires
        arenas.len() == calls.len() + 1,
        arenas[0].free_list_sound(),
        forall|i: int| 0 <= i < calls.len() ==> #[trigger] arenas[i].performs(arenas[i + 1], calls[i]),
    ensures
        forall|i: int| 0 <= i < arenas.len() ==> #[trigger] arenas[i].free_list_sound(),
        forall|i: int|
            0 <= i < calls.len() ==> (#[trigger] calls[i] matches ArenaCall::Alloc { idx, .. } ==> !arenas[i].live(idx)
                && arenas[i + 1].live(idx)),
    decreases calls.len(),
{
    if calls.len() > 0 {
        let n = calls.len() - 1;
        let a2 = arenas.drop_last();
        let c2 = calls.drop_last();
        assert forall|i: int| 0 <= i < c2.len() implies #[trigger] a2[i].performs(a2[i + 1], c2[i]) by {
            assert(arenas[i].performs(arenas[i + 1], calls[i]));
        }
        lemma_no_live_slot_handed_out(a2, c2);
        assert(a2[n].free_list_sound());
        assert(arenas[n].performs(arenas[n + 1], calls[n]));
        lemma_call_keeps_sound(arenas[n], arenas[n + 1], calls[n]);
        assert forall|i: int| 0 <= i < arenas.len() implies #[trigger] arenas[i].free_list_sound() by {
            if i < a2.len() {
                assert(a2[i] == arenas[i]);
            }
        }
        assert forall|i: int|
            0 <= i < calls.len() implies (#[trigger] calls[i] matches ArenaCall::Alloc { idx, .. } ==> !arenas[i].live(idx)
                && arenas[i + 1].live(idx)) by {
            if i < n {
                assert(c2[i] == calls[i]);
                assert(a2[i] == arenas[i] && a2[i + 1] == arenas[i + 1]);
            }
        }
    }
}

} // verus!
