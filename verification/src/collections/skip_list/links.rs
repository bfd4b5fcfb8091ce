//! The shape of a skip list: which node follows which at every level.
//!
//! Nodes live in an arena and are named by their place in it. The list
//! threads some of them in `order`, the sequence of arena indices from the
//! first node to the last. A node of height `h` stands in the chains of the
//! levels below `h`: its forward pointer at level `l` names the next node in
//! `order` that is taller than `l`. Pointers hold the index plus one.

use vstd::prelude::*;

verus! {

/// The forward pointers of every node in the arena.
pub type Towers = Seq<Seq<Option<usize>>>;

/// The heights of the nodes along `order`.
pub open spec fn heights(towers: Towers, order: Seq<int>) -> Seq<nat> {
    Seq::new(order.len(), |p: int| towers[order[p]].len())
}

/// The first position after `p` whose node is taller than `l`, or the
/// length of `hs` where there is none. Position -1 stands for the head.
pub open spec fn next_tall(hs: Seq<nat>, p: int, l: int) -> int
    decreases hs.len() - p,
{
    if p < -1 || p + 1 >= hs.len() {
        hs.len() as int
    } else if hs[p + 1] > l {
        p + 1
    } else {
        next_tall(hs, p + 1, l)
    }
}

/// The pointer that names the node at position `n`, or `None` past the end.
pub open spec fn link(order: Seq<int>, n: int) -> Option<usize> {
    if 0 <= n < order.len() {
        Some((order[n] + 1) as usize)
    } else {
        None
    }
}

/// The last position before `b` whose node is taller than `l`, or -1, the
/// head, where there is none.
pub open spec fn prev_tall(hs: Seq<nat>, b: int, l: int) -> int
    decreases b,
{
    if b <= 0 || b > hs.len() {
        -1
    } else if hs[b - 1] > l {
        b - 1
    } else {
        prev_tall(hs, b - 1, l)
    }
}

/// The head's pointer at level `l` names the first node taller than `l`.
pub open spec fn head_linked(head: Seq<usize>, towers: Towers, order: Seq<int>, l: int) -> bool {
    link(order, next_tall(heights(towers, order), -1, l)) == Some(head[l])
}

/// Every node taller than `l` points, at level `l`, to the next such node.
pub open spec fn nodes_linked(towers: Towers, order: Seq<int>, l: int) -> bool {
    forall|p: int|
        0 <= p < order.len() && heights(towers, order)[p] > l ==> towers[order[p]][l] == link(
            order,
            #[trigger] next_tall(heights(towers, order), p, l),
        )
}

/// The chain of level `l` runs through exactly the nodes of `order` that
/// are taller than `l`, in their order.
pub open spec fn level_linked(head: Seq<usize>, towers: Towers, order: Seq<int>, l: int) -> bool {
    head_linked(head, towers, order, l) && nodes_linked(towers, order, l)
}

/// The nodes of `order` are as tall in `after` as in `before`.
pub open spec fn same_heights(before: Towers, after: Towers, order: Seq<int>) -> bool {
    forall|p: int|
        0 <= p < order.len() ==> (#[trigger] after[order[p]]).len() == before[order[p]].len()
}

/// The nodes of `order`, but for the one at position `q`, point at level `l`
/// in `after` where they pointed in `before`.
pub open spec fn same_pointers(
    before: Towers,
    after: Towers,
    order: Seq<int>,
    l: int,
    q: int,
) -> bool {
    forall|p: int|
        0 <= p < order.len() && p != q && l < before[order[p]].len() ==> (
        #[trigger] after[order[p]])[l] == before[order[p]][l]
}

/// The arena indices in `order` are in range and distinct, every node in it
/// has a height between 1 and the height of the head, and every level of the
/// head is linked.
pub open spec fn linked(head: Seq<usize>, towers: Towers, order: Seq<int>) -> bool {
    &&& towers.len() <= usize::MAX
    &&& forall|p: int| 0 <= p < order.len() ==> 0 <= #[trigger] order[p] < towers.len()
    &&& order.no_duplicates()
    &&& forall|p: int|
        0 <= p < order.len() ==> 1 <= #[trigger] heights(towers, order)[p] <= head.len()
    &&& forall|l: int| 0 <= l < head.len() ==> level_linked(head, towers, order, l)
}

/// `next_tall` finds a position after `p`, taller than `l` unless it is the
/// end, with nothing that tall in between.
pub proof fn lemma_next_tall(hs: Seq<nat>, p: int, l: int)
    requires
        -1 <= p,
    ensures
        p < next_tall(hs, p, l) || next_tall(hs, p, l) == hs.len(),
        next_tall(hs, p, l) <= hs.len(),
        next_tall(hs, p, l) < hs.len() ==> hs[next_tall(hs, p, l)] > l,
        forall|q: int| p < q < next_tall(hs, p, l) ==> hs[q] <= l,
    decreases hs.len() - p,
{
    if p + 1 < hs.len() && hs[p + 1] <= l {
        lemma_next_tall(hs, p + 1, l);
    }
}

/// A position with the properties of `next_tall` is `next_tall`.
pub proof fn lemma_next_tall_is(hs: Seq<nat>, p: int, l: int, n: int)
    requires
        -1 <= p < n <= hs.len(),
        n < hs.len() ==> hs[n] > l,
        forall|q: int| p < q < n ==> hs[q] <= l,
    ensures
        next_tall(hs, p, l) == n,
    decreases n - p,
{
    if p + 1 < n {
        lemma_next_tall_is(hs, p + 1, l, n);
    }
}

/// Where a position moves when a node enters at `ins`.
pub open spec fn shifted(ins: int, q: int) -> int {
    if q < ins {
        q
    } else {
        q + 1
    }
}

/// How `next_tall` changes when a node of height `h` enters at `ins`: the
/// positions before a taller newcomer that looked past `ins` now find the
/// newcomer, and every other answer only moves with the positions.
pub proof fn lemma_next_tall_insert(hs: Seq<nat>, ins: int, h: nat, p: int, l: int)
    requires
        0 <= ins <= hs.len(),
        -1 <= p < hs.len(),
    ensures
        next_tall(hs.insert(ins, h), shifted(ins, p), l) == if h > l && p < ins <= next_tall(
            hs,
            p,
            l,
        ) {
            ins
        } else {
            shifted(ins, next_tall(hs, p, l))
        },
{
    let hs2 = hs.insert(ins, h);
    let n = next_tall(hs, p, l);
    lemma_next_tall(hs, p, l);
    let moved = shifted(ins, p);
    let n2 = if h > l && p < ins <= n {
        ins
    } else {
        shifted(ins, n)
    };
    assert forall|q: int| moved < q < n2 implies hs2[q] <= l by {
        if q < ins {
            assert(hs2[q] == hs[q]);
        } else if q == ins {
            assert(hs2[q] == h);
        } else {
            assert(hs2[q] == hs[q - 1]);
        }
    }
    if n2 < hs2.len() {
        if n2 < ins {
            assert(hs2[n2] == hs[n2]);
        } else if n2 == ins {
            assert(hs2[n2] == h);
        } else {
            assert(hs2[n2] == hs[n2 - 1]);
        }
    }
    lemma_next_tall_is(hs2, moved, l, n2);
}

/// What follows the newcomer at `ins` is what followed the position before
/// it.
pub proof fn lemma_next_tall_of_inserted(hs: Seq<nat>, ins: int, h: nat, l: int)
    requires
        0 <= ins <= hs.len(),
    ensures
        next_tall(hs.insert(ins, h), ins, l) == next_tall(hs, ins - 1, l) + 1,
{
    let hs2 = hs.insert(ins, h);
    let n = next_tall(hs, ins - 1, l);
    lemma_next_tall(hs, ins - 1, l);
    assert forall|q: int| ins < q < n + 1 implies hs2[q] <= l by {
        assert(hs2[q] == hs[q - 1]);
    }
    if n + 1 < hs2.len() {
        assert(hs2[n + 1] == hs[n]);
    }
    lemma_next_tall_is(hs2, ins, l, n + 1);
}

/// From any position in the gap between `p` and what follows it, the same
/// node follows.
pub proof fn lemma_next_tall_in_gap(hs: Seq<nat>, p: int, r: int, l: int)
    requires
        -1 <= p <= r < next_tall(hs, p, l),
    ensures
        next_tall(hs, r, l) == next_tall(hs, p, l),
{
    lemma_next_tall(hs, p, l);
    lemma_next_tall_is(hs, r, l, next_tall(hs, p, l));
}

/// `prev_tall` finds a position before `b`, taller than `l` unless it is
/// the head, with nothing that tall in between.
pub proof fn lemma_prev_tall(hs: Seq<nat>, b: int, l: int)
    requires
        0 <= b <= hs.len(),
    ensures
        -1 <= prev_tall(hs, b, l) < b,
        prev_tall(hs, b, l) >= 0 ==> hs[prev_tall(hs, b, l)] > l,
        forall|r: int| prev_tall(hs, b, l) < r < b ==> hs[r] <= l,
        b <= next_tall(hs, prev_tall(hs, b, l), l),
    decreases b,
{
    if b > 0 && hs[b - 1] <= l {
        lemma_prev_tall(hs, b - 1, l);
    }
    let q = prev_tall(hs, b, l);
    lemma_next_tall(hs, q, l);
}

/// A position with the properties of `prev_tall` is `prev_tall`.
pub proof fn lemma_prev_tall_is(hs: Seq<nat>, b: int, l: int, q: int)
    requires
        -1 <= q < b <= hs.len(),
        q >= 0 ==> hs[q] > l,
        forall|r: int| q < r < b ==> hs[r] <= l,
    ensures
        prev_tall(hs, b, l) == q,
    decreases b,
{
    if q < b - 1 {
        lemma_prev_tall_is(hs, b - 1, l, q);
    }
}

/// The heights along an order that a node of height `h` has entered.
pub proof fn lemma_heights_insert(
    before: Towers,
    after: Towers,
    order: Seq<int>,
    ins: int,
    x: int,
)
    requires
        0 <= ins <= order.len(),
        same_heights(before, after, order),
    ensures
        heights(after, order.insert(ins, x)) == heights(before, order).insert(
            ins,
            after[x].len(),
        ),
        heights(after, order) == heights(before, order),
{
    let order2 = order.insert(ins, x);
    let hs2 = heights(after, order2);
    let hs = heights(before, order);
    assert forall|p: int| 0 <= p < hs2.len() implies hs2[p] == hs.insert(
        ins,
        after[x].len(),
    )[p] by {
        if p < ins {
            assert(order2[p] == order[p]);
            assert(after[order[p]].len() == before[order[p]].len());
        } else if p > ins {
            assert(order2[p] == order[p - 1]);
            assert(after[order[p - 1]].len() == before[order[p - 1]].len());
        }
    }
    assert(hs2 =~= hs.insert(ins, after[x].len()));
    assert forall|p: int| 0 <= p < order.len() implies heights(after, order)[p] == hs[p] by {
        assert(after[order[p]].len() == before[order[p]].len());
    }
    assert(heights(after, order) =~= hs);
}

/// A level stays linked while the heights, its pointers and its head stay.
pub proof fn lemma_level_kept(
    head: Seq<usize>,
    towers: Towers,
    head2: Seq<usize>,
    towers2: Towers,
    order: Seq<int>,
    l: int,
)
    requires
        level_linked(head, towers, order, l),
        same_heights(towers, towers2, order),
        same_pointers(towers, towers2, order, l, -1),
        head2[l] == head[l],
    ensures
        level_linked(head2, towers2, order, l),
{
    lemma_heights_insert(towers, towers2, order, 0, 0);
    let hs = heights(towers, order);
    assert forall|p: int| 0 <= p < order.len() && hs[p] > l implies towers2[order[p]][l] == link(
        order,
        #[trigger] next_tall(hs, p, l),
    ) by {
        assert(towers2[order[p]][l] == towers[order[p]][l]);
    }
}

/// A level stays linked when a node too short for it enters the order.
pub proof fn lemma_level_passed(
    head: Seq<usize>,
    towers: Towers,
    head2: Seq<usize>,
    towers2: Towers,
    order: Seq<int>,
    ins: int,
    x: int,
    l: int,
)
    requires
        0 <= ins <= order.len(),
        level_linked(head, towers, order, l),
        same_heights(towers, towers2, order),
        same_pointers(towers, towers2, order, l, -1),
        head2[l] == head[l],
        towers2[x].len() <= l,
    ensures
        level_linked(head2, towers2, order.insert(ins, x), l),
{
    let hs = heights(towers, order);
    let h = towers2[x].len();
    let order2 = order.insert(ins, x);
    lemma_heights_insert(towers, towers2, order, ins, x);
    let hs2 = heights(towers2, order2);
    lemma_next_tall_insert(hs, ins, h, -1, l);
    lemma_next_tall(hs, -1, l);
    assert forall|moved: int|
        0 <= moved < order2.len() && hs2[moved] > l implies towers2[order2[moved]][l] == link(
        order2,
        #[trigger] next_tall(hs2, moved, l),
    ) by {
        let p = if moved < ins {
            moved
        } else {
            moved - 1
        };
        assert(moved != ins);
        assert(order2[moved] == order[p]);
        assert(hs2[moved] == hs[p]);
        lemma_next_tall_insert(hs, ins, h, p, l);
        lemma_next_tall(hs, p, l);
        assert(towers2[order[p]][l] == towers[order[p]][l]);
        assert(towers[order[p]][l] == link(order, next_tall(hs, p, l)));
    }
}

/// A level is linked again once a node tall enough for it has entered the
/// order at `ins` and has been spliced in: the newcomer points where its
/// predecessor, the last taller node before `ins`, pointed, and the
/// predecessor, or the head where there is none, points to the newcomer.
pub proof fn lemma_level_spliced(
    head: Seq<usize>,
    towers: Towers,
    head2: Seq<usize>,
    towers2: Towers,
    order: Seq<int>,
    ins: int,
    x: int,
    l: int,
)
    requires
        0 <= ins <= order.len(),
        0 <= l,
        0 <= x < usize::MAX,
        nodes_linked(towers, order, l),
        same_heights(towers, towers2, order),
        same_pointers(towers, towers2, order, l, prev_tall(heights(towers, order), ins, l)),
        towers2[x].len() > l,
        towers2[x][l] == link(
            order,
            next_tall(heights(towers, order), prev_tall(heights(towers, order), ins, l), l),
        ),
        prev_tall(heights(towers, order), ins, l) >= 0 ==> {
            &&& head_linked(head, towers, order, l)
            &&& head2[l] == head[l]
            &&& towers2[order[prev_tall(heights(towers, order), ins, l)]][l] == Some(
                (x + 1) as usize,
            )
        },
        prev_tall(heights(towers, order), ins, l) < 0 ==> head2[l] == x + 1,
    ensures
        level_linked(head2, towers2, order.insert(ins, x), l),
{
    let hs = heights(towers, order);
    let h = towers2[x].len();
    let order2 = order.insert(ins, x);
    lemma_heights_insert(towers, towers2, order, ins, x);
    let hs2 = heights(towers2, order2);
    let q = prev_tall(hs, ins, l);
    lemma_prev_tall(hs, ins, l);
    let n = next_tall(hs, q, l);
    lemma_next_tall(hs, q, l);
    assert(order2[ins] == x);

    lemma_next_tall_insert(hs, ins, h, -1, l);
    lemma_next_tall(hs, -1, l);
    assert(head_linked(head2, towers2, order2, l));

    assert forall|moved: int|
        0 <= moved < order2.len() && hs2[moved] > l implies towers2[order2[moved]][l] == link(
        order2,
        #[trigger] next_tall(hs2, moved, l),
    ) by {
        if moved == ins {
            lemma_next_tall_of_inserted(hs, ins, h, l);
            lemma_next_tall_in_gap(hs, q, ins - 1, l);
        } else {
            let p = if moved < ins {
                moved
            } else {
                moved - 1
            };
            assert(order2[moved] == order[p]);
            assert(hs2[moved] == hs[p]);
            lemma_next_tall_insert(hs, ins, h, p, l);
            lemma_next_tall(hs, p, l);
            if p != q {
                assert(towers2[order[p]][l] == towers[order[p]][l]);
                assert(towers[order[p]][l] == link(order, next_tall(hs, p, l)));
            }
        }
    }
}

} // verus!
