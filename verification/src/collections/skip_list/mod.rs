//! An ordered map kept as a skip list over an arena of nodes.

pub mod entries;
pub mod level;
pub mod links;

pub use crate::collections::skip_list::level::{LevelGenerator, RandomLevelGenerator};

use crate::collections::skip_list::entries::{
    entry_keys, holds, inserted, lemma_inserted, lookup_in, rank_in,
};
use crate::collections::skip_list::links::{
    heights, lemma_level_kept, lemma_level_passed, lemma_level_spliced, lemma_next_tall,
    lemma_next_tall_is, lemma_prev_tall, lemma_prev_tall_is, level_linked, link, next_tall,
    nodes_linked, prev_tall, same_heights, same_pointers, Towers,
};
use crate::order::{
    lemma_lower_bound, lemma_sorted_insert, strictly_sorted, TotalOrder,
};
use vstd::prelude::*;

verus! {

/// One entry of the map and its forward pointers, one per level of its
/// height.
struct Node<K, V> {
    key: K,
    value: V,
    forwards: Vec<Option<usize>>,
}

impl<K, V> Node<K, V> {
    fn new(key: K, value: V, level: usize) -> (node: Self)
        ensures
            node.key == key,
            node.value == value,
            node.forwards@ == Seq::new(level as nat, |i: int| None::<usize>),
    {
        let mut forwards: Vec<Option<usize>> = Vec::new();
        let _ = forwards.try_reserve(level);
        let mut i: usize = 0;
        while i < level
            invariant
                i <= level,
                forwards@ == Seq::new(i as nat, |i: int| None::<usize>),
            decreases level - i,
        {
            forwards.push(None);
            i += 1;
            proof {
                assert(forwards@ =~= Seq::new(i as nat, |i: int| None::<usize>));
            }
        }
        Node { key, value, forwards }
    }

    fn level(&self) -> (l: usize)
        ensures
            l == self.forwards@.len(),
    {
        self.forwards.len()
    }
}

/// An ordered map from `K` to `V`.
///
/// The nodes live in an arena and are named by positive integers, their
/// place in the arena counted from 1. The head's forward pointers, one per
/// level of the list, stand beside the arena.
pub struct SkipListMap<K, V, G = RandomLevelGenerator> {
    generator: G,
    forwards: Vec<usize>,
    nodes: Vec<Node<K, V>>,
    /// The arena indices of the linked nodes, in the order of the list.
    order: Ghost<Seq<int>>,
}

impl<K: TotalOrder, V, G> SkipListMap<K, V, G> {
    /// The entries of the map, in the order of the list.
    pub closed spec fn entries(&self) -> Seq<(K, V)> {
        Seq::new(
            self.order@.len(),
            |p: int| (self.nodes@[self.order@[p]].key, self.nodes@[self.order@[p]].value),
        )
    }

    /// The views of the keys, in the order of the list.
    pub open spec fn keys(&self) -> Seq<K::V> {
        entry_keys(self.entries())
    }

    /// The position of the first entry whose key does not come before
    /// `key`, or the number of entries where every key does.
    pub open spec fn rank(&self, key: K::V) -> int {
        rank_in(self.entries(), key)
    }

    /// The generator that insertions draw heights from.
    pub closed spec fn generator(&self) -> G {
        self.generator
    }

    /// The number of levels of the list: the height of its tallest node.
    pub closed spec fn spec_level(&self) -> nat {
        self.forwards@.len()
    }

    spec fn towers(&self) -> Towers {
        Seq::new(self.nodes@.len(), |i: int| self.nodes@[i].forwards@)
    }

    spec fn hs(&self) -> Seq<nat> {
        heights(self.towers(), self.order@)
    }

    /// `trace` holds, from the top level down, the last node before the
    /// place of `key` that is taller than the level.
    spec fn traced(&self, trace: Seq<Option<usize>>, key: K::V) -> bool {
        &&& trace.len() == self.forwards@.len()
        &&& forall|j: int|
            0 <= j < trace.len() ==> #[trigger] trace[j] == link(
                self.order@,
                prev_tall(self.hs(), self.rank(key), self.forwards@.len() - 1 - j),
            )
    }

    /// Whether the map holds an entry under `key`.
    pub open spec fn contains_key(&self, key: K::V) -> bool {
        holds(self.entries(), key)
    }

    /// The value under `key`, where the map holds one.
    pub open spec fn lookup(&self, key: K::V) -> Option<V> {
        lookup_in(self.entries(), key)
    }

    /// The pointers of the arena thread the nodes as a skip list.
    pub closed spec fn shaped(&self) -> bool {
        links::linked(self.forwards@, self.towers(), self.order@)
    }

    /// The list is well linked and its keys are strictly ascending.
    pub open spec fn wf(&self) -> bool {
        self.shaped() && strictly_sorted::<K>(self.keys())
    }

    pub fn with_generator(max_level: usize, generator: G) -> (list: Self)
        ensures
            list.wf(),
            list.entries() == Seq::<(K, V)>::empty(),
            list.generator() == generator,
            list.spec_level() == 0,
    {
        let mut forwards: Vec<usize> = Vec::new();
        let _ = forwards.try_reserve(max_level);
        let list = SkipListMap {
            generator,
            forwards,
            nodes: Vec::new(),
            order: Ghost(Seq::empty()),
        };
        proof {
            assert(list.entries() =~= Seq::<(K, V)>::empty());
        }
        list
    }

    pub fn level(&self) -> (l: usize)
        ensures
            l == self.spec_level(),
    {
        self.forwards.len()
    }

    fn node(&self, i: usize) -> (node: &Node<K, V>)
        requires
            1 <= i <= self.nodes@.len(),
        ensures
            *node == self.nodes@[i - 1],
    {
        &self.nodes[i - 1]
    }

    /// What the definitions say of the node at a position of the list.
    proof fn lemma_at(&self, p: int)
        requires
            self.wf(),
            0 <= p < self.order@.len(),
        ensures
            0 <= self.order@[p] < self.nodes@.len(),
            self.order@.len() == self.hs().len() == self.keys().len(),
            self.keys()[p] == self.nodes@[self.order@[p]].key@,
            self.entries()[p] == (
                self.nodes@[self.order@[p]].key,
                self.nodes@[self.order@[p]].value,
            ),
            self.hs()[p] == self.nodes@[self.order@[p]].forwards@.len(),
            self.towers()[self.order@[p]] == self.nodes@[self.order@[p]].forwards@,
            1 <= self.hs()[p] <= self.forwards@.len(),
            link(self.order@, p) == Some((self.order@[p] + 1) as usize),
            self.order@[p] + 1 <= usize::MAX,
    {
    }

    /// One level of a search: from `from`, the last node taller than
    /// `level + 1` before the target, walks the chain of `level` while the
    /// next key comes before `key`, to the last node taller than `level`
    /// before the target. `None` stands for the head.
    fn search_level(&self, key: &K, level: usize, from: Option<usize>) -> (r: Option<usize>)
        requires
            self.wf(),
            level < self.forwards@.len(),
            from == link(self.order@, prev_tall(self.hs(), self.rank(key@), level + 1)),
        ensures
            r == link(self.order@, prev_tall(self.hs(), self.rank(key@), level as int)),
    {
        let ghost hs = self.hs();
        let ghost order = self.order@;
        let ghost lb = self.rank(key@);
        let ghost mut pos: int = prev_tall(hs, lb, level + 1);
        proof {
            lemma_lower_bound::<K>(self.keys(), key@);
            lemma_prev_tall(hs, lb, level + 1);
            if pos >= 0 {
                self.lemma_at(pos);
            }
            assert(level_linked(self.forwards@, self.towers(), order, level as int));
        }
        let mut id = from;
        if id.is_none() {
            let ghost first = next_tall(hs, -1, level as int);
            proof {
                lemma_next_tall(hs, -1, level as int);
                self.lemma_at(first);
            }
            let i = self.forwards[level];
            let node = self.node(i);
            if node.key.less(key) {
                id = Some(i);
                proof {
                    pos = first;
                }
            } else {
                proof {
                    lemma_prev_tall_is(hs, lb, level as int, -1);
                }
            }
        }
        match id {
            Some(start) => {
                let mut i = start;
                let mut advancing = true;
                while advancing
                    invariant
                        self.wf(),
                        hs == self.hs(),
                        order == self.order@,
                        lb == self.rank(key@),
                        0 <= lb <= order.len(),
                        level < self.forwards@.len(),
                        0 <= pos < lb,
                        hs[pos] > level,
                        i == order[pos] + 1,
                        !advancing ==> lb <= next_tall(hs, pos, level as int),
                    decreases lb - pos + if advancing { 1int } else { 0int },
                {
                    let ghost next = next_tall(hs, pos, level as int);
                    proof {
                        self.lemma_at(pos);
                        lemma_lower_bound::<K>(self.keys(), key@);
                        lemma_next_tall(hs, pos, level as int);
                        assert(level_linked(self.forwards@, self.towers(), order, level as int));
                        assert(self.towers()[order[pos]][level as int] == link(order, next));
                        if next < order.len() {
                            self.lemma_at(next);
                        }
                    }
                    match self.node(i).forwards[level] {
                        Some(f) => {
                            if self.node(f).key.less(key) {
                                i = f;
                                proof {
                                    pos = next;
                                }
                            } else {
                                advancing = false;
                            }
                        },
                        None => {
                            advancing = false;
                        },
                    }
                }
                proof {
                    lemma_next_tall(hs, pos, level as int);
                    lemma_prev_tall_is(hs, lb, level as int, pos);
                    self.lemma_at(pos);
                }
                Some(i)
            },
            None => None,
        }
    }

    /// The predecessors of `key` at every level, from the top level down.
    fn search(&self, key: &K) -> (trace: Vec<Option<usize>>)
        requires
            self.wf(),
        ensures
            self.traced(trace@, key@),
    {
        let top = self.forwards.len();
        let ghost hs = self.hs();
        let ghost lb = self.rank(key@);
        let mut trace: Vec<Option<usize>> = Vec::new();
        let mut level = top;
        let mut id: Option<usize> = None;
        proof {
            lemma_lower_bound::<K>(self.keys(), key@);
            assert forall|r: int| -1 < r < lb implies hs[r] <= top by {
                self.lemma_at(r);
            }
            assert(hs.len() == self.order@.len());
            lemma_prev_tall_is(hs, lb, top as int, -1);
        }
        while level > 0
            invariant
                self.wf(),
                hs == self.hs(),
                lb == self.rank(key@),
                top == self.forwards@.len(),
                level <= top,
                trace@.len() == top - level,
                id == link(self.order@, prev_tall(hs, lb, level as int)),
                forall|j: int|
                    0 <= j < trace@.len() ==> #[trigger] trace@[j] == link(
                        self.order@,
                        prev_tall(hs, lb, top - 1 - j),
                    ),
            decreases level,
        {
            level -= 1;
            id = self.search_level(key, level, id);
            trace.push(id);
        }
        trace
    }
}

impl<K: TotalOrder, V, G> SkipListMap<K, V, G> {
    /// At the bottom level every node follows the one before it.
    proof fn lemma_bottom(&self, q: int)
        requires
            self.wf(),
            -1 <= q < self.order@.len(),
        ensures
            next_tall(self.hs(), q, 0) == q + 1,
            prev_tall(self.hs(), q + 1, 0) == q,
    {
        if q + 1 < self.order@.len() {
            self.lemma_at(q + 1);
        }
        if q >= 0 {
            self.lemma_at(q);
        }
        lemma_next_tall_is(self.hs(), q, 0, q + 1);
        lemma_prev_tall_is(self.hs(), q + 1, 0, q);
    }

    /// A list without levels has no entries.
    proof fn lemma_flat(&self)
        requires
            self.wf(),
            self.forwards@.len() == 0,
        ensures
            self.order@.len() == 0,
    {
        if self.order@.len() > 0 {
            self.lemma_at(0);
        }
    }

    /// The node after the one at position `q` of the list, at the bottom
    /// level.
    fn next(&self, id: Option<usize>, Ghost(q): Ghost<int>) -> (r: Option<usize>)
        requires
            self.wf(),
            self.forwards@.len() > 0,
            -1 <= q < self.order@.len(),
            id == link(self.order@, q),
        ensures
            r == link(self.order@, q + 1),
    {
        proof {
            self.lemma_bottom(q);
            assert(level_linked(self.forwards@, self.towers(), self.order@, 0));
            if q >= 0 {
                self.lemma_at(q);
            }
        }
        match id {
            Some(i) => self.node(i).forwards[0],
            None => Some(self.forwards[0]),
        }
    }

    /// The node at the place of `key`: the first whose key does not come
    /// before it.
    fn get_smallest_id(&self, key: &K) -> (r: Option<usize>)
        requires
            self.wf(),
        ensures
            r == link(self.order@, self.rank(key@)),
    {
        let trace = self.search(key);
        proof {
            lemma_lower_bound::<K>(self.keys(), key@);
        }
        if trace.len() == 0 {
            proof {
                self.lemma_flat();
            }
            None
        } else {
            proof {
                self.lemma_bottom(self.rank(key@) - 1);
            }
            self.next(trace[trace.len() - 1], Ghost(self.rank(key@) - 1))
        }
    }

    /// The value of the first entry whose key is `key` or comes after it.
    pub fn get_smallest(&self, key: &K) -> (r: Option<&V>)
        requires
            self.wf(),
        ensures
            0 <= self.rank(key@) <= self.entries().len(),
            match r {
                Some(value) => self.rank(key@) < self.entries().len() && *value
                    == self.entries()[self.rank(key@)].1,
                None => self.rank(key@) == self.entries().len(),
            },
    {
        proof {
            lemma_lower_bound::<K>(self.keys(), key@);
            if self.rank(key@) < self.order@.len() {
                self.lemma_at(self.rank(key@));
            }
        }
        match self.get_smallest_id(key) {
            Some(id) => Some(&self.node(id).value),
            None => None,
        }
    }

    /// The first entry whose key is `key` or comes after it.
    pub fn get_smallest_key_value(&self, key: &K) -> (r: Option<(&K, &V)>)
        requires
            self.wf(),
        ensures
            0 <= self.rank(key@) <= self.entries().len(),
            match r {
                Some((k, v)) => self.rank(key@) < self.entries().len() && (*k, *v)
                    == self.entries()[self.rank(key@)],
                None => self.rank(key@) == self.entries().len(),
            },
    {
        proof {
            lemma_lower_bound::<K>(self.keys(), key@);
            if self.rank(key@) < self.order@.len() {
                self.lemma_at(self.rank(key@));
            }
        }
        match self.get_smallest_id(key) {
            Some(id) => {
                let node = self.node(id);
                Some((&node.key, &node.value))
            },
            None => None,
        }
    }

    /// The value under `key`.
    pub fn get(&self, key: &K) -> (r: Option<&V>)
        requires
            self.wf(),
        ensures
            match r {
                Some(value) => self.lookup(key@) == Some(*value),
                None => self.lookup(key@) is None,
            },
    {
        proof {
            lemma_lower_bound::<K>(self.keys(), key@);
            if self.rank(key@) < self.order@.len() {
                self.lemma_at(self.rank(key@));
            }
        }
        match self.get_smallest_id(key) {
            Some(id) => {
                let node = self.node(id);
                if node.key.same(key) {
                    Some(&node.value)
                } else {
                    None
                }
            },
            None => None,
        }
    }

    /// The entries in ascending order of their keys.
    pub fn iter(&self) -> (r: Vec<(&K, &V)>)
        requires
            self.wf(),
        ensures
            r@.len() == self.entries().len(),
            forall|p: int|
                0 <= p < r@.len() ==> (*(#[trigger] r@[p]).0, *r@[p].1) == self.entries()[p],
            forall|p: int, q: int|
                0 <= p < q < r@.len() ==> K::precedes((#[trigger] r@[p]).0@, (#[trigger] r@[q]).0@),
    {
        let mut out: Vec<(&K, &V)> = Vec::new();
        let mut id: Option<usize> = if self.forwards.len() > 0 {
            Some(self.forwards[0])
        } else {
            None
        };
        let ghost mut pos: int = 0;
        proof {
            if self.forwards@.len() > 0 {
                self.lemma_bottom(-1);
                assert(level_linked(self.forwards@, self.towers(), self.order@, 0));
            } else {
                self.lemma_flat();
            }
        }
        while id.is_some()
            invariant
                self.wf(),
                0 <= pos <= self.order@.len(),
                id == link(self.order@, pos),
                out@.len() == pos,
                forall|p: int|
                    0 <= p < out@.len() ==> (*(#[trigger] out@[p]).0, *out@[p].1)
                        == self.entries()[p],
            decreases self.order@.len() - pos,
        {
            proof {
                self.lemma_at(pos);
                self.lemma_bottom(pos);
                assert(level_linked(self.forwards@, self.towers(), self.order@, 0));
            }
            let node = self.node(id.unwrap());
            id = if node.level() > 0 {
                node.forwards[0]
            } else {
                None
            };
            out.push((&node.key, &node.value));
            proof {
                pos = pos + 1;
            }
        }
        proof {
            assert forall|p: int, q: int| 0 <= p < q < out@.len() implies K::precedes(
                (#[trigger] out@[p]).0@,
                (#[trigger] out@[q]).0@,
            ) by {
                assert(self.keys()[p] == out@[p].0@);
                assert(self.keys()[q] == out@[q].0@);
            }
        }
        out
    }
}

impl<K: TotalOrder, V, G> SkipListMap<K, V, G> {
    /// The node that holds `key`, given the trace of a search for it.
    fn find(&self, trace: &Vec<Option<usize>>, key: &K) -> (r: Option<usize>)
        requires
            self.wf(),
            self.traced(trace@, key@),
        ensures
            0 <= self.rank(key@) <= self.order@.len(),
            r == if self.contains_key(key@) {
                link(self.order@, self.rank(key@))
            } else {
                None
            },
            self.contains_key(key@) ==> r is Some,
    {
        proof {
            lemma_lower_bound::<K>(self.keys(), key@);
            if self.rank(key@) < self.order@.len() {
                self.lemma_at(self.rank(key@));
            }
        }
        let successor = if trace.len() == 0 {
            proof {
                self.lemma_flat();
            }
            None
        } else {
            proof {
                self.lemma_bottom(self.rank(key@) - 1);
            }
            self.next(trace[trace.len() - 1], Ghost(self.rank(key@) - 1))
        };
        match successor {
            Some(next) => {
                if self.node(next).key.same(key) {
                    Some(next)
                } else {
                    None
                }
            },
            None => None,
        }
    }

    /// Puts `value` in the node at position `p` of the list and returns
    /// the value that it held.
    fn swap_value(&mut self, id: usize, value: V, Ghost(p): Ghost<int>) -> (r: V)
        requires
            old(self).wf(),
            0 <= p < old(self).order@.len(),
            id == old(self).order@[p] + 1,
        ensures
            final(self).wf(),
            final(self).generator() == old(self).generator(),
            final(self).spec_level() == old(self).spec_level(),
            r == old(self).entries()[p].1,
            final(self).entries() == old(self).entries().update(
                p,
                (old(self).entries()[p].0, value),
            ),
    {
        proof {
            self.lemma_at(p);
        }
        let mut value = value;
        core::mem::swap(&mut self.nodes[id - 1].value, &mut value);
        proof {
            assert(self.towers() =~= old(self).towers());
            assert(self.entries() =~= old(self).entries().update(
                p,
                (old(self).entries()[p].0, self.nodes@[id - 1].value),
            ));
            assert(self.keys() =~= old(self).keys());
        }
        value
    }

    /// Points the node `id`, at level `l`, to `to`.
    fn set_forward(&mut self, id: usize, l: usize, to: Option<usize>)
        requires
            1 <= id <= old(self).nodes@.len(),
            l < old(self).towers()[id - 1].len(),
        ensures
            final(self).forwards@ == old(self).forwards@,
            final(self).order@ == old(self).order@,
            final(self).generator == old(self).generator,
            final(self).nodes@.len() == old(self).nodes@.len(),
            forall|i: int|
                0 <= i < final(self).nodes@.len() ==> (#[trigger] final(self).nodes@[i]).key == old(
                    self,
                ).nodes@[i].key && final(self).nodes@[i].value == old(self).nodes@[i].value,
            final(self).towers() == old(self).towers().update(
                id - 1,
                old(self).towers()[id - 1].update(l as int, to),
            ),
    {
        self.nodes[id - 1].forwards[l] = to;
        proof {
            assert(self.towers() =~= old(self).towers().update(
                id - 1,
                old(self).towers()[id - 1].update(l as int, to),
            ));
        }
    }

    /// Adds a node of height `new_level` for an entry that the map lacks,
    /// and splices it into the chains of the levels below its height, after
    /// the predecessors that `trace` names. A node of height 0 stands in no
    /// chain: it is stored and cannot be reached.
    fn link(&mut self, key: K, value: V, new_level: usize, trace: Vec<Option<usize>>)
        requires
            old(self).wf(),
            old(self).traced(trace@, key@),
            !old(self).contains_key(key@),
        ensures
            final(self).wf(),
            final(self).generator() == old(self).generator(),
            new_level >= 1 ==> final(self).entries() == old(self).entries().insert(
                old(self).rank(key@),
                (key, value),
            ),
            new_level == 0 ==> final(self).entries() == old(self).entries(),
            final(self).spec_level() == if new_level > old(self).spec_level() {
                new_level as nat
            } else {
                old(self).spec_level()
            },
    {
        let ghost before = *self;
        let ghost head0 = self.forwards@;
        let ghost towers0 = self.towers();
        let ghost order0 = self.order@;
        let ghost hs0 = self.hs();
        let ghost ins = self.rank(key@);
        let ghost x: int = self.nodes@.len() as int;
        let top = self.forwards.len();
        proof {
            lemma_lower_bound::<K>(self.keys(), key@);
            assert(hs0.len() == order0.len());
        }
        self.nodes.push(Node::new(key, value, new_level));
        let id = self.nodes.len();
        let ghost order1 = if new_level >= 1 {
            order0.insert(ins, x)
        } else {
            order0
        };
        proof {
            self.order@ = order1;
        }
        let ghost towers1 = self.towers();
        let ghost nodes1 = self.nodes@;
        proof {
            assert forall|i: int| 0 <= i < towers0.len() implies towers1[i] == towers0[i] by {}
            assert(towers1[x] == Seq::new(new_level as nat, |i: int| None::<usize>));
            assert(same_heights(towers0, towers1, order0));
        }

        let mut level = new_level;
        if new_level > top {
            let mut j = top;
            while j < new_level
                invariant
                    top <= j <= new_level,
                    top == head0.len(),
                    self.forwards@.len() == j,
                    id == x + 1,
                    forall|l: int| 0 <= l < top ==> self.forwards@[l] == head0[l],
                    forall|l: int| top <= l < j ==> self.forwards@[l] == id,
                    self.nodes@ == nodes1,
                    self.order@ == order1,
                    self.generator == old(self).generator,
                decreases new_level - j,
            {
                self.forwards.push(id);
                j += 1;
            }
            level = top;
        }
        let ghost head1 = self.forwards@;
        proof {
            assert(self.towers() =~= towers1);
            assert(head1.len() == if new_level > top { new_level as int } else { top as int });
            // The levels that the splicing below does not touch.
            assert forall|l: int| level <= l < head1.len() implies level_linked(
                head1,
                towers1,
                order1,
                l,
            ) by {
                if new_level == 0 {
                    assert(level_linked(head0, towers0, order0, l));
                    assert(same_pointers(towers0, towers1, order0, l, -1));
                    lemma_level_kept(head0, towers0, head1, towers1, order0, l);
                } else if l < top {
                    assert(level_linked(head0, towers0, order0, l));
                    assert(same_pointers(towers0, towers1, order0, l, -1));
                    lemma_level_passed(head0, towers0, head1, towers1, order0, ins, x, l);
                } else {
                    assert forall|p: int| 0 <= p < order0.len() implies hs0[p] <= l by {
                        before.lemma_at(p);
                    }
                    lemma_prev_tall_is(hs0, ins, l, -1);
                    lemma_next_tall_is(hs0, -1, l, hs0.len() as int);
                    assert(nodes_linked(towers0, order0, l));
                    assert(same_pointers(towers0, towers1, order0, l, -1));
                    lemma_level_spliced(head0, towers0, head1, towers1, order0, ins, x, l);
                }
            }
        }

        let mut l: usize = 0;
        while l < level
            invariant
                before.wf(),
                before == *old(self),
                head0 == before.forwards@,
                towers0 == before.towers(),
                order0 == before.order@,
                hs0 == before.hs(),
                ins == before.rank(key@),
                0 <= ins <= order0.len(),
                x == before.nodes@.len(),
                before.traced(trace@, key@),
                top == head0.len(),
                new_level >= 1 ==> order1 == order0.insert(ins, x),
                l <= level <= top,
                level <= new_level,
                level == new_level || level == top,
                id == x + 1,
                self.order@ == order1,
                self.generator == old(self).generator,
                self.nodes@.len() == x + 1,
                self.forwards@.len() == head1.len(),
                head1.len() >= top,
                forall|i: int|
                    0 <= i <= x ==> (#[trigger] self.nodes@[i]).key == arena_key::<K, V>(
                        old(self).nodes@,
                        key,
                        i,
                    ),
                forall|i: int|
                    0 <= i <= x ==> (#[trigger] self.nodes@[i]).value == arena_value::<K, V>(
                        old(self).nodes@,
                        value,
                        i,
                    ),
                forall|i: int|
                    0 <= i <= x ==> (#[trigger] self.towers()[i]).len() == towers1[i].len(),
                towers1.len() == x + 1,
                towers0.len() == x,
                towers1[x].len() == new_level,
                forall|i: int| 0 <= i < x ==> towers1[i].len() == towers0[i].len(),
                forall|j: int|
                    (0 <= j < l || level <= j < head1.len()) ==> level_linked(
                        self.forwards@,
                        self.towers(),
                        order1,
                        j,
                    ),
                forall|j: int| l <= j < level ==> #[trigger] self.forwards@[j] == head0[j],
                forall|i: int, j: int|
                    0 <= i < x && l <= j < level && j < towers0[i].len() ==> (
                    #[trigger] self.towers()[i][j]) == towers0[i][j],
                forall|j: int| l <= j < level ==> (#[trigger] self.towers()[x][j]) is None,
            decreases level - l,
        {
            let ghost q = prev_tall(hs0, ins, l as int);
            let ghost head_a = self.forwards@;
            let ghost towers_a = self.towers();
            proof {
                lemma_prev_tall(hs0, ins, l as int);
                lemma_next_tall(hs0, q, l as int);
                assert(level_linked(head0, towers0, order0, l as int));
                assert(trace@[top - 1 - l] == link(order0, q));
                assert(self.towers()[x].len() == new_level);
                assert(self.towers()[x] == self.nodes@[x].forwards@);
                if q >= 0 {
                    before.lemma_at(q);
                    assert(towers0[order0[q]][l as int] == link(
                        order0,
                        next_tall(hs0, q, l as int),
                    ));
                    assert(self.towers()[order0[q]].len() == towers0[order0[q]].len());
                    assert(self.towers()[order0[q]] == self.nodes@[order0[q]].forwards@);
                    assert(self.towers()[order0[q]][l as int] == towers0[order0[q]][l as int]);
                } else {
                    lemma_next_tall(hs0, -1, l as int);
                }
            }
            match trace[top - 1 - l] {
                Some(u) => {
                    let next = self.node(u).forwards[l];
                    self.set_forward(u, l, Some(id));
                    self.set_forward(id, l, next);
                },
                None => {
                    let next = self.forwards[l];
                    self.forwards[l] = id;
                    self.set_forward(id, l, Some(next));
                },
            }
            proof {
                let head_b = self.forwards@;
                let towers_b = self.towers();
                assert(towers_b.len() == x + 1);
                assert forall|i: int| 0 <= i <= x implies #[trigger] towers_b[i] == if i == x {
                    towers_a[x].update(l as int, towers_b[x][l as int])
                } else if q >= 0 && i == order0[q] {
                    towers_a[i].update(l as int, Some(id))
                } else {
                    towers_a[i]
                } by {}
                assert forall|p: int| 0 <= p < order0.len() implies order0[p] != x by {
                    before.lemma_at(p);
                }
                assert(same_heights(towers0, towers_b, order0)) by {
                    assert forall|p: int| 0 <= p < order0.len() implies (
                    #[trigger] towers_b[order0[p]]).len() == towers0[order0[p]].len() by {
                        before.lemma_at(p);
                    }
                }
                assert(same_pointers(towers0, towers_b, order0, l as int, q)) by {
                    assert forall|p: int|
                        0 <= p < order0.len() && p != q && l < towers0[order0[p]].len() implies (
                    #[trigger] towers_b[order0[p]])[l as int] == towers0[order0[p]][l as int] by {
                        before.lemma_at(p);
                        if q >= 0 {
                            before.lemma_at(q);
                            assert(order0[p] != order0[q]);
                        }
                        if (l as int) < towers0[order0[p]].len() {
                            assert(towers_a[order0[p]][l as int] == towers0[order0[p]][l as int]);
                        }
                    }
                }
                lemma_level_spliced(head0, towers0, head_b, towers_b, order0, ins, x, l as int);
                assert forall|j: int|
                    (0 <= j < l || level <= j < head1.len()) implies level_linked(
                    head_b,
                    towers_b,
                    order1,
                    j,
                ) by {
                    assert(level_linked(head_a, towers_a, order1, j));
                    assert(same_heights(towers_a, towers_b, order1)) by {
                        assert forall|p: int| 0 <= p < order1.len() implies (
                        #[trigger] towers_b[order1[p]]).len() == towers_a[order1[p]].len() by {
                            if p < ins {
                                before.lemma_at(p);
                            } else if p > ins {
                                before.lemma_at(p - 1);
                            }
                        }
                    }
                    assert(same_pointers(towers_a, towers_b, order1, j, -1)) by {
                        assert forall|p: int|
                            0 <= p < order1.len() && j < towers_a[order1[p]].len() implies (
                        #[trigger] towers_b[order1[p]])[j] == towers_a[order1[p]][j] by {
                            if p < ins {
                                before.lemma_at(p);
                            } else if p > ins {
                                before.lemma_at(p - 1);
                            }
                        }
                    }
                    lemma_level_kept(head_a, towers_a, head_b, towers_b, order1, j);
                }
            }
            l += 1;
        }
        proof {
            let head2 = self.forwards@;
            let towers2 = self.towers();
            if new_level >= 1 {
                assert(self.entries() =~= before.entries().insert(ins, (key, value))) by {
                    assert forall|p: int| 0 <= p < order1.len() implies self.entries()[p]
                        == before.entries().insert(ins, (key, value))[p] by {
                        if p < ins {
                            before.lemma_at(p);
                        } else if p > ins {
                            before.lemma_at(p - 1);
                        }
                    }
                }
                assert(self.keys() =~= before.keys().insert(ins, key@));
                lemma_sorted_insert::<K>(before.keys(), key@);
                assert forall|p: int| 0 <= p < order1.len() implies 0 <= #[trigger] order1[p]
                    < towers2.len() && 1 <= heights(towers2, order1)[p] <= head2.len() by {
                    if p < ins {
                        before.lemma_at(p);
                    } else if p > ins {
                        before.lemma_at(p - 1);
                    }
                }
                assert(order1.no_duplicates()) by {
                    assert forall|p: int, r: int|
                        0 <= p < order1.len() && 0 <= r < order1.len() && p != r implies order1[p]
                        != order1[r] by {
                        let origin_p = if p < ins { p } else { p - 1 };
                        let origin_r = if r < ins { r } else { r - 1 };
                        if p != ins {
                            before.lemma_at(origin_p);
                        }
                        if r != ins {
                            before.lemma_at(origin_r);
                        }
                    }
                }
            } else {
                assert(self.entries() =~= before.entries()) by {
                    assert forall|p: int| 0 <= p < order0.len() implies self.entries()[p]
                        == before.entries()[p] by {
                        before.lemma_at(p);
                    }
                }
                assert(self.keys() =~= before.keys());
                assert forall|p: int| 0 <= p < order0.len() implies 0 <= #[trigger] order0[p]
                    < towers2.len() && 1 <= heights(towers2, order0)[p] <= head2.len() by {
                    before.lemma_at(p);
                }
            }
            assert(links::linked(head2, towers2, order1));
        }
    }
}

/// The key of the node at `i` of an arena that a node under `key` has
/// joined at its end.
spec fn arena_key<K, V>(nodes: Seq<Node<K, V>>, key: K, i: int) -> K {
    if i < nodes.len() {
        nodes[i].key
    } else {
        key
    }
}

/// The value of the node at `i` of an arena that a node with `value` has
/// joined at its end.
spec fn arena_value<K, V>(nodes: Seq<Node<K, V>>, value: V, i: int) -> V {
    if i < nodes.len() {
        nodes[i].value
    } else {
        value
    }
}

impl<K: TotalOrder, V, G> SkipListMap<K, V, G> {
    /// Inserts `value` under `key`, in a node of height `level` where the
    /// map lacks the key, and returns the value that the key had.
    ///
    /// A node of height 0 stands in no chain: with such a `level` a key
    /// that the map lacks is stored and cannot be reached, and the map is
    /// as before.
    pub fn insert_with_level(&mut self, key: K, value: V, level: usize) -> (r: Option<V>)
        requires
            old(self).wf(),
        ensures
            final(self).wf(),
            final(self).generator() == old(self).generator(),
            r == old(self).lookup(key@),
            final(self).entries() == if old(self).contains_key(key@) || level >= 1 {
                inserted(old(self).entries(), key, value)
            } else {
                old(self).entries()
            },
            final(self).spec_level() == if !old(self).contains_key(key@) && level > old(
                self,
            ).spec_level() {
                level as nat
            } else {
                old(self).spec_level()
            },
            old(self).contains_key(key@) || level >= 1 ==> final(self).lookup(key@) == Some(value),
            final(self).entries().len() == old(self).entries().len() + if !old(
                self,
            ).contains_key(key@) && level >= 1 {
                1int
            } else {
                0int
            },
            forall|other: K::V|
                other != key@ ==> #[trigger] final(self).lookup(other) == old(self).lookup(other),
    {
        let ghost held_key = key;
        let ghost held_value = value;
        let trace = self.search(&key);
        let r = match self.find(&trace, &key) {
            Some(id) => Some(self.swap_value(id, value, Ghost(self.rank(key@)))),
            None => {
                self.link(key, value, level, trace);
                None
            },
        };
        proof {
            assert forall|other: K::V| other != held_key@ implies #[trigger] self.lookup(other)
                == old(self).lookup(other) by {
                lemma_inserted(old(self).entries(), held_key, held_value, other);
            }
            lemma_inserted(old(self).entries(), held_key, held_value, held_key@);
        }
        r
    }
}

impl<K: TotalOrder, V, G: LevelGenerator> SkipListMap<K, V, G> {
    /// Inserts `value` under `key` and returns the value that the key had.
    ///
    /// The height of a new node comes from the generator. With a generator
    /// that hands out positive heights only, the key holds `value`
    /// afterwards; a height of 0 leaves a new key out of the map.
    pub fn insert(&mut self, key: K, value: V) -> (r: Option<V>)
        requires
            old(self).wf(),
        ensures
            final(self).wf(),
            r == old(self).lookup(key@),
            final(self).entries() == inserted(old(self).entries(), key, value) || (!old(
                self,
            ).contains_key(key@) && final(self).entries() == old(self).entries()),
            old(self).contains_key(key@) ==> final(self).generator() == old(self).generator(),
            old(self).generator().always_positive() ==> {
                &&& final(self).generator().always_positive()
                &&& final(self).entries() == inserted(old(self).entries(), key, value)
            },
            old(self).contains_key(key@) || old(self).generator().always_positive() ==> {
                &&& final(self).lookup(key@) == Some(value)
                &&& final(self).entries().len() == old(self).entries().len() + if old(
                    self,
                ).contains_key(key@) {
                    0int
                } else {
                    1int
                }
            },
            forall|other: K::V|
                other != key@ ==> #[trigger] final(self).lookup(other) == old(self).lookup(other),
    {
        let ghost held_key = key;
        let ghost held_value = value;
        let trace = self.search(&key);
        let r = match self.find(&trace, &key) {
            Some(id) => Some(self.swap_value(id, value, Ghost(self.rank(key@)))),
            None => {
                let new_level = self.generator.generate();
                proof {
                    assert(self.entries() =~= old(self).entries());
                    assert(self.towers() =~= old(self).towers());
                }
                self.link(key, value, new_level, trace);
                None
            },
        };
        proof {
            assert forall|other: K::V| other != held_key@ implies #[trigger] self.lookup(other)
                == old(self).lookup(other) by {
                lemma_inserted(old(self).entries(), held_key, held_value, other);
            }
            lemma_inserted(old(self).entries(), held_key, held_value, held_key@);
        }
        r
    }
}

impl<K: TotalOrder, V> SkipListMap<K, V, RandomLevelGenerator> {
    /// An empty map whose nodes climb one level more as often as not, up
    /// to `max_level`.
    pub fn new(max_level: usize) -> (list: Self)
        ensures
            list.wf(),
            list.entries() == Seq::<(K, V)>::empty(),
            list.generator().always_positive(),
            list.generator().spec_max_level() == max_level,
            list.generator().spec_threshold() == RandomLevelGenerator::HALF,
            list.spec_level() == 0,
    {
        Self::with_generator(
            max_level,
            RandomLevelGenerator::new(max_level, RandomLevelGenerator::HALF),
        )
    }
}

} // verus!
