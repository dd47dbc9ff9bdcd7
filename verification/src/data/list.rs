//! A doubly linked list whose nodes live in one growing array and refer to
//! each other by index.
//!
//! Nodes are never removed and never move, so an index stays valid once it
//! has been handed out. The order of the list is the order in which the
//! `next` links walk it from node zero, which is in general not the order of
//! the array.

use vstd::prelude::*;

verus! {

/// The link of a node that has no neighbour on that side.
pub const EMPTY_REF: u32 = u32::MAX;

/// One element of the list with the indices of its neighbours.
#[derive(Debug)]
pub struct Node<T> {
    pub prev: u32,
    pub next: u32,
    pub item: T,
}

/// The list. Its view is the sequence of items in list order.
pub struct LinkList<T> {
    nodes: Vec<Node<T>>,
    order: Ghost<Seq<u32>>,
    rank: Ghost<Seq<int>>,
}

impl<T> View for LinkList<T> {
    type V = Seq<T>;

    closed spec fn view(&self) -> Seq<T> {
        Seq::new(self.nodes@.len(), |i: int| self.nodes@[self.order@[i] as int].item)
    }
}

impl<T> LinkList<T> {
    /// The indices of the nodes in list order.
    pub closed spec fn order(&self) -> Seq<u32> {
        self.order@
    }

    /// The place of node `index` in list order.
    pub closed spec fn position(&self, index: u32) -> int {
        self.rank@[index as int]
    }

    /// The number of nodes.
    pub closed spec fn spec_len(&self) -> nat {
        self.nodes@.len()
    }

    /// The index of the node before node `index`, or `EMPTY_REF`.
    pub open spec fn spec_prev(&self, index: u32) -> u32 {
        if self.position(index) > 0 {
            self.order()[self.position(index) - 1]
        } else {
            EMPTY_REF
        }
    }

    /// The index of the node after node `index`, or `EMPTY_REF`.
    pub open spec fn spec_next(&self, index: u32) -> u32 {
        if self.position(index) + 1 < self.spec_len() {
            self.order()[self.position(index) + 1]
        } else {
            EMPTY_REF
        }
    }

    /// The links of the nodes agree with the list order, every node is on the
    /// list exactly once, and node zero is its head.
    pub closed spec fn wf(&self) -> bool {
        let n = self.nodes@.len();
        &&& n <= EMPTY_REF
        &&& self.order@.len() == n
        &&& self.rank@.len() == n
        &&& forall|i: int| 0 <= i < n ==> 0 <= (#[trigger] self.order@[i]) < n && self.rank@[self.order@[i] as int] == i
        &&& forall|j: int| 0 <= j < n ==> 0 <= (#[trigger] self.rank@[j]) < n && self.order@[self.rank@[j]] == j
        &&& n > 0 ==> self.order@[0] == 0
        &&& forall|j: int| 0 <= j < n ==> (#[trigger] self.nodes@[j]).prev == self.spec_prev(j as u32)
        &&& forall|j: int| 0 <= j < n ==> (#[trigger] self.nodes@[j]).next == self.spec_next(j as u32)
    }

    /// What well-formedness says of the list order: it lists every node
    /// once, `position` is its inverse, and it starts at node zero.
    pub proof fn lemma_order(&self)
        requires
            self.wf(),
        ensures
            self.spec_len() <= EMPTY_REF,
            self.order().len() == self.spec_len(),
            self@.len() == self.spec_len(),
            forall|i: int| 0 <= i < self.spec_len() ==> 0 <= (#[trigger] self.order()[i]) < self.spec_len()
                && self.position(self.order()[i]) == i,
            forall|j: u32| 0 <= j < self.spec_len() ==> 0 <= (#[trigger] self.position(j)) < self.spec_len()
                && self.order()[self.position(j)] == j,
            self.spec_len() > 0 ==> self.order()[0] == 0,
    {
        assert forall|j: u32| 0 <= j < self.spec_len() implies 0 <= (#[trigger] self.position(j)) < self.spec_len()
            && self.order()[self.position(j)] == j by {
            assert(0 <= self.rank@[j as int] < self.nodes@.len());
        }
    }

    /// The number of nodes.
    pub fn len(&self) -> (n: usize)
        ensures
            n == self.spec_len(),
    {
        self.nodes.len()
    }
}

impl<T: Copy> LinkList<T> {
    /// The list of `items`, node `i` holding item `i`.
    pub fn new(items: Vec<T>) -> (list: Self)
        requires
            items.len() <= EMPTY_REF,
        ensures
            list.wf(),
            list@ == items@,
            list.spec_len() == items.len(),
            forall|i: int| 0 <= i < items.len() ==> list.order()[i] == i,
    {
        let n = items.len();
        let mut nodes: Vec<Node<T>> = Vec::with_capacity(n);
        let mut i: usize = 0;
        while i < n
            invariant
                n == items.len(),
                n <= EMPTY_REF,
                i <= n,
                nodes.len() == i,
                forall|j: int| 0 <= j < i ==> (#[trigger] nodes@[j]).item == items@[j],
                forall|j: int| 0 <= j < i ==> (#[trigger] nodes@[j]).prev == (if j == 0 { EMPTY_REF } else { (j - 1) as u32 }),
                forall|j: int| 0 <= j < i ==> (#[trigger] nodes@[j]).next == (if j + 1 == n { EMPTY_REF } else { (j + 1) as u32 }),
            decreases n - i,
        {
            let prev: u32 = if i == 0 {
                EMPTY_REF
            } else {
                (i - 1) as u32
            };
            let next: u32 = if i + 1 == n {
                EMPTY_REF
            } else {
                (i + 1) as u32
            };
            nodes.push(Node { prev, next, item: items[i] });
            i += 1;
        }
        let list = Self {
            nodes,
            order: Ghost(Seq::new(n as nat, |i: int| i as u32)),
            rank: Ghost(Seq::new(n as nat, |i: int| i)),
        };
        proof {
            assert(list@ =~= items@);
        }
        list
    }

    /// The node at `index` of the array.
    pub fn get(&self, index: u32) -> (node: &Node<T>)
        requires
            self.wf(),
            index < self.spec_len(),
        ensures
            node.item == self@[self.position(index)],
            node.prev == self.spec_prev(index),
            node.next == self.spec_next(index),
    {
        &self.nodes[index as usize]
    }

    /// Replaces the item of node `index` by `a` and puts a new node with item
    /// `b` right after it in list order. Returns the index of the node and
    /// that of the new node, which is the old number of nodes.
    pub fn split_at(&mut self, index: u32, a: T, b: T) -> (pair: (u32, u32))
        requires
            old(self).wf(),
            index < old(self).spec_len(),
            old(self).spec_len() < EMPTY_REF,
        ensures
            final(self).wf(),
            pair.0 == index,
            pair.1 == old(self).spec_len(),
            final(self).spec_len() == old(self).spec_len() + 1,
            final(self)@ == old(self)@.update(old(self).position(index), a).insert(
                old(self).position(index) + 1,
                b,
            ),
            final(self).order() == old(self).order().insert(old(self).position(index) + 1, pair.1),
            final(self).position(pair.1) == old(self).position(index) + 1,
            forall|j: u32|
                j < old(self).spec_len() ==> #[trigger] final(self).position(j) == old(self).position(j)
                    + if old(self).position(j) > old(self).position(index) {
                    1int
                } else {
                    0int
                },
    {
        let new_index: u32 = self.nodes.len() as u32;
        let ghost old_order = self.order@;
        let ghost old_rank = self.rank@;
        let ghost old_nodes = self.nodes@;
        let ghost p = self.rank@[index as int];
        let prev: u32 = self.nodes[index as usize].prev;
        let next: u32 = self.nodes[index as usize].next;
        self.nodes.set(index as usize, Node { prev, next: new_index, item: a });
        self.nodes.push(Node { prev: index, next, item: b });
        if next != EMPTY_REF {
            let after_next: u32 = self.nodes[next as usize].next;
            let after_item: T = self.nodes[next as usize].item;
            self.nodes.set(next as usize, Node { prev: new_index, next: after_next, item: after_item });
        }
        proof {
            self.order = Ghost(old_order.insert(p + 1, new_index));
            self.rank = Ghost(
                Seq::new(
                    (old_nodes.len() + 1) as nat,
                    |j: int|
                        if j == new_index {
                            p + 1
                        } else if old_rank[j] > p {
                            old_rank[j] + 1
                        } else {
                            old_rank[j]
                        },
                ),
            );
        }
        (index, new_index)
    }

    /// The items in list order, found by walking the links from node zero.
    pub fn items(&self) -> (items: Vec<T>)
        requires
            self.wf(),
        ensures
            items@ == self@,
    {
        let mut items: Vec<T> = Vec::new();
        let mut index: u32 = if self.nodes.len() == 0 {
            EMPTY_REF
        } else {
            0
        };
        while index != EMPTY_REF
            invariant
                self.wf(),
                items@.len() <= self.nodes@.len(),
                items@ == self@.take(items@.len() as int),
                index == if items@.len() < self.nodes@.len() {
                    self.order@[items@.len() as int]
                } else {
                    EMPTY_REF
                },
            decreases self.nodes@.len() - items@.len(),
        {
            let node = &self.nodes[index as usize];
            proof {
                assert(self@.take(items@.len() as int + 1) =~= self@.take(items@.len() as int).push(node.item));
            }
            items.push(node.item);
            index = node.next;
        }
        proof {
            assert(self@.take(items@.len() as int) =~= self@);
        }
        items
    }
}

} // verus!
