use vstd::prelude::*;

use crate::history::{after, returned, Op};

verus! {

/// One slot of the arena: the index of the next node in the chain, if any,
/// and the value it carries. The sentinel carries none.
struct Node<T> {
    next: Option<usize>,
    value: Option<T>,
}

impl<T> Node<T> {
    fn new(value: T) -> (r: Node<T>)
        ensures
            r.next.is_none(),
            r.value == Some(value),
    {
        Node { next: None, value: Some(value) }
    }

    fn sentinel() -> (r: Node<T>)
        ensures
            r.next.is_none(),
            r.value.is_none(),
    {
        Node { next: None, value: None }
    }
}

/// A FIFO queue. `head` is the sentinel: the first pending value, if any,
/// sits in the node after it. `tail` is the last node of the chain. Every
/// operation takes `&mut self`, so the links change under one caller at a
/// time and `tail` never lags behind the last node.
pub struct Queue<T> {
    nodes: Vec<Node<T>>,
    head: usize,
    tail: usize,
    free: Vec<usize>,
    /// The indices of the chain's nodes, from the sentinel to the last node.
    chain: Ghost<Seq<usize>>,
}

impl<T> Queue<T> {
    /// The chain links the nodes it lists, from `head` to `tail`, each node
    /// once; every node after the sentinel holds a value; the free slots are
    /// distinct and none of them is on the chain; every slot of the arena is
    /// on the chain or free.
    pub closed spec fn wf(&self) -> bool {
        let c = self.chain@;
        let n = self.nodes@;
        &&& c.len() >= 1
        &&& n.len() == c.len() + self.free@.len()
        &&& c[0] == self.head
        &&& c.last() == self.tail
        &&& forall|i: int| 0 <= i < c.len() ==> #[trigger] c[i] < n.len()
        &&& forall|i: int, j: int| 0 <= i < j < c.len() ==> c[i] != c[j]
        &&& forall|i: int| 0 <= i < c.len() - 1 ==> n[#[trigger] c[i] as int].next == Some(c[i + 1])
        &&& n[self.tail as int].next.is_none()
        &&& forall|i: int| 1 <= i < c.len() ==> n[#[trigger] c[i] as int].value.is_some()
        &&& forall|k: int| 0 <= k < self.free@.len() ==> #[trigger] self.free@[k] < n.len()
        &&& forall|k: int, l: int| 0 <= k < l < self.free@.len() ==> self.free@[k] != self.free@[l]
        &&& forall|k: int, i: int| 0 <= k < self.free@.len() && 0 <= i < c.len()
            ==> #[trigger] self.free@[k] != #[trigger] c[i]
    }

    /// The pending values, oldest first.
    pub closed spec fn view(&self) -> Seq<T> {
        Seq::new((self.chain@.len() - 1) as nat, |i: int| self.nodes@[self.chain@[i + 1] as int].value->0)
    }

    /// How many node slots the arena holds: the sentinel, the nodes of the
    /// pending values, and the free slots kept for reuse.
    pub closed spec fn slots(&self) -> nat {
        self.nodes@.len()
    }

    /// A queue with no pending value: one sentinel, which is both head and tail.
    pub fn new() -> (r: Queue<T>)
        ensures
            r.wf(),
            r@ == Seq::<T>::empty(),
            r.slots() == 1,
    {
        let mut nodes: Vec<Node<T>> = Vec::new();
        nodes.push(Node::sentinel());
        let ghost chain = seq![0usize];
        let r = Queue { nodes, head: 0, tail: 0, free: Vec::new(), chain: Ghost(chain) };
        assert(r@ =~= Seq::<T>::empty());
        r
    }
    /// How many node slots the arena holds.
    pub fn slot_count(&self) -> (r: usize)
        ensures
            r == self.slots(),
    {
        self.nodes.len()
    }

    /// Appends `value` after the last pending value. The node for it takes a
    /// slot from the free list where one is there, else a new slot.
    pub fn enqueue(&mut self, value: T)
        requires
            old(self).wf(),
        ensures
            final(self).wf(),
            final(self)@ == old(self)@.push(value),
            final(self)@ == after(old(self)@, Op::Enqueue(value)),
            final(self).slots() == if old(self).slots() > old(self)@.len() + 1 {
                old(self).slots()
            } else {
                old(self).slots() + 1
            },
    {
        let ghost c = self.chain@;
        let ghost pre = self@;
        let idx: usize = match self.free.pop() {
            Some(i) => {
                self.nodes[i] = Node::new(value);
                i
            },
            None => {
                self.nodes.push(Node::new(value));
                self.nodes.len() - 1
            },
        };
        assert(forall|i: int| 0 <= i < c.len() ==> c[i] != idx);
        let last = self.tail;
        self.nodes[last].next = Some(idx);
        self.tail = idx;
        self.chain = Ghost(c.push(idx));
        assert forall|i: int| 1 <= i < self.chain@.len() implies self.nodes@[#[trigger] self.chain@[i] as int].value.is_some() by {
            if i < c.len() {
                assert(self.chain@[i] == c[i]);
            }
        }
        assert(self@ =~= pre.push(value));
    }

    /// Takes out the oldest pending value, or gives `None` where nothing is
    /// pending. The node that held the value goes on the free list.
    pub fn dequeue(&mut self) -> (r: Option<T>)
        requires
            old(self).wf(),
        ensures
            final(self).wf(),
            final(self).slots() == old(self).slots(),
            old(self)@.len() == 0 ==> r.is_none() && final(self)@ == old(self)@,
            old(self)@.len() > 0 ==> r == Some(old(self)@[0]) && final(self)@ == old(self)@.drop_first(),
            r == returned(old(self)@, Op::Dequeue),
            final(self)@ == after(old(self)@, Op::Dequeue),
    {
        let ghost c = self.chain@;
        let ghost pre = self@;
        let h = self.head;
        let t = self.tail;
        if h == t {
            assert(c.len() == 1) by {
                if c.len() > 1 {
                    assert(c[0] != c[c.len() - 1]);
                }
            }
            return None;
        }
        let first = self.nodes[h].next;
        assert(c.len() > 1);
        assert(first == Some(c[1]));
        let f = first.unwrap();
        let second = self.nodes[f].next;
        self.nodes[h].next = second;
        if second.is_none() {
            self.tail = h;
        }
        let v = self.nodes[f].value.take();
        self.nodes[f].next = None;
        self.free.push(f);
        self.chain = Ghost(seq![h].add(c.subrange(2, c.len() as int)));
        assert(self@ =~= pre.drop_first());
        v
    }
}

} // verus!
