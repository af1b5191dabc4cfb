use vstd::prelude::*;
use vstd::std_specs::cmp::PartialEqSpec;

verus! {

struct QueueNode<T> {
    data: Option<T>,
    next: Option<usize>,
}

impl<T> QueueNode<T> {
    fn new(data: T) -> (r: Self)
        ensures
            r.data == Some(data),
            r.next is None,
    {
        QueueNode { data: Some(data), next: None }
    }
}

/// FIFO queue with a permanent sentinel head, over a node arena. A dequeue
/// makes the first element's node the new sentinel; the displaced sentinel
/// is retained, never reclaimed, because without a hazard scheme another
/// reader could still hold it.
pub struct Queue<T> {
    nodes: Vec<QueueNode<T>>,
    head: usize,
    tail: usize,
    chain: Ghost<Seq<usize>>,
}

impl<T> Queue<T> {
    /// The elements, first to be dequeued first.
    pub closed spec fn view(&self) -> Seq<T> {
        Seq::new(
            (self.chain@.len() - 1) as nat,
            |i: int| self.nodes@[self.chain@[i + 1] as int].data->0,
        )
    }

    /// Number of arena nodes, the sentinel and retained ones included.
    pub closed spec fn node_count(&self) -> nat {
        self.nodes@.len()
    }

    /// Number of displaced sentinels the queue still holds.
    pub open spec fn retained(&self) -> int {
        self.node_count() - self@.len() - 1
    }

    pub closed spec fn wf(&self) -> bool {
        let chain = self.chain@;
        let nodes = self.nodes@;
        &&& 1 <= chain.len() <= nodes.len()
        &&& chain[0] == self.head
        &&& chain.last() == self.tail
        &&& forall|i: int| 0 <= i < chain.len() ==> #[trigger] chain[i] < nodes.len()
        &&& forall|i: int|
            #![trigger chain[i]]
            0 <= i < chain.len() ==> nodes[chain[i] as int].next == (if i + 1 < chain.len() {
                Some(chain[i + 1])
            } else {
                None::<usize>
            })
        &&& forall|i: int| 1 <= i < chain.len() ==> nodes[#[trigger] chain[i] as int].data is Some
        &&& forall|i: int, j: int| 0 <= i < j < chain.len() ==> chain[i] != chain[j]
    }

    pub fn new() -> (r: Self)
        ensures
            r.wf(),
            r@ == Seq::<T>::empty(),
            r.node_count() == 1,
    {
        let mut nodes: Vec<QueueNode<T>> = Vec::new();
        nodes.push(QueueNode { data: None, next: None });
        let ghost chain = seq![0usize];
        let r = Queue { nodes, head: 0, tail: 0, chain: Ghost(chain) };
        assert(r@ =~= Seq::<T>::empty());
        r
    }

    pub fn is_empty(&self) -> (r: bool)
        requires
            self.wf(),
        ensures
            r == (self@.len() == 0),
    {
        self.nodes[self.head].next.is_none()
    }

    /// Appends `data` behind the last element.
    pub fn enqueue(&mut self, data: T)
        requires
            old(self).wf(),
        ensures
            final(self).wf(),
            final(self)@ == old(self)@.push(data),
            final(self).node_count() == old(self).node_count() + 1,
    {
        let node = self.nodes.len();
        self.nodes.push(QueueNode::new(data));
        // The compare-and-swap of `tail` to the new node succeeds; the old
        // tail is then linked to it.
        let pre = self.tail;
        self.tail = node;
        self.nodes[pre].next = Some(node);
        proof {
            let old_chain = self.chain@;
            self.chain = Ghost(old_chain.push(node));
            assert forall|i: int| 0 <= i < old_chain.len() implies #[trigger] old_chain[i] != node by {}
            assert(self@ =~= old(self)@.push(data));
        }
    }

    /// Removes and returns the first element, or returns `None` when the
    /// queue is empty. The old sentinel stays in the arena.
    pub fn dequeue(&mut self) -> (r: Option<T>)
        requires
            old(self).wf(),
        ensures
            final(self).wf(),
            old(self)@.len() == 0 ==> r is None && final(self)@ == old(self)@,
            old(self)@.len() > 0 ==> r == Some(old(self)@[0]) && final(self)@ == old(
                self,
            )@.drop_first(),
            final(self).node_count() == old(self).node_count(),
    {
        let h = self.head;
        let first = self.nodes[h].next;
        match first {
            None => None,
            Some(f) => {
                // The compare-and-swap of `head` from `h` to `f` succeeds.
                self.head = f;
                let data = self.nodes[f].data.take();
                proof {
                    let old_chain = self.chain@;
                    self.chain = Ghost(old_chain.drop_first());
                    assert forall|i: int| 1 <= i < old_chain.len() implies #[trigger] old_chain[i]
                        != f || i == 1 by {}
                    assert forall|i: int| 0 <= i < self.chain@.len() implies #[trigger] self.chain@[i]
                        == old_chain[i + 1] by {}
                    assert(self@ =~= old(self)@.drop_first());
                }
                data
            },
        }
    }

    /// Number of elements, counted by walking from the sentinel.
    pub fn size(&self) -> (r: u32)
        requires
            self.wf(),
            self@.len() <= u32::MAX,
        ensures
            r == self@.len(),
    {
        let mut tmp = self.head;
        let mut count: u32 = 0;
        let ghost chain = self.chain@;
        loop
            invariant
                self.wf(),
                chain == self.chain@,
                self@.len() <= u32::MAX,
                0 <= count < chain.len(),
                tmp == chain[count as int],
            decreases chain.len() - count,
        {
            match self.nodes[tmp].next {
                None => {
                    return count;
                },
                Some(n) => {
                    tmp = n;
                    count = count + 1;
                },
            }
        }
    }

    /// Number of arena nodes, including the sentinel and every retained one.
    pub fn nodes_in_use(&self) -> (r: usize)
        ensures
            r == self.node_count(),
    {
        self.nodes.len()
    }

    /// The elements in queue order, by reference.
    pub fn elements(&self) -> (r: Vec<&T>)
        requires
            self.wf(),
        ensures
            r@.len() == self@.len(),
            forall|i: int| 0 <= i < r@.len() ==> *r@[i] == self@[i],
    {
        let mut out: Vec<&T> = Vec::new();
        let mut cur = self.nodes[self.head].next;
        let ghost mut k: int = 1;
        let ghost chain = self.chain@;
        while cur.is_some()
            invariant
                self.wf(),
                chain == self.chain@,
                1 <= k <= chain.len(),
                cur == (if k < chain.len() { Some(chain[k]) } else { None::<usize> }),
                out@.len() == k - 1,
                forall|i: int| 0 <= i < k - 1 ==> *out@[i] == self@[i],
            decreases chain.len() - k,
        {
            let n = cur.unwrap();
            let d = self.nodes[n].data.as_ref().unwrap();
            out.push(d);
            cur = self.nodes[n].next;
            proof {
                k = k + 1;
            }
        }
        out
    }
}

impl<T: PartialEq> Queue<T> {
    /// Whether some element equals `other`.
    pub fn contain(&self, other: &T) -> (r: bool)
        requires
            self.wf(),
        ensures
            T::obeys_eq_spec() ==> r == exists|i: int|
                0 <= i < self@.len() && #[trigger] self@[i].eq_spec(other),
    {
        let mut cur = self.nodes[self.head].next;
        let ghost mut k: int = 1;
        let ghost chain = self.chain@;
        while cur.is_some()
            invariant
                self.wf(),
                chain == self.chain@,
                1 <= k <= chain.len(),
                cur == (if k < chain.len() { Some(chain[k]) } else { None::<usize> }),
                T::obeys_eq_spec() ==> forall|i: int| 0 <= i < k - 1 ==> !#[trigger] self@[i].eq_spec(other),
            decreases chain.len() - k,
        {
            let n = cur.unwrap();
            let d = self.nodes[n].data.as_ref().unwrap();
            assert(*d == self@[k - 1]);
            if d.eq(other) {
                return true;
            }
            cur = self.nodes[n].next;
            proof {
                k = k + 1;
            }
        }
        false
    }
}

/// A dequeue hands out the first element and keeps every node: the arena
/// never shrinks, and each dequeue of an element retains one more displaced
/// sentinel.
pub proof fn lemma_dequeue_retains<T>(before: &Queue<T>, after: &Queue<T>)
    requires
        after.wf(),
        before@.len() > 0,
        after@ == before@.drop_first(),
        after.node_count() == before.node_count(),
    ensures
        after.retained() == before.retained() + 1,
        after.retained() >= 0,
{
}

} // verus!
