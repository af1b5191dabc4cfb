use vstd::multiset::Multiset;
use vstd::prelude::*;

verus! {

/// Where a slot of a stack's node arena currently belongs.
pub enum NodeState {
    /// Linked into the stack below `top`.
    OnStack,
    /// Unlinked, waiting on the pending-delete list.
    Pending,
    /// Reclaimed: the slot may be handed out again by `push`.
    Free,
    /// Unlinked by the pop with the given ticket, not yet reclaimed.
    Detached(u64),
    /// Taken off the pending-delete list by the pop with the given ticket,
    /// to be reclaimed or put back.
    Claimed(u64),
}

struct StackNode<T> {
    data: Option<T>,
    next: Option<usize>,
}

impl<T> StackNode<T> {
    fn new(data: T) -> (r: Self)
        ensures
            r.data == Some(data),
            r.next is None,
    {
        StackNode { data: Some(data), next: None }
    }
}

/// Progress of one pop between its steps.
#[derive(Clone, Copy)]
enum PopPhase {
    /// `top` was loaded; the node, if any, is about to be read.
    Loaded { node: Option<usize> },
    /// The loaded node's successor was read; a compare-and-swap comes next.
    Observed { slot: usize, next: Option<usize> },
    /// The pop has unlinked `node` (or found the stack empty).
    Unlinked { node: Option<usize> },
    /// The pop was alone and took the pending-delete list `list`, starting
    /// at `claimed`; the hazard counter is still to be lowered.
    Reclaiming { node: Option<usize>, claimed: Option<usize>, list: Ghost<Seq<usize>> },
}

/// Where a pop in progress stands.
pub enum PopStage {
    /// Loading `top` or trying to unlink it.
    Unlinking,
    /// Unlinked (or found the stack empty); `Stack::end_pop` comes next.
    Unlinked,
    /// Alone when it ended, it took the pending-delete list;
    /// `Stack::finish_reclaim` comes next.
    Reclaiming,
}

spec fn stage(p: PopPhase) -> PopStage {
    match p {
        PopPhase::Loaded { .. } => PopStage::Unlinking,
        PopPhase::Observed { .. } => PopStage::Unlinking,
        PopPhase::Unlinked { .. } => PopStage::Unlinked,
        PopPhase::Reclaiming { .. } => PopStage::Reclaiming,
    }
}

#[derive(Clone, Copy)]
struct Popper {
    id: u64,
    phase: PopPhase,
}

/// Handle of a pop in progress, issued by `Stack::begin_pop`.
pub struct PopTicket {
    id: u64,
}

impl PopTicket {
    pub closed spec fn id(&self) -> u64 {
        self.id
    }
}

/// Outcome of one step of a pop.
pub enum PopStep<T> {
    /// The step changed the pop's progress but did not finish it.
    Continue,
    /// The pop has finished unlinking: the top element, or `None` when the
    /// stack was empty. `Stack::end_pop` must follow.
    Done(Option<T>),
}

/// Treiber stack over a node arena, with a threads-in-pop hazard counter
/// and a pending-delete list that defers reclaiming a node while another
/// pop may still read it.
///
/// `push` and `pop` are whole operations. A pop can also be run one atomic
/// step at a time, so that pops of several threads interleave:
/// `begin_pop` raises the hazard counter and loads `top`; `pop_step`
/// reads the loaded node's successor, then tries the compare-and-swap
/// (loading `top` again when it fails); `end_pop` and, for a pop that was
/// alone, `finish_reclaim` decide what may be reclaimed. Pushes may come
/// between any two steps.
pub struct Stack<T> {
    nodes: Vec<StackNode<T>>,
    free: Vec<usize>,
    top: Option<usize>,
    threads_in_pop: u32,
    to_be_delete: Option<usize>,
    poppers: Vec<Popper>,
    next_ticket: u64,
    chain: Ghost<Seq<usize>>,
    pending: Ghost<Seq<usize>>,
    states: Ghost<Seq<NodeState>>,
}

/// `list` is a null-terminated chain through `nodes` starting at `head`,
/// without repeated slots.
spec fn linked<T>(nodes: Seq<StackNode<T>>, list: Seq<usize>, head: Option<usize>) -> bool {
    &&& head == (if list.len() > 0 { Some(list[0]) } else { None::<usize> })
    &&& forall|i: int| 0 <= i < list.len() ==> #[trigger] list[i] < nodes.len()
    &&& forall|i: int|
        #![trigger nodes[list[i] as int]]
        0 <= i < list.len() ==> nodes[list[i] as int].next == (if i + 1 < list.len() {
            Some(list[i + 1])
        } else {
            None::<usize>
        })
    &&& forall|i: int, j: int| 0 <= i < j < list.len() ==> list[i] != list[j]
}

/// Whether slot `k` occurs in `list`.
spec fn in_list(list: Seq<usize>, k: int) -> bool {
    exists|j: int| 0 <= j < list.len() && list[j] as int == k
}

/// Number of unlinked, unreclaimed nodes that the pops in `ps` hold.
spec fn holding(ps: Seq<Popper>) -> nat
    decreases ps.len(),
{
    if ps.len() == 0 {
        0
    } else {
        holding(ps.drop_last()) + held(ps.last())
    }
}

spec fn reads(p: Popper, k: int) -> bool {
    match p.phase {
        PopPhase::Loaded { node } => node is Some && node->0 == k,
        PopPhase::Observed { slot, next } => slot == k,
        PopPhase::Unlinked { .. } => false,
        PopPhase::Reclaiming { .. } => false,
    }
}

/// Number of unlinked, unreclaimed nodes that pop `p` is responsible for.
spec fn held(p: Popper) -> nat {
    match p.phase {
        PopPhase::Unlinked { node } => if node is Some {
            1
        } else {
            0
        },
        PopPhase::Reclaiming { node, claimed, list } => list@.len() + if node is Some {
            1nat
        } else {
            0nat
        },
        _ => 0,
    }
}

/// The node that pop `p` will reclaim whatever other pops do.
spec fn guards(p: Popper) -> Option<usize> {
    match p.phase {
        PopPhase::Reclaiming { node, claimed, list } => node,
        _ => None,
    }
}

proof fn lemma_holding_push(ps: Seq<Popper>, p: Popper)
    ensures
        holding(ps.push(p)) == holding(ps) + held(p),
{
    assert(ps.push(p).drop_last() =~= ps);
}

proof fn lemma_holding_update(ps: Seq<Popper>, i: int, p: Popper)
    requires
        0 <= i < ps.len(),
    ensures
        holding(ps.update(i, p)) + held(ps[i]) == holding(ps) + held(p),
    decreases ps.len(),
{
    if i == ps.len() - 1 {
        assert(ps.update(i, p).drop_last() =~= ps.drop_last());
    } else {
        lemma_holding_update(ps.drop_last(), i, p);
        assert(ps.update(i, p).drop_last() =~= ps.drop_last().update(i, p));
    }
}

proof fn lemma_holding_remove(ps: Seq<Popper>, i: int)
    requires
        0 <= i < ps.len(),
    ensures
        holding(ps.remove(i)) + held(ps[i]) == holding(ps),
    decreases ps.len(),
{
    if i == ps.len() - 1 {
        assert(ps.remove(i) =~= ps.drop_last());
    } else {
        lemma_holding_remove(ps.drop_last(), i);
        assert(ps.remove(i).drop_last() =~= ps.drop_last().remove(i));
    }
}



/// `linked` survives any change of `nodes` that keeps the links of `list`.
proof fn lemma_linked_frame<T>(
    a: Seq<StackNode<T>>,
    b: Seq<StackNode<T>>,
    list: Seq<usize>,
    head: Option<usize>,
)
    requires
        linked(a, list, head),
        a.len() <= b.len(),
        forall|k: int| 0 <= k < list.len() ==> b[#[trigger] list[k] as int].next == a[list[k] as int].next,
    ensures
        linked(b, list, head),
{
    assert forall|i: int| 0 <= i < list.len() implies #[trigger] b[list[i] as int].next == (if i + 1
        < list.len() {
        Some(list[i + 1])
    } else {
        None::<usize>
    }) by {
        assert(b[list[i] as int].next == a[list[i] as int].next);
    }
}

/// Reclaims every node of the chain `list` that starts at `first`, in chain
/// order.
fn drop_nodes<T>(
    nodes: &Vec<StackNode<T>>,
    free: &mut Vec<usize>,
    first: Option<usize>,
    Ghost(list): Ghost<Seq<usize>>,
)
    requires
        linked(nodes@, list, first),
    ensures
        final(free)@ == old(free)@ + list,
{
    let mut cur = first;
    let ghost mut k: int = 0;
    while cur.is_some()
        invariant
            linked(nodes@, list, first),
            0 <= k <= list.len(),
            cur == (if k < list.len() { Some(list[k]) } else { None::<usize> }),
            free@ == old(free)@ + list.subrange(0, k),
        decreases list.len() - k,
    {
        let n = cur.unwrap();
        let next = nodes[n].next;
        free.push(n);
        proof {
            assert(list.subrange(0, k + 1) =~= list.subrange(0, k).push(n));
            k = k + 1;
        }
        cur = next;
    }
    assert(list.subrange(0, k) =~= list);
}


/// Length of the chain `list` that starts at `first`, counted by walking it.
fn count_chain<T>(nodes: &Vec<StackNode<T>>, first: Option<usize>, Ghost(list): Ghost<Seq<usize>>) -> (r: usize)
    requires
        linked(nodes@, list, first),
        list.len() <= nodes@.len(),
    ensures
        r == list.len(),
{
    let slots = nodes.len();
    let mut cur = first;
    let mut count: usize = 0;
    let ghost mut k: int = 0;
    while cur.is_some()
        invariant
            linked(nodes@, list, first),
            list.len() <= slots,
            0 <= k <= list.len(),
            count == k,
            cur == (if k < list.len() { Some(list[k]) } else { None::<usize> }),
        decreases list.len() - k,
    {
        let n = cur.unwrap();
        cur = nodes[n].next;
        count = count + 1;
        proof {
            k = k + 1;
        }
    }
    count
}

impl<T> Stack<T> {
    /// The elements, top first.
    pub closed spec fn view(&self) -> Seq<T> {
        Seq::new(self.chain@.len(), |i: int| self.nodes@[self.chain@[i] as int].data->0)
    }

    /// Number of pops in progress (the hazard counter).
    pub closed spec fn popping(&self) -> nat {
        self.threads_in_pop as nat
    }

    /// Whether `t` belongs to a pop in progress on this stack.
    pub closed spec fn holds_ticket(&self, t: PopTicket) -> bool {
        exists|i: int| 0 <= i < self.poppers@.len() && self.poppers@[i].id == t.id
    }

    /// Whether the pop of `t`, if in progress, stands at stage `k`.
    pub closed spec fn in_stage(&self, t: PopTicket, k: PopStage) -> bool {
        forall|i: int|
            0 <= i < self.poppers@.len() && self.poppers@[i].id == t.id ==> stage(
                #[trigger] self.poppers@[i].phase,
            ) == k
    }

    /// Whether the pop of `t` has just loaded the current `top`.
    pub closed spec fn loaded_top(&self, t: PopTicket) -> bool {
        forall|i: int|
            0 <= i < self.poppers@.len() && self.poppers@[i].id == t.id
                ==> #[trigger] self.poppers@[i].phase == PopPhase::Loaded { node: self.top }
    }

    /// Whether the pop of `t` has loaded `top` from an empty stack.
    pub closed spec fn loaded_empty(&self, t: PopTicket) -> bool {
        forall|i: int|
            0 <= i < self.poppers@.len() && self.poppers@[i].id == t.id
                ==> #[trigger] self.poppers@[i].phase == PopPhase::Loaded { node: None }
    }

    /// Whether the pop of `t` has read the successor of the current `top`.
    pub closed spec fn observed_top(&self, t: PopTicket) -> bool {
        forall|i: int|
            0 <= i < self.poppers@.len() && self.poppers@[i].id == t.id ==> (
            #[trigger] self.poppers@[i].phase is Observed && self.top == Some(
                self.poppers@[i].phase->slot,
            ))
    }


    /// The record of the pop of `t`, while `t` is held.
    spec fn popper_of(&self, t: PopTicket) -> Popper {
        self.poppers@[choose|i: int| 0 <= i < self.poppers@.len() && self.poppers@[i].id == t.id]
    }

    /// Whether the pop of `t` unlinked a node that it has not yet reclaimed
    /// or put on the pending-delete list.
    pub closed spec fn unlinked_node(&self, t: PopTicket) -> bool {
        match self.popper_of(t).phase {
            PopPhase::Unlinked { node } => node is Some,
            PopPhase::Reclaiming { node, .. } => node is Some,
            _ => false,
        }
    }

    /// Length of the pending-delete list that the pop of `t` took.
    pub closed spec fn claimed_len(&self, t: PopTicket) -> nat {
        match self.popper_of(t).phase {
            PopPhase::Reclaiming { list, .. } => list@.len(),
            _ => 0,
        }
    }

    /// Whether the pop of `t` read a successor of a node that is no longer
    /// on top, so that its compare-and-swap must fail.
    pub closed spec fn observed_stale(&self, t: PopTicket) -> bool {
        forall|i: int|
            0 <= i < self.poppers@.len() && self.poppers@[i].id == t.id ==> (
            #[trigger] self.poppers@[i].phase is Observed && self.top != Some(
                self.poppers@[i].phase->slot,
            ))
    }

    proof fn lemma_popper_of(&self, t: PopTicket, i: int)
        requires
            0 <= i < self.poppers@.len(),
            self.poppers@[i].id == t.id,
            forall|j: int, k: int|
                0 <= j < k < self.poppers@.len() ==> self.poppers@[j].id != self.poppers@[k].id,
        ensures
            self.popper_of(t) == self.poppers@[i],
    {
        let j = choose|j: int| 0 <= j < self.poppers@.len() && self.poppers@[j].id == t.id;
        if j < i {
            assert(self.poppers@[j].id != self.poppers@[i].id);
        } else if j > i {
            assert(self.poppers@[i].id != self.poppers@[j].id);
        }
    }


    proof fn lemma_same_record(a: &Self, b: &Self, u: PopTicket, i: int, j: int)
        requires
            0 <= i < a.poppers@.len(),
            0 <= j < b.poppers@.len(),
            a.poppers@[i].id == u.id,
            b.poppers@[j] == a.poppers@[i],
            forall|x: int, y: int|
                0 <= x < y < a.poppers@.len() ==> a.poppers@[x].id != a.poppers@[y].id,
            forall|x: int, y: int|
                0 <= x < y < b.poppers@.len() ==> b.poppers@[x].id != b.poppers@[y].id,
        ensures
            b.unlinked_node(u) == a.unlinked_node(u),
            b.claimed_len(u) == a.claimed_len(u),
            a.holds_ticket(u),
            b.holds_ticket(u),
            b.top == a.top ==> (b.loaded_top(u) == a.loaded_top(u) && b.observed_top(u)
                == a.observed_top(u)),
    {
        a.lemma_popper_of(u, i);
        b.lemma_popper_of(u, j);
        assert forall|x: int| 0 <= x < a.poppers@.len() && a.poppers@[x].id == u.id implies x == i by {
            if x < i {
                assert(a.poppers@[x].id != a.poppers@[i].id);
            } else if x > i {
                assert(a.poppers@[i].id != a.poppers@[x].id);
            }
        }
        assert forall|x: int| 0 <= x < b.poppers@.len() && b.poppers@[x].id == u.id implies x == j by {
            if x < j {
                assert(b.poppers@[x].id != b.poppers@[j].id);
            } else if x > j {
                assert(b.poppers@[j].id != b.poppers@[x].id);
            }
        }
    }


    /// Every pop other than the one with ticket number `id` keeps its
    /// record across a step from `a` to `b` that moves record `x` to
    /// position `f(x)`.
    proof fn lemma_others_kept(a: &Self, b: &Self, id: u64, f: spec_fn(int) -> int)
        requires
            forall|x: int, y: int|
                0 <= x < y < a.poppers@.len() ==> a.poppers@[x].id != a.poppers@[y].id,
            forall|x: int, y: int|
                0 <= x < y < b.poppers@.len() ==> b.poppers@[x].id != b.poppers@[y].id,
            forall|x: int|
                0 <= x < a.poppers@.len() && a.poppers@[x].id != id ==> 0 <= #[trigger] f(x)
                    < b.poppers@.len() && b.poppers@[f(x)] == a.poppers@[x],
        ensures
            forall|u: PopTicket|
                u.id() != id && a.holds_ticket(u) ==> #[trigger] b.unlinked_node(u) == a.unlinked_node(u),
            forall|u: PopTicket|
                u.id() != id && a.holds_ticket(u) ==> #[trigger] b.claimed_len(u) == a.claimed_len(u),
            forall|u: PopTicket|
                u.id() != id && a.holds_ticket(u) && b.top == a.top ==> (a.loaded_top(u)
                    ==> #[trigger] b.loaded_top(u)),
            forall|u: PopTicket|
                u.id() != id && a.holds_ticket(u) && b.top == a.top ==> (a.observed_top(u)
                    ==> #[trigger] b.observed_top(u)),
    {
        assert forall|u: PopTicket| u.id() != id && a.holds_ticket(u) implies #[trigger] b.unlinked_node(u)
            == a.unlinked_node(u) && b.claimed_len(u) == a.claimed_len(u) && (b.top == a.top ==> (
        a.loaded_top(u) ==> b.loaded_top(u)) && (a.observed_top(u) ==> b.observed_top(u))) by {
            let x = choose|x: int| 0 <= x < a.poppers@.len() && a.poppers@[x].id == u.id;
            assert(0 <= f(x) < b.poppers@.len());
            Self::lemma_same_record(a, b, u, x, f(x));
        }
        assert forall|u: PopTicket| u.id() != id && a.holds_ticket(u) implies #[trigger] b.claimed_len(u)
            == a.claimed_len(u) by {
            assert(b.unlinked_node(u) == a.unlinked_node(u));
        }
        assert forall|u: PopTicket|
            u.id() != id && a.holds_ticket(u) && b.top == a.top && a.loaded_top(u) implies #[trigger] b.loaded_top(
                u,
            ) by {
            assert(b.unlinked_node(u) == a.unlinked_node(u));
        }
        assert forall|u: PopTicket|
            u.id() != id && a.holds_ticket(u) && b.top == a.top && a.observed_top(u) implies #[trigger] b.observed_top(
                u,
            ) by {
            assert(b.unlinked_node(u) == a.unlinked_node(u));
        }
    }

    /// Whether a further pop can be announced without overflowing the
    /// hazard counter or the ticket numbers.
    pub open spec fn can_begin_pop(&self) -> bool {
        self.popping() < u32::MAX && self.tickets_issued() < u64::MAX
    }

    /// Number of pop tickets issued since no pop was last in progress.
    pub closed spec fn tickets_issued(&self) -> nat {
        self.next_ticket as nat
    }

    /// Arena slots in use: nodes that are neither reclaimed nor reusable.
    pub closed spec fn resident(&self) -> nat {
        (self.nodes@.len() - self.free@.len()) as nat
    }

    /// Length of the pending-delete list.
    pub closed spec fn pending_len(&self) -> nat {
        self.pending@.len()
    }

    /// Number of reclaimed slots ready for reuse.
    pub closed spec fn free_len(&self) -> nat {
        self.free@.len()
    }

    /// The state of arena slot `k`.
    pub closed spec fn state_of(&self, k: int) -> NodeState {
        self.states@[k]
    }

    /// Number of arena slots.
    pub closed spec fn slots(&self) -> nat {
        self.nodes@.len()
    }

    /// Whether a pop in progress is about to read slot `k` or has read it
    /// and will compare-and-swap with what it read.
    pub closed spec fn observed(&self, k: int) -> bool {
        exists|i: int| 0 <= i < self.poppers@.len() && reads(#[trigger] self.poppers@[i], k)
    }

    spec fn popper_ok(&self, p: Popper) -> bool {
        match p.phase {
            PopPhase::Loaded { node } => match node {
                Some(n) => n < self.nodes@.len() && !(self.states@[n as int] is Free),
                None => true,
            },
            PopPhase::Observed { slot, next } => {
                &&& slot < self.nodes@.len()
                &&& !(self.states@[slot as int] is Free)
                &&& self.states@[slot as int] is OnStack ==> self.nodes@[slot as int].next == next
            },
            PopPhase::Unlinked { node } => match node {
                Some(d) => d < self.nodes@.len() && self.states@[d as int] == NodeState::Detached(
                    p.id,
                ),
                None => true,
            },
            PopPhase::Reclaiming { node, claimed, list } => {
                &&& match node {
                    Some(d) => d < self.nodes@.len() && self.states@[d as int]
                        == NodeState::Detached(p.id),
                    None => true,
                }
                &&& linked(self.nodes@, list@, claimed)
                &&& forall|k: int|
                    0 <= k < list@.len() ==> #[trigger] self.states@[list@[k] as int]
                        == NodeState::Claimed(p.id)
            },
        }
    }

    #[verifier::opaque]
    pub closed spec fn wf(&self) -> bool {
        let chain = self.chain@;
        let pending = self.pending@;
        let states = self.states@;
        let free = self.free@;
        let ps = self.poppers@;
        &&& states.len() == self.nodes@.len()
        &&& linked(self.nodes@, chain, self.top)
        &&& linked(self.nodes@, pending, self.to_be_delete)
        &&& forall|i: int|
            0 <= i < chain.len() ==> #[trigger] states[chain[i] as int] == NodeState::OnStack
                && self.nodes@[chain[i] as int].data is Some
        &&& forall|i: int|
            0 <= i < pending.len() ==> #[trigger] states[pending[i] as int] == NodeState::Pending
        &&& forall|i: int|
            0 <= i < free.len() ==> #[trigger] free[i] < self.nodes@.len() && states[free[i] as int]
                == NodeState::Free
        &&& forall|i: int, j: int| 0 <= i < j < free.len() ==> free[i] != free[j]
        &&& self.threads_in_pop as nat == ps.len()
        &&& forall|i: int| 0 <= i < ps.len() ==> #[trigger] ps[i].id < self.next_ticket
        &&& forall|i: int, j: int| 0 <= i < j < ps.len() ==> ps[i].id != ps[j].id
        &&& forall|i: int| 0 <= i < ps.len() ==> self.popper_ok(#[trigger] ps[i])
        &&& forall|i: int, j: int|
            #![trigger guards(ps[i]), ps[j]]
            0 <= i < ps.len() && 0 <= j < ps.len() && guards(ps[i]) is Some ==> !reads(
                ps[j],
                guards(ps[i])->0 as int,
            )
        &&& self.nodes@.len() == chain.len() + pending.len() + free.len() + holding(ps)
    }

    pub fn new() -> (r: Self)
        ensures
            r.wf(),
            r@ == Seq::<T>::empty(),
            r.popping() == 0,
            r.pending_len() == 0,
            r.slots() == 0,
            r.tickets_issued() == 0,
            r.free_len() == 0,
    {
        proof {
            reveal(Stack::wf);
        }
        let r = Stack {
            nodes: Vec::new(),
            free: Vec::new(),
            top: None,
            threads_in_pop: 0,
            to_be_delete: None,
            poppers: Vec::new(),
            next_ticket: 0,
            chain: Ghost(Seq::empty()),
            pending: Ghost(Seq::empty()),
            states: Ghost(Seq::empty()),
        };
        assert(r@ =~= Seq::<T>::empty());
        r
    }

    fn find_popper(&self, id: u64) -> (r: usize)
        requires
            exists|i: int| 0 <= i < self.poppers@.len() && self.poppers@[i].id == id,
        ensures
            r < self.poppers@.len(),
            self.poppers@[r as int].id == id,
    {
        let mut i: usize = 0;
        while i < self.poppers.len()
            invariant
                i <= self.poppers@.len(),
                forall|j: int| 0 <= j < i ==> self.poppers@[j].id != id,
                exists|i: int| 0 <= i < self.poppers@.len() && self.poppers@[i].id == id,
            decreases self.poppers@.len() - i,
        {
            if self.poppers[i].id == id {
                return i;
            }
            i = i + 1;
        }
        0
    }

    /// Reads the successor of slot `n`. Only a slot that has not been
    /// reclaimed may be read: this is what the hazard counter protects.
    fn read_next(&self, n: usize) -> (r: Option<usize>)
        requires
            n < self.nodes@.len(),
            self.states@.len() == self.nodes@.len(),
            !(self.states@[n as int] is Free),
        ensures
            r == self.nodes@[n as int].next,
    {
        self.nodes[n].next
    }


    proof fn lemma_tickets_after_push(a: &Self, b: &Self, p: Popper)
        requires
            b.poppers@ == a.poppers@.push(p),
            forall|j: int| 0 <= j < a.poppers@.len() ==> a.poppers@[j].id != p.id,
        ensures
            forall|u: PopTicket| #[trigger] b.holds_ticket(u) == (a.holds_ticket(u) || u.id() == p.id),
            forall|u: PopTicket, k: PopStage|
                u.id() != p.id ==> #[trigger] b.in_stage(u, k) == a.in_stage(u, k),
            forall|u: PopTicket, k: PopStage|
                u.id() == p.id ==> (#[trigger] b.in_stage(u, k) == (stage(p.phase) == k)),
    {
        let n = a.poppers@.len() as int;
        assert(b.poppers@[n] == p);
        assert forall|u: PopTicket| #[trigger] b.holds_ticket(u) == (a.holds_ticket(u) || u.id() == p.id) by {
            if a.holds_ticket(u) {
                let j = choose|j: int| 0 <= j < n && a.poppers@[j].id == u.id;
                assert(b.poppers@[j].id == u.id);
            }
            if b.holds_ticket(u) && u.id() != p.id {
                let j = choose|j: int| 0 <= j < b.poppers@.len() && b.poppers@[j].id == u.id;
                assert(a.poppers@[j].id == u.id);
            }
        }
        assert forall|u: PopTicket, k: PopStage| u.id() != p.id implies #[trigger] b.in_stage(u, k)
            == a.in_stage(u, k) by {
            assert forall|j: int| 0 <= j < n implies b.poppers@[j] == a.poppers@[j] by {}
        }
        assert forall|u: PopTicket, k: PopStage| u.id() == p.id implies (#[trigger] b.in_stage(u, k)
            == (stage(p.phase) == k)) by {
            assert(b.poppers@[n].id == u.id);
            assert forall|j: int| 0 <= j < b.poppers@.len() && b.poppers@[j].id == u.id implies j == n by {}
        }
    }

    /// Announces a pop: raises the hazard counter, then loads `top`.
    pub fn begin_pop(&mut self) -> (t: PopTicket)
        requires
            old(self).wf(),
            old(self).can_begin_pop(),
        ensures
            final(self).wf(),
            final(self)@ == old(self)@,
            final(self).popping() == old(self).popping() + 1,
            final(self).tickets_issued() == old(self).tickets_issued() + 1,
            final(self).holds_ticket(t),
            final(self).in_stage(t, PopStage::Unlinking),
            final(self).loaded_top(t),
            forall|u: PopTicket|
                old(self).holds_ticket(u) && old(self).loaded_top(u)
                    ==> #[trigger] final(self).loaded_top(u),
            forall|u: PopTicket|
                old(self).holds_ticket(u) && old(self).observed_top(u)
                    ==> #[trigger] final(self).observed_top(u),
            forall|u: PopTicket| #[trigger]
                final(self).holds_ticket(u) == (old(self).holds_ticket(u) || u.id() == t.id()),
            forall|u: PopTicket|
                #[trigger] old(self).holds_ticket(u) ==> u.id() != t.id(),
            forall|u: PopTicket, k: PopStage|
                u.id() != t.id() ==> #[trigger] final(self).in_stage(u, k) == old(self).in_stage(u, k),
            final(self).pending_len() == old(self).pending_len(),
            final(self).resident() == old(self).resident(),
            final(self).free_len() == old(self).free_len(),
    {
        proof {
            reveal(Stack::wf);
        }
        self.threads_in_pop = self.threads_in_pop + 1;
        let id = self.next_ticket;
        self.next_ticket = self.next_ticket + 1;
        let top = self.top;
        let ghost old_ps = self.poppers@;
        let p = Popper { id, phase: PopPhase::Loaded { node: top } };
        self.poppers.push(p);
        proof {
            lemma_holding_push(old_ps, p);
            assert forall|j: int| 0 <= j < old_ps.len() implies old_ps[j].id != id by {
                assert(old_ps[j].id < old(self).next_ticket);
            }
            if let Some(n) = top {
                assert(self.states@[self.chain@[0] as int] == NodeState::OnStack);
            }
            assert forall|i: int| 0 <= i < self.poppers@.len() implies self.popper_ok(
                #[trigger] self.poppers@[i],
            ) by {
                if i < old_ps.len() {
                    assert(old(self).popper_ok(old_ps[i]));
                }
            }
            Self::lemma_tickets_after_push(old(self), self, p);
        }
        proof {
            assert forall|u: PopTicket| old(self).holds_ticket(u) implies (old(self).loaded_top(u)
                ==> #[trigger] self.loaded_top(u)) && (old(self).observed_top(u) ==> self.observed_top(
                u,
            )) by {
                assert(u.id != id);
                assert forall|j: int| 0 <= j < self.poppers@.len() && self.poppers@[j].id == u.id implies j
                    < old_ps.len() && self.poppers@[j] == old_ps[j] by {}
            }
            assert forall|i: int|
                0 <= i < self.poppers@.len() && self.poppers@[i].id == id implies #[trigger] self.poppers@[i].phase
                == PopPhase::Loaded { node: self.top } by {
                if i < old_ps.len() {
                    assert(old_ps[i].id < old(self).next_ticket);
                }
            }
        }
        PopTicket { id }
    }



    proof fn lemma_tickets_after_update(a: &Self, b: &Self, i: int)
        requires
            0 <= i < a.poppers@.len(),
            b.poppers@.len() == a.poppers@.len(),
            b.poppers@[i].id == a.poppers@[i].id,
            forall|j: int| 0 <= j < a.poppers@.len() && j != i ==> b.poppers@[j] == a.poppers@[j],
            forall|j: int, k: int|
                0 <= j < k < a.poppers@.len() ==> a.poppers@[j].id != a.poppers@[k].id,
        ensures
            forall|u: PopTicket| #[trigger] b.holds_ticket(u) == a.holds_ticket(u),
            forall|u: PopTicket, k: PopStage|
                u.id() != a.poppers@[i].id ==> #[trigger] b.in_stage(u, k) == a.in_stage(u, k),
    {
        assert forall|u: PopTicket| #[trigger] b.holds_ticket(u) == a.holds_ticket(u) by {
            if a.holds_ticket(u) {
                let j = choose|j: int| 0 <= j < a.poppers@.len() && a.poppers@[j].id == u.id;
                assert(b.poppers@[j].id == u.id);
            }
            if b.holds_ticket(u) {
                let j = choose|j: int| 0 <= j < b.poppers@.len() && b.poppers@[j].id == u.id;
                assert(a.poppers@[j].id == u.id);
            }
        }
        assert forall|u: PopTicket, k: PopStage| u.id() != a.poppers@[i].id implies #[trigger] b.in_stage(
            u,
            k,
        ) == a.in_stage(u, k) by {
            assert forall|j: int| 0 <= j < a.poppers@.len() && a.poppers@[j].id == u.id implies b.poppers@[j]
                == a.poppers@[j] by {}
        }
    }

    /// Moves pop `i` to a phase that holds no node and reads nothing
    /// reclaimed.
    fn set_phase(&mut self, i: usize, phase: PopPhase)
        requires
            old(self).wf(),
            i < old(self).poppers@.len(),
            stage(old(self).poppers@[i as int].phase) == PopStage::Unlinking,
            held(Popper { id: old(self).poppers@[i as int].id, phase }) == 0,
            guards(Popper { id: old(self).poppers@[i as int].id, phase }) is None,
            forall|j: int|
                0 <= j < old(self).poppers@.len() && #[trigger] guards(old(self).poppers@[j]) is Some
                    ==> !reads(
                    Popper { id: old(self).poppers@[i as int].id, phase },
                    guards(old(self).poppers@[j])->0 as int,
                ),
            old(self).popper_ok(Popper { id: old(self).poppers@[i as int].id, phase }),
        ensures
            final(self).wf(),
            final(self).poppers@ == old(self).poppers@.update(
                i as int,
                Popper { id: old(self).poppers@[i as int].id, phase },
            ),
            final(self)@ == old(self)@,
            final(self).next_ticket == old(self).next_ticket,
            final(self).threads_in_pop == old(self).threads_in_pop,
            final(self).pending@ == old(self).pending@,
            final(self).free@ == old(self).free@,
            final(self).nodes@.len() == old(self).nodes@.len(),
            final(self).top == old(self).top,
    {
        proof {
            reveal(Stack::wf);
        }
        let ghost old_ps = self.poppers@;
        let np = Popper { id: self.poppers[i].id, phase };
        self.poppers[i] = np;
        proof {
            lemma_holding_update(old_ps, i as int, np);
            assert forall|j: int| 0 <= j < self.poppers@.len() implies self.popper_ok(
                #[trigger] self.poppers@[j],
            ) by {
                assert(old(self).popper_ok(old_ps[j]));
            }
            assert(self@ =~= old(self)@);
        }
    }

    /// Unlinks the top node on behalf of pop `i`, whose observed node is
    /// still on top, and takes its element.
    fn unlink_top(&mut self, i: usize) -> (data: Option<T>)
        requires
            old(self).wf(),
            i < old(self).poppers@.len(),
            old(self).poppers@[i as int].phase is Observed,
            old(self).top == Some(old(self).poppers@[i as int].phase->slot),
        ensures
            final(self).wf(),
            final(self).poppers@ == old(self).poppers@.update(
                i as int,
                Popper {
                    id: old(self).poppers@[i as int].id,
                    phase: PopPhase::Unlinked { node: old(self).top },
                },
            ),
            old(self)@.len() > 0,
            data == Some(old(self)@[0]),
            final(self)@ == old(self)@.drop_first(),
            final(self).next_ticket == old(self).next_ticket,
            final(self).threads_in_pop == old(self).threads_in_pop,
            final(self).pending@ == old(self).pending@,
            final(self).free@ == old(self).free@,
            final(self).nodes@.len() == old(self).nodes@.len(),
    {
        proof {
            reveal(Stack::wf);
        }
        let p = self.poppers[i];
        let ghost old_ps = self.poppers@;
        let ghost old_chain = self.chain@;
        let ghost old_nodes = self.nodes@;
        let (node, next) = match p.phase {
            PopPhase::Observed { slot, next } => (slot, next),
            _ => (0, None),
        };
        proof {
            assert(old(self).popper_ok(p));
            assert(self.states@[old_chain[0] as int] == NodeState::OnStack);
        }
        // The compare-and-swap of `top` from `node` to `next` succeeds.
        self.top = next;
        let data = self.nodes[node].data.take();
        let np = Popper { id: p.id, phase: PopPhase::Unlinked { node: Some(node) } };
        self.poppers[i] = np;
        proof {
            self.chain = Ghost(old_chain.drop_first());
            self.states = Ghost(self.states@.update(node as int, NodeState::Detached(p.id)));
            lemma_holding_update(old_ps, i as int, np);
            assert forall|k: int| 0 <= k < old_nodes.len() implies #[trigger] self.nodes@[k].next
                == old_nodes[k].next && (k != node ==> self.nodes@[k] == old_nodes[k]) by {}
            assert forall|j: int| 0 <= j < old_ps.len() && j != i implies old_ps[j].id != p.id by {
                if j < i {
                    assert(old_ps[j].id != old_ps[i as int].id);
                } else {
                    assert(old_ps[i as int].id != old_ps[j].id);
                }
            }
            assert forall|j: int| 0 < j < old_chain.len() implies #[trigger] old_chain[j]
                != old_chain[0] by {}
            assert(linked(self.nodes@, self.pending@, self.to_be_delete)) by {
                assert forall|j: int| 0 <= j < self.pending@.len() implies #[trigger] self.nodes@[self.pending@[j] as int].next
                    == old_nodes[self.pending@[j] as int].next by {}
            }
            assert(linked(self.nodes@, self.chain@, self.top)) by {
                assert forall|j: int| 0 <= j < self.chain@.len() implies #[trigger] self.chain@[j]
                    == old_chain[j + 1] by {}
            }
            assert forall|j: int| 0 <= j < self.poppers@.len() implies self.popper_ok(
                #[trigger] self.poppers@[j],
            ) by {
                assert(old(self).popper_ok(old_ps[j]));
            }
            assert forall|j: int|
                0 <= j < self.chain@.len() implies #[trigger] self.states@[self.chain@[j] as int]
                == NodeState::OnStack && self.nodes@[self.chain@[j] as int].data is Some by {
                assert(self.chain@[j] == old_chain[j + 1]);
            }
            assert(self@ =~= old(self)@.drop_first());
        }
        data
    }


    proof fn lemma_popper(&self, i: int)
        requires
            self.wf(),
            0 <= i < self.poppers@.len(),
        ensures
            self.popper_ok(self.poppers@[i]),
            self.states@.len() == self.nodes@.len(),
            forall|j: int| 0 <= j < self.poppers@.len() && j != i ==> self.poppers@[j].id != self.poppers@[i].id,
            forall|j: int, k: int|
                0 <= j < k < self.poppers@.len() ==> self.poppers@[j].id != self.poppers@[k].id,
            self.top is Some ==> self.top->0 < self.nodes@.len() && self.states@[self.top->0 as int]
                == NodeState::OnStack,
            forall|j: int|
                0 <= j < self.poppers@.len() && #[trigger] guards(self.poppers@[j]) is Some ==> !reads(
                    self.poppers@[i],
                    guards(self.poppers@[j])->0 as int,
                ) && self.states@[guards(self.poppers@[j])->0 as int] is Detached,
    {
        reveal(Stack::wf);
        assert forall|j: int|
            0 <= j < self.poppers@.len() && #[trigger] guards(self.poppers@[j]) is Some implies !reads(
                self.poppers@[i],
                guards(self.poppers@[j])->0 as int,
            ) && self.states@[guards(self.poppers@[j])->0 as int] is Detached by {
            assert(self.popper_ok(self.poppers@[j]));
        }
        assert forall|j: int| 0 <= j < self.poppers@.len() && j != i implies self.poppers@[j].id
            != self.poppers@[i].id by {
            if j < i {
                assert(self.poppers@[j].id != self.poppers@[i].id);
            } else {
                assert(self.poppers@[i].id != self.poppers@[j].id);
            }
        }
        if self.top is Some {
            assert(self.states@[self.chain@[0] as int] == NodeState::OnStack);
        }
    }

    /// One step of the pop of `t`. A loaded node has its successor read; an
    /// observed node is unlinked if it is still on top (compare-and-swap
    /// succeeds), and otherwise `top` is loaded again. A pop that loaded an
    /// empty stack is done at once.
    pub fn pop_step(&mut self, t: &PopTicket) -> (r: PopStep<T>)
        requires
            old(self).wf(),
            old(self).holds_ticket(*t),
            old(self).in_stage(*t, PopStage::Unlinking),
        ensures
            final(self).wf(),
            final(self).popping() == old(self).popping(),
            forall|u: PopTicket| #[trigger] final(self).holds_ticket(u) == old(self).holds_ticket(u),
            forall|u: PopTicket, k: PopStage|
                u.id() != t.id() ==> #[trigger] final(self).in_stage(u, k) == old(self).in_stage(u, k),
            final(self).tickets_issued() == old(self).tickets_issued(),
            final(self).pending_len() == old(self).pending_len(),
            final(self).resident() == old(self).resident(),
            final(self).free_len() == old(self).free_len(),
            old(self).loaded_top(*t) && old(self)@.len() == 0 ==> r is Done,
            old(self).loaded_top(*t) && old(self)@.len() > 0 ==> r is Continue
                && final(self).observed_top(*t),
            old(self).observed_top(*t) ==> r matches PopStep::Done(Some(_)),
            old(self).observed_stale(*t) ==> r is Continue && final(self).loaded_top(*t),
            r matches PopStep::Done(Some(_)) ==> final(self).unlinked_node(*t),
            r matches PopStep::Done(None) ==> !final(self).unlinked_node(*t),
            r matches PopStep::Done(None) <==> old(self).loaded_empty(*t),
            forall|u: PopTicket|
                u.id() != t.id() && old(self).holds_ticket(u) ==> #[trigger] final(self).unlinked_node(u)
                    == old(self).unlinked_node(u),
            forall|u: PopTicket|
                u.id() != t.id() && old(self).holds_ticket(u) ==> #[trigger] final(self).claimed_len(u)
                    == old(self).claimed_len(u),
            forall|u: PopTicket|
                u.id() != t.id() && old(self).holds_ticket(u) && old(self).observed_top(u) && (r is Done
                    && r->0 is Some) ==> #[trigger] final(self).observed_stale(u),
            forall|u: PopTicket|
                u.id() != t.id() && !(r matches PopStep::Done(Some(_))) && old(self).loaded_top(u)
                    ==> #[trigger] final(self).loaded_top(u),
            forall|u: PopTicket|
                u.id() != t.id() && !(r matches PopStep::Done(Some(_))) && old(self).observed_top(u)
                    ==> #[trigger] final(self).observed_top(u),
            match r {
                PopStep::Continue => {
                    &&& final(self)@ == old(self)@
                    &&& final(self).in_stage(*t, PopStage::Unlinking)
                },
                PopStep::Done(None) => {
                    &&& final(self)@ == old(self)@
                    &&& final(self).in_stage(*t, PopStage::Unlinked)
                },
                PopStep::Done(Some(v)) => {
                    &&& old(self)@.len() > 0
                    &&& v == old(self)@[0]
                    &&& final(self)@ == old(self)@.drop_first()
                    &&& final(self).in_stage(*t, PopStage::Unlinked)
                },
            },
    {
        let i = self.find_popper(t.id);
        let p = self.poppers[i];
        proof {
            self.lemma_popper(i as int);
        }
        let r = match p.phase {
            PopPhase::Loaded { node: None } => {
                self.set_phase(i, PopPhase::Unlinked { node: None });
                PopStep::Done(None)
            },
            PopPhase::Loaded { node: Some(n) } => {
                let next = self.read_next(n);
                self.set_phase(i, PopPhase::Observed { slot: n, next });
                PopStep::Continue
            },
            PopPhase::Observed { slot, next } => {
                if self.top == Some(slot) {
                    let data = self.unlink_top(i);
                    PopStep::Done(data)
                } else {
                    let top = self.top;
                    self.set_phase(i, PopPhase::Loaded { node: top });
                    PopStep::Continue
                }
            },
            _ => {
                assert(false);
                PopStep::Continue
            },
        };
        proof {
            Self::lemma_tickets_after_update(old(self), self, i as int);
            reveal(Stack::wf);
            assert(self.poppers@[i as int].id == t.id);
            if old(self).loaded_top(*t) && old(self)@.len() > 0 {
                assert(old(self).poppers@[i as int].phase == PopPhase::Loaded { node: old(self).top });
                assert forall|j: int|
                    0 <= j < self.poppers@.len() && self.poppers@[j].id == t.id implies (
                    #[trigger] self.poppers@[j].phase is Observed && self.top == Some(
                        self.poppers@[j].phase->slot,
                    )) by {
                    assert(j == i);
                }
            }
            if old(self).loaded_top(*t) && old(self)@.len() == 0 {
                assert(old(self).poppers@[i as int].phase == PopPhase::Loaded { node: old(self).top });
                assert(old(self).chain@.len() == 0);
            }
            self.lemma_popper(i as int);
            self.lemma_popper_of(*t, i as int);
            assert(old(self).poppers@[i as int].id == t.id);
            if old(self).loaded_empty(*t) {
                assert(old(self).poppers@[i as int].phase == PopPhase::Loaded { node: None });
            }
            if r matches PopStep::Done(None) {
                assert(old(self).poppers@[i as int].phase == PopPhase::Loaded { node: None });
                assert forall|j: int|
                    0 <= j < old(self).poppers@.len() && old(self).poppers@[j].id == t.id implies #[trigger] old(
                        self,
                    ).poppers@[j].phase == PopPhase::Loaded { node: None } by {
                    assert(j == i);
                }
            }
            Self::lemma_others_kept(old(self), self, t.id, |x: int| x);
            assert forall|u: PopTicket|
                u.id() != t.id() && old(self).holds_ticket(u) && old(self).observed_top(u) && (r is Done
                    && r->0 is Some) implies #[trigger] self.observed_stale(u) by {
                let j = choose|j: int| 0 <= j < old(self).poppers@.len() && old(self).poppers@[j].id == u.id;
                assert(j != i);
                assert(self.poppers@[j] == old(self).poppers@[j]);
                assert(old(self).poppers@[j].phase is Observed);
                assert(old(self).top == Some(old(self).poppers@[j].phase->slot));
                assert(old(self).top == Some(old(self).poppers@[i as int].phase->slot));
                assert(self.top != old(self).top);
                assert forall|x: int|
                    0 <= x < self.poppers@.len() && self.poppers@[x].id == u.id implies (
                    #[trigger] self.poppers@[x].phase is Observed && self.top != Some(
                        self.poppers@[x].phase->slot,
                    )) by {
                    assert(x == j);
                }
            }
            if !(r matches PopStep::Done(Some(_))) {
                assert(self.top == old(self).top);
                assert forall|u: PopTicket|
                    u.id() != t.id() && old(self).loaded_top(u) implies #[trigger] self.loaded_top(u) by {
                    assert forall|j: int|
                        0 <= j < self.poppers@.len() && self.poppers@[j].id == u.id implies #[trigger] self.poppers@[j].phase
                        == PopPhase::Loaded { node: self.top } by {
                        assert(j != i);
                        assert(self.poppers@[j] == old(self).poppers@[j]);
                    }
                }
                assert forall|u: PopTicket|
                    u.id() != t.id() && old(self).observed_top(u) implies #[trigger] self.observed_top(u) by {
                    assert forall|j: int|
                        0 <= j < self.poppers@.len() && self.poppers@[j].id == u.id implies (
                        #[trigger] self.poppers@[j].phase is Observed && self.top == Some(
                            self.poppers@[j].phase->slot,
                        )) by {
                        assert(j != i);
                        assert(self.poppers@[j] == old(self).poppers@[j]);
                    }
                }
            }
            if old(self).observed_stale(*t) {
                assert(old(self).poppers@[i as int].phase is Observed);
                assert forall|j: int|
                    0 <= j < self.poppers@.len() && self.poppers@[j].id == t.id implies #[trigger] self.poppers@[j].phase
                    == PopPhase::Loaded { node: self.top } by {
                    assert(j == i);
                }
            }
            if old(self).observed_top(*t) {
                assert(old(self).poppers@[i as int].phase is Observed);
                assert(old(self).chain@.len() > 0);
                assert(old(self).nodes@[old(self).chain@[0] as int].data is Some);
            }
        }
        r
    }

    /// Pops the top element, or returns `None` when the stack is empty. The
    /// pop announces itself, unlinks the top node and then reclaims what no
    /// other pop in progress can still read.
    pub fn pop(&mut self) -> (r: Option<T>)
        requires
            old(self).wf(),
            old(self).can_begin_pop(),
        ensures
            final(self).wf(),
            old(self)@.len() == 0 ==> r is None && final(self)@ == old(self)@,
            old(self)@.len() > 0 ==> r == Some(old(self)@[0]) && final(self)@
                == old(self)@.drop_first(),
            final(self).popping() == old(self).popping(),
            final(self).tickets_issued() <= old(self).tickets_issued() + 1,
            old(self).popping() == 0 ==> final(self).can_begin_pop(),
            forall|u: PopTicket| #[trigger] final(self).holds_ticket(u) == old(self).holds_ticket(u),
            forall|u: PopTicket, k: PopStage|
                old(self).holds_ticket(u) ==> #[trigger] final(self).in_stage(u, k)
                    == old(self).in_stage(u, k),
            old(self).popping() == 0 ==> final(self).pending_len() == 0 && final(self).resident()
                == final(self)@.len(),
            old(self).popping() > 0 ==> final(self).free_len() == old(self).free_len()
                && final(self).pending_len() == old(self).pending_len() + if old(self)@.len() > 0 {
                1nat
            } else {
                0nat
            },
    {
        let t = self.begin_pop();
        let first = self.pop_step(&t);
        let r = match first {
            PopStep::Done(d) => d,
            PopStep::Continue => {
                match self.pop_step(&t) {
                    PopStep::Done(d) => d,
                    PopStep::Continue => None,
                }
            },
        };
        if let Some(t) = self.end_pop(t) {
            self.finish_reclaim(t);
        }
        proof {
            if old(self).popping() == 0 {
                lemma_no_leak(self);
            }
        }
        r
    }


    proof fn lemma_tickets_after_remove(a: &Self, b: &Self, i: int)
        requires
            0 <= i < a.poppers@.len(),
            b.poppers@ == a.poppers@.remove(i),
            forall|j: int, k: int|
                0 <= j < k < a.poppers@.len() ==> a.poppers@[j].id != a.poppers@[k].id,
        ensures
            forall|u: PopTicket|
                #[trigger] b.holds_ticket(u) == (a.holds_ticket(u) && u.id() != a.poppers@[i].id),
            forall|u: PopTicket, k: PopStage|
                u.id() != a.poppers@[i].id ==> #[trigger] b.in_stage(u, k) == a.in_stage(u, k),
    {
        let ps = a.poppers@;
        assert forall|j: int, k: int| 0 <= j < ps.len() && 0 <= k < ps.len() && j != k implies ps[j].id
            != ps[k].id by {
            if j < k {
                assert(ps[j].id != ps[k].id);
            } else {
                assert(ps[k].id != ps[j].id);
            }
        }
        assert forall|u: PopTicket|
            #[trigger] b.holds_ticket(u) == (a.holds_ticket(u) && u.id() != ps[i].id) by {
            if a.holds_ticket(u) && u.id() != ps[i].id {
                let j = choose|j: int| 0 <= j < ps.len() && ps[j].id == u.id;
                if j < i {
                    assert(b.poppers@[j].id == u.id);
                } else {
                    assert(b.poppers@[j - 1].id == u.id);
                }
            }
            if b.holds_ticket(u) {
                let j = choose|j: int| 0 <= j < b.poppers@.len() && b.poppers@[j].id == u.id;
                if j < i {
                    assert(ps[j].id == u.id);
                } else {
                    assert(ps[j + 1].id == u.id);
                }
            }
        }
        assert forall|u: PopTicket, k: PopStage| u.id() != ps[i].id implies #[trigger] b.in_stage(u, k)
            == a.in_stage(u, k) by {
            if a.in_stage(u, k) {
                assert forall|j: int|
                    0 <= j < b.poppers@.len() && b.poppers@[j].id == u.id implies stage(
                    #[trigger] b.poppers@[j].phase,
                ) == k by {
                    if j < i {
                        assert(ps[j] == b.poppers@[j]);
                    } else {
                        assert(ps[j + 1] == b.poppers@[j]);
                    }
                }
            }
            if b.in_stage(u, k) {
                assert forall|j: int| 0 <= j < ps.len() && ps[j].id == u.id implies stage(
                    #[trigger] ps[j].phase,
                ) == k by {
                    if j < i {
                        assert(ps[j] == b.poppers@[j]);
                    } else if j > i {
                        assert(ps[j] == b.poppers@[j - 1]);
                    }
                }
            }
        }
    }

    /// Puts the chain `list`, from `first` to `last`, in front of the
    /// pending-delete list.
    fn link_to_be_delete(&mut self, first: usize, last: usize, Ghost(list): Ghost<Seq<usize>>)
        requires
            list.len() > 0,
            list[0] == first,
            list.last() == last,
            last < old(self).nodes@.len(),
            forall|i: int| 0 <= i < list.len() - 1 ==> #[trigger] list[i] < old(self).nodes@.len()
                && old(self).nodes@[list[i] as int].next == Some(list[i + 1]),
        ensures
            final(self).nodes@ == old(self).nodes@.update(
                last as int,
                StackNode { data: old(self).nodes@[last as int].data, next: old(self).to_be_delete },
            ),
            final(self).to_be_delete == Some(first),
            final(self).pending@ == list + old(self).pending@,
            final(self).top == old(self).top,
            final(self).free@ == old(self).free@,
            final(self).chain@ == old(self).chain@,
            final(self).states@ == old(self).states@,
            final(self).poppers@ == old(self).poppers@,
            final(self).threads_in_pop == old(self).threads_in_pop,
            final(self).next_ticket == old(self).next_ticket,
    {
        // The compare-and-swap of the list head from `last.next` to `first`
        // succeeds in this step.
        let head = self.to_be_delete;
        self.nodes[last].next = head;
        self.to_be_delete = Some(first);
        self.pending = Ghost(list + self.pending@);
    }

    /// Puts the single unlinked node `node` on the pending-delete list.
    fn chain_pending_node(&mut self, node: usize)
        requires
            node < old(self).nodes@.len(),
        ensures
            final(self).nodes@ == old(self).nodes@.update(
                node as int,
                StackNode { data: old(self).nodes@[node as int].data, next: old(self).to_be_delete },
            ),
            final(self).to_be_delete == Some(node),
            final(self).pending@ == seq![node] + old(self).pending@,
            final(self).top == old(self).top,
            final(self).free@ == old(self).free@,
            final(self).chain@ == old(self).chain@,
            final(self).states@ == old(self).states@,
            final(self).poppers@ == old(self).poppers@,
            final(self).threads_in_pop == old(self).threads_in_pop,
            final(self).next_ticket == old(self).next_ticket,
    {
        let ghost list = seq![node];
        self.link_to_be_delete(node, node, Ghost(list));
    }

    /// Puts the chain `list` that starts at `first` in front of the
    /// pending-delete list, after walking it to its last node.
    fn chain_pending_nodes(&mut self, first: usize, Ghost(list): Ghost<Seq<usize>>)
        requires
            list.len() > 0,
            linked(old(self).nodes@, list, Some(first)),
        ensures
            final(self).nodes@ == old(self).nodes@.update(
                list.last() as int,
                StackNode {
                    data: old(self).nodes@[list.last() as int].data,
                    next: old(self).to_be_delete,
                },
            ),
            final(self).to_be_delete == Some(first),
            final(self).pending@ == list + old(self).pending@,
            final(self).top == old(self).top,
            final(self).free@ == old(self).free@,
            final(self).chain@ == old(self).chain@,
            final(self).states@ == old(self).states@,
            final(self).poppers@ == old(self).poppers@,
            final(self).threads_in_pop == old(self).threads_in_pop,
            final(self).next_ticket == old(self).next_ticket,
    {
        let mut last = first;
        let ghost mut k: int = 0;
        while self.nodes[last].next.is_some()
            invariant
                linked(self.nodes@, list, Some(first)),
                0 <= k < list.len(),
                last == list[k],
            decreases list.len() - k,
        {
            last = self.nodes[last].next.unwrap();
            proof {
                k = k + 1;
            }
        }
        assert(k == list.len() - 1);
        self.link_to_be_delete(first, last, Ghost(list));
    }

    /// Ends the pop of `t` and decides what may be reclaimed. A pop that is
    /// the only one in progress takes the whole pending-delete list and
    /// returns its ticket: `finish_reclaim` then lowers the hazard counter
    /// and reclaims. Otherwise the pop lowers the counter, puts its node on
    /// the pending-delete list and is over.
    pub fn end_pop(&mut self, t: PopTicket) -> (r: Option<PopTicket>)
        requires
            old(self).wf(),
            old(self).holds_ticket(t),
            old(self).in_stage(t, PopStage::Unlinked),
        ensures
            final(self).wf(),
            final(self)@ == old(self)@,
            forall|u: PopTicket|
                u.id() != t.id() && old(self).holds_ticket(u) ==> #[trigger] final(self).unlinked_node(u)
                    == old(self).unlinked_node(u),
            forall|u: PopTicket|
                u.id() != t.id() && old(self).holds_ticket(u) ==> #[trigger] final(self).claimed_len(u)
                    == old(self).claimed_len(u),
            forall|u: PopTicket|
                u.id() != t.id() && old(self).holds_ticket(u) ==> (old(self).loaded_top(u)
                    ==> #[trigger] final(self).loaded_top(u)),
            forall|u: PopTicket|
                u.id() != t.id() && old(self).holds_ticket(u) ==> (old(self).observed_top(u)
                    ==> #[trigger] final(self).observed_top(u)),
            forall|u: PopTicket, k: PopStage|
                u.id() != t.id() ==> #[trigger] final(self).in_stage(u, k) == old(self).in_stage(u, k),
            final(self).free_len() == old(self).free_len(),
            final(self).resident() == old(self).resident(),
            final(self).tickets_issued() <= old(self).tickets_issued(),
            r is Some <==> old(self).popping() == 1,
            match r {
                Some(u) => {
                    &&& u == t
                    &&& final(self).popping() == old(self).popping()
                    &&& forall|v: PopTicket| #[trigger]
                        final(self).holds_ticket(v) == old(self).holds_ticket(v)
                    &&& final(self).in_stage(t, PopStage::Reclaiming)
                    &&& final(self).pending_len() == 0
                    &&& final(self).claimed_len(t) == old(self).pending_len()
                    &&& final(self).unlinked_node(t) == old(self).unlinked_node(t)
                },
                None => {
                    &&& final(self).popping() + 1 == old(self).popping()
                    &&& final(self).pending_len() == old(self).pending_len() + if old(self).unlinked_node(t) {
                        1nat
                    } else {
                        0nat
                    }
                    &&& forall|v: PopTicket| #[trigger]
                        final(self).holds_ticket(v) == (old(self).holds_ticket(v) && v.id() != t.id())
                    &&& final(self).popping() == 0 ==> final(self).can_begin_pop()
                },
            },
    {
        let i = self.find_popper(t.id);
        let p = self.poppers[i];
        proof {
            self.lemma_popper(i as int);
            reveal(Stack::wf);
        }
        let node = match p.phase {
            PopPhase::Unlinked { node } => node,
            _ => None,
        };
        proof {
            self.lemma_popper_of(t, i as int);
        }
        let ghost old_ps = self.poppers@;
        let ghost old_states = self.states@;
        let ghost old_free = self.free@;
        let ghost old_nodes = self.nodes@;
        let ghost old_pending = self.pending@;
        let ghost old_chain = self.chain@;
        proof {
            assert(old_ps[i as int].id == t.id);
            assert(stage(old_ps[i as int].phase) == PopStage::Unlinked);
        }
        if self.threads_in_pop == 1 {
            // Alone: take the whole pending-delete list (swap it with null).
            let nodes_to_delete = self.to_be_delete;
            self.to_be_delete = None;
            let ghost list = old_pending;
            let np = Popper {
                id: p.id,
                phase: PopPhase::Reclaiming { node, claimed: nodes_to_delete, list: Ghost(list) },
            };
            self.poppers.set(i, np);
            proof {
                lemma_holding_update(old_ps, i as int, np);
                self.pending = Ghost(Seq::empty());
                self.states = Ghost(
                    Seq::new(
                        old_states.len(),
                        |k: int|
                            if in_list(list, k) {
                                NodeState::Claimed(p.id)
                            } else {
                                old_states[k]
                            },
                    ),
                );
                assert(i == 0);
                assert forall|j: int| 0 <= j < list.len() implies #[trigger] old_states[list[j] as int]
                    == NodeState::Pending by {}
                assert forall|k: int| 0 <= k < old_states.len() && !(old_states[k] is Pending) implies self.states@[k]
                    == old_states[k] by {
                    if in_list(list, k) {
                        let j = choose|j: int| 0 <= j < list.len() && list[j] as int == k;
                        assert(old_states[list[j] as int] == NodeState::Pending);
                    }
                }
                assert forall|j: int| 0 <= j < list.len() implies #[trigger] self.states@[list[j] as int]
                    == NodeState::Claimed(p.id) by {
                    assert(in_list(list, list[j] as int));
                }
                assert(self.popper_ok(np));
                assert forall|j: int| 0 <= j < self.poppers@.len() implies self.popper_ok(
                    #[trigger] self.poppers@[j],
                ) by {
                    assert(j == 0);
                }
                assert forall|j: int|
                    0 <= j < self.chain@.len() implies #[trigger] self.states@[self.chain@[j] as int]
                    == NodeState::OnStack && self.nodes@[self.chain@[j] as int].data is Some by {
                    assert(old_states[old_chain[j] as int] == NodeState::OnStack);
                }
                assert forall|j: int| 0 <= j < self.free@.len() implies #[trigger] self.free@[j]
                    < self.nodes@.len() && self.states@[self.free@[j] as int] == NodeState::Free by {
                    assert(old_states[old_free[j] as int] == NodeState::Free);
                }
                Self::lemma_tickets_after_update(old(self), self, i as int);
                assert(self.poppers@[0].id == t.id);
                self.lemma_popper_of(t, 0);
                Self::lemma_others_kept(old(self), self, t.id, |x: int| x);
                assert(self@ =~= old(self)@);
            }
            Some(t)
        } else {
            self.threads_in_pop = self.threads_in_pop - 1;
            if let Some(d) = node {
                self.chain_pending_node(d);
                proof {
                    self.states = Ghost(self.states@.update(d as int, NodeState::Pending));
                }
            }
            proof {
                lemma_holding_remove(old_ps, i as int);
                if let Some(d) = node {
                    assert(old_states[d as int] == NodeState::Detached(t.id));
                    assert forall|j: int| 0 <= j < old_pending.len() implies #[trigger] old_pending[j]
                        != d by {
                        assert(old_states[old_pending[j] as int] == NodeState::Pending);
                    }
                    assert forall|j: int| 0 <= j < old_chain.len() implies #[trigger] old_chain[j]
                        != d by {
                        assert(old_states[old_chain[j] as int] == NodeState::OnStack);
                    }
                    assert forall|j: int| 0 <= j < old_free.len() implies #[trigger] old_free[j]
                        != d by {
                        assert(old_states[old_free[j] as int] == NodeState::Free);
                    }
                    assert(linked(self.nodes@, self.pending@, self.to_be_delete)) by {
                        assert forall|j: int| 0 < j < self.pending@.len() implies #[trigger] self.pending@[j]
                            == old_pending[j - 1] by {}
                    }
                }
            }
            self.poppers.remove(i);
            if self.threads_in_pop == 0 {
                self.next_ticket = 0;
            }
            proof {
                Self::lemma_tickets_after_remove(old(self), self, i as int);
                assert forall|j: int| 0 <= j < self.poppers@.len() implies self.popper_ok(
                    #[trigger] self.poppers@[j],
                ) by {
                    let q = if j < i {
                        old_ps[j]
                    } else {
                        old_ps[j + 1]
                    };
                    assert(q == self.poppers@[j]);
                    assert(old(self).popper_ok(q));
                    assert(q.id != t.id);
                    if let PopPhase::Reclaiming { node: qn, claimed, list } = q.phase {
                        if let Some(d) = node {
                            assert forall|k: int| 0 <= k < list@.len() implies #[trigger] list@[k] != d by {
                                assert(old_states[list@[k] as int] == NodeState::Claimed(q.id));
                            }
                        }
                        lemma_linked_frame(old_nodes, self.nodes@, list@, claimed);
                    }
                }
                assert forall|j: int| 0 <= j < self.poppers@.len() implies #[trigger] self.poppers@[j].id
                    < self.next_ticket by {
                    if j < i {
                        assert(old_ps[j] == self.poppers@[j]);
                    } else {
                        assert(old_ps[j + 1] == self.poppers@[j]);
                    }
                }
                assert forall|j: int, l: int|
                    #![trigger guards(self.poppers@[j]), self.poppers@[l]]
                    0 <= j < self.poppers@.len() && 0 <= l < self.poppers@.len() && guards(
                        self.poppers@[j],
                    ) is Some implies !reads(self.poppers@[l], guards(self.poppers@[j])->0 as int) by {
                    let jj = if j < i {
                        j
                    } else {
                        j + 1
                    };
                    let ll = if l < i {
                        l
                    } else {
                        l + 1
                    };
                    assert(old_ps[jj] == self.poppers@[j]);
                    assert(old_ps[ll] == self.poppers@[l]);
                    assert(guards(old_ps[jj]) is Some ==> !reads(old_ps[ll], guards(old_ps[jj])->0 as int));
                }
                assert forall|x: int, y: int|
                    0 <= x < y < self.poppers@.len() implies self.poppers@[x].id != self.poppers@[y].id by {
                    let xx = if x < i {
                        x
                    } else {
                        x + 1
                    };
                    let yy = if y < i {
                        y
                    } else {
                        y + 1
                    };
                    assert(old_ps[xx] == self.poppers@[x]);
                    assert(old_ps[yy] == self.poppers@[y]);
                }
                assert forall|x: int|
                    0 <= x < old_ps.len() && old_ps[x].id != t.id implies x != i by {}
                Self::lemma_others_kept(
                    old(self),
                    self,
                    t.id,
                    |x: int|
                        if x < i {
                            x
                        } else {
                            x - 1
                        },
                );
                assert(self@ =~= old(self)@);
            }
            None
        }
    }

    /// Finishes the reclamation of the pop of `t`, which took the
    /// pending-delete list when it was alone: it lowers the hazard counter.
    /// If that leaves no pop in progress, nothing taken can still be read
    /// and all of it is reclaimed; otherwise the taken list goes back onto
    /// the pending-delete list. The pop's own node is reclaimed either way:
    /// no pop in progress had read it when the list was taken, and none
    /// can reach it since.
    #[verifier::spinoff_prover]
    #[verifier::rlimit(100)]
    pub fn finish_reclaim(&mut self, t: PopTicket)
        requires
            old(self).wf(),
            old(self).holds_ticket(t),
            old(self).in_stage(t, PopStage::Reclaiming),
        ensures
            final(self).wf(),
            final(self)@ == old(self)@,
            forall|u: PopTicket|
                u.id() != t.id() && old(self).holds_ticket(u) ==> #[trigger] final(self).unlinked_node(u)
                    == old(self).unlinked_node(u),
            forall|u: PopTicket|
                u.id() != t.id() && old(self).holds_ticket(u) ==> #[trigger] final(self).claimed_len(u)
                    == old(self).claimed_len(u),
            forall|u: PopTicket|
                u.id() != t.id() && old(self).holds_ticket(u) ==> (old(self).loaded_top(u)
                    ==> #[trigger] final(self).loaded_top(u)),
            forall|u: PopTicket|
                u.id() != t.id() && old(self).holds_ticket(u) ==> (old(self).observed_top(u)
                    ==> #[trigger] final(self).observed_top(u)),
            final(self).popping() + 1 == old(self).popping(),
            forall|u: PopTicket|
                #[trigger] final(self).holds_ticket(u) == (old(self).holds_ticket(u) && u.id()
                    != t.id()),
            forall|u: PopTicket, k: PopStage|
                u.id() != t.id() ==> #[trigger] final(self).in_stage(u, k) == old(self).in_stage(u, k),
            final(self).tickets_issued() <= old(self).tickets_issued(),
            final(self).popping() == 0 ==> final(self).can_begin_pop(),
            ({
                let own: nat = if old(self).unlinked_node(t) {
                    1
                } else {
                    0
                };
                if final(self).popping() == 0 {
                    &&& final(self).free_len() == old(self).free_len() + old(self).claimed_len(t) + own
                    &&& final(self).pending_len() == old(self).pending_len()
                } else {
                    &&& final(self).free_len() == old(self).free_len() + own
                    &&& final(self).pending_len() == old(self).pending_len() + old(self).claimed_len(t)
                }
            }),
    {
        let i = self.find_popper(t.id);
        let p = self.poppers[i];
        proof {
            self.lemma_popper(i as int);
            reveal(Stack::wf);
        }
        let ghost old_ps = self.poppers@;
        let ghost old_states = self.states@;
        let ghost old_free = self.free@;
        let ghost old_nodes = self.nodes@;
        let ghost old_pending = self.pending@;
        let ghost old_chain = self.chain@;
        let (node, claimed, list) = match p.phase {
            PopPhase::Reclaiming { node, claimed, list } => (node, claimed, list),
            _ => (None, None, Ghost(Seq::empty())),
        };
        let ghost list = list@;
        let ghost reclaimed = if node is Some {
            list.push(node->0)
        } else {
            list
        };
        proof {
            self.lemma_popper_of(t, i as int);
            assert(old_ps[i as int].id == t.id);
            assert(stage(old_ps[i as int].phase) == PopStage::Reclaiming);
            lemma_holding_remove(old_ps, i as int);
            assert forall|j: int| 0 <= j < list.len() implies #[trigger] old_states[list[j] as int]
                == NodeState::Claimed(t.id) by {}
        }
        self.threads_in_pop = self.threads_in_pop - 1;
        if self.threads_in_pop == 0 {
            drop_nodes(&self.nodes, &mut self.free, claimed, Ghost(list));
        } else if let Some(first) = claimed {
            self.chain_pending_nodes(first, Ghost(list));
        }
        if let Some(d) = node {
            self.free.push(d);
        }
        self.poppers.remove(i);
        if self.threads_in_pop == 0 {
            self.next_ticket = 0;
        }
        proof {
            let rest = self.poppers@;
            let alone = self.threads_in_pop == 0;
            let freed = if alone {
                reclaimed
            } else if node is Some {
                seq![node->0]
            } else {
                Seq::empty()
            };
            self.states = Ghost(
                Seq::new(
                    old_states.len(),
                    |k: int|
                        if in_list(freed, k) {
                            NodeState::Free
                        } else if in_list(list, k) {
                            NodeState::Pending
                        } else {
                            old_states[k]
                        },
                ),
            );
            if !alone && claimed is None {
                assert(list.len() == 0);
            }
            if !alone {
                assert(self.pending@ =~= list + old_pending);
            }
            assert(self.free@ =~= old_free + freed);
            // Every node taken or owned is neither free, pending nor on the stack.
            assert forall|j: int| 0 <= j < reclaimed.len() implies #[trigger] reclaimed[j]
                < old_nodes.len() && !(old_states[reclaimed[j] as int] is Free) && !(
            old_states[reclaimed[j] as int] is OnStack) && !(old_states[reclaimed[j] as int] is Pending) by {
                if j < list.len() {
                    assert(old_states[list[j] as int] == NodeState::Claimed(t.id));
                }
            }
            assert forall|j: int, l: int| 0 <= j < l < reclaimed.len() implies reclaimed[j] != reclaimed[l] by {
                if l == list.len() {
                    assert(old_states[list[j] as int] == NodeState::Claimed(t.id));
                }
            }
            assert forall|k: int| #[trigger] in_list(freed, k) implies in_list(reclaimed, k) by {
                let j = choose|j: int| 0 <= j < freed.len() && freed[j] as int == k;
                if !alone {
                    assert(reclaimed[list.len() as int] == freed[j]);
                }
            }
            assert forall|k: int|
                0 <= k < old_states.len() && (old_states[k] is OnStack || old_states[k] is Pending
                    || old_states[k] is Free) implies self.states@[k] == old_states[k] by {
                if in_list(freed, k) {
                    let j = choose|j: int| 0 <= j < reclaimed.len() && reclaimed[j] as int == k;
                    assert(!(old_states[reclaimed[j] as int] is Free));
                }
                if in_list(list, k) {
                    let j = choose|j: int| 0 <= j < list.len() && list[j] as int == k;
                    assert(reclaimed[j] == list[j]);
                }
            }
            assert forall|j: int|
                0 <= j < self.chain@.len() implies #[trigger] self.states@[self.chain@[j] as int]
                == NodeState::OnStack && self.nodes@[self.chain@[j] as int].data is Some by {
                assert(old_states[old_chain[j] as int] == NodeState::OnStack);
            }
            assert forall|j: int| 0 <= j < old_pending.len() implies #[trigger] self.states@[old_pending[j] as int]
                == NodeState::Pending by {
                assert(old_states[old_pending[j] as int] == NodeState::Pending);
            }
            assert forall|j: int|
                0 <= j < self.pending@.len() implies #[trigger] self.states@[self.pending@[j] as int]
                == NodeState::Pending by {
                if j < list.len() && !alone {
                    assert(in_list(list, list[j] as int));
                    assert(reclaimed[j] == list[j]);
                    if in_list(freed, list[j] as int) {
                        assert(freed[0] == list[j]);
                        assert(reclaimed[list.len() as int] == list[j]);
                    }
                } else if !alone {
                    assert(self.pending@[j] == old_pending[j - list.len()]);
                } else {
                    assert(self.pending@[j] == old_pending[j]);
                }
            }
            assert forall|j: int, l: int| 0 <= j < l < self.free@.len() implies self.free@[j] != self.free@[l] by {
                if l >= old_free.len() && j < old_free.len() {
                    assert(old_states[old_free[j] as int] == NodeState::Free);
                    assert(in_list(freed, freed[l - old_free.len()] as int));
                    assert(in_list(reclaimed, freed[l - old_free.len()] as int));
                }
                if j >= old_free.len() {
                    assert(in_list(freed, freed[j - old_free.len()] as int));
                    assert(in_list(reclaimed, freed[j - old_free.len()] as int));
                }
            }
            assert forall|j: int| 0 <= j < self.free@.len() implies #[trigger] self.free@[j]
                < self.nodes@.len() && self.states@[self.free@[j] as int] == NodeState::Free by {
                if j >= old_free.len() {
                    assert(self.free@[j] == freed[j - old_free.len()]);
                    assert(in_list(freed, self.free@[j] as int));
                    assert(in_list(reclaimed, self.free@[j] as int));
                } else {
                    assert(old_states[old_free[j] as int] == NodeState::Free);
                }
            }
            Self::lemma_tickets_after_remove(old(self), self, i as int);
            assert forall|j: int| 0 <= j < rest.len() implies self.popper_ok(#[trigger] rest[j]) by {
                let jj = if j < i {
                    j
                } else {
                    j + 1
                };
                let q = old_ps[jj];
                assert(q == rest[j]);
                assert(old(self).popper_ok(q));
                assert(q.id != t.id);
                if node is Some {
                    assert(guards(old_ps[i as int]) == node);
                    assert(!reads(old_ps[jj], node->0 as int));
                }
                assert(!alone);
                match q.phase {
                    PopPhase::Reclaiming { node: qn, claimed: qc, list: ql } => {
                        assert forall|k: int| 0 <= k < ql@.len() implies #[trigger] self.states@[ql@[k] as int]
                            == NodeState::Claimed(q.id) by {
                            assert(old_states[ql@[k] as int] == NodeState::Claimed(q.id));
                            assert(!in_list(reclaimed, ql@[k] as int));
                            assert(!in_list(list, ql@[k] as int));
                        }
                        if list.len() > 0 {
                            assert forall|k: int| 0 <= k < ql@.len() implies #[trigger] ql@[k]
                                != list.last() by {
                                assert(old_states[ql@[k] as int] == NodeState::Claimed(q.id));
                            }
                        }
                        lemma_linked_frame(old_nodes, self.nodes@, ql@, qc);
                        if let Some(qd) = qn {
                            assert(old_states[qd as int] == NodeState::Detached(q.id));
                            assert(!in_list(reclaimed, qd as int));
                            assert(!in_list(list, qd as int));
                        }
                    },
                    PopPhase::Unlinked { node: Some(qd) } => {
                        assert(old_states[qd as int] == NodeState::Detached(q.id));
                        assert(!in_list(reclaimed, qd as int));
                        assert(!in_list(list, qd as int));
                    },
                    PopPhase::Loaded { node: Some(n) } => {
                        if in_list(reclaimed, n as int) {
                            let l = choose|l: int| 0 <= l < reclaimed.len() && reclaimed[l] as int == n as int;
                            if l == list.len() {
                                assert(reads(q, n as int));
                            }
                        }
                    },
                    PopPhase::Observed { slot, next } => {
                        if in_list(reclaimed, slot as int) {
                            let l = choose|l: int| 0 <= l < reclaimed.len() && reclaimed[l] as int == slot as int;
                            if l == list.len() {
                                assert(reads(q, slot as int));
                            }
                        }
                        if list.len() > 0 && slot == list.last() {
                            assert(!(old_states[slot as int] is OnStack));
                        }
                    },
                    _ => {},
                }
            }
            assert forall|j: int| 0 <= j < rest.len() implies #[trigger] rest[j].id < self.next_ticket by {
                if j < i {
                    assert(old_ps[j] == rest[j]);
                } else {
                    assert(old_ps[j + 1] == rest[j]);
                }
            }
            assert forall|j: int, l: int|
                #![trigger guards(rest[j]), rest[l]]
                0 <= j < rest.len() && 0 <= l < rest.len() && guards(rest[j]) is Some implies !reads(
                    rest[l],
                    guards(rest[j])->0 as int,
                ) by {
                let jj = if j < i {
                    j
                } else {
                    j + 1
                };
                let ll = if l < i {
                    l
                } else {
                    l + 1
                };
                assert(old_ps[jj] == rest[j]);
                assert(old_ps[ll] == rest[l]);
                assert(guards(old_ps[jj]) is Some ==> !reads(old_ps[ll], guards(old_ps[jj])->0 as int));
            }
            if !alone {
                assert(linked(self.nodes@, self.pending@, self.to_be_delete)) by {
                    if list.len() > 0 {
                        assert forall|j: int| 0 <= j < old_pending.len() implies #[trigger] old_pending[j]
                            != list.last() by {
                            assert(old_states[old_pending[j] as int] == NodeState::Pending);
                        }
                        assert forall|j: int, l: int| 0 <= j < list.len() && 0 <= l < old_pending.len() implies list[j]
                            != old_pending[l] by {
                            assert(old_states[old_pending[l] as int] == NodeState::Pending);
                        }
                    }
                }
            }
            assert forall|x: int, y: int|
                0 <= x < y < rest.len() implies rest[x].id != rest[y].id by {
                let xx = if x < i {
                    x
                } else {
                    x + 1
                };
                let yy = if y < i {
                    y
                } else {
                    y + 1
                };
                assert(old_ps[xx] == rest[x]);
                assert(old_ps[yy] == rest[y]);
            }
            assert forall|x: int| 0 <= x < old_ps.len() && old_ps[x].id != t.id implies x != i by {}
            Self::lemma_others_kept(
                old(self),
                self,
                t.id,
                |x: int|
                    if x < i {
                        x
                    } else {
                        x - 1
                    },
            );
            assert(self@ =~= old(self)@);
        }
    }

    /// The elements, top first, by reference.
    pub fn elements(&self) -> (r: Vec<&T>)
        requires
            self.wf(),
        ensures
            r@.len() == self@.len(),
            forall|i: int| 0 <= i < r@.len() ==> *r@[i] == self@[i],
    {
        proof {
            reveal(Stack::wf);
        }
        let mut out: Vec<&T> = Vec::new();
        let mut cur = self.top;
        let ghost mut k: int = 0;
        let ghost chain = self.chain@;
        assert forall|i: int| 0 <= i < chain.len() implies self.nodes@[#[trigger] chain[i] as int].data is Some by {
            assert(self.states@[chain[i] as int] == NodeState::OnStack);
        }
        while cur.is_some()
            invariant
                self.wf(),
                chain == self.chain@,
                linked(self.nodes@, chain, self.top),
                forall|i: int|
                    0 <= i < chain.len() ==> self.nodes@[#[trigger] chain[i] as int].data is Some,
                0 <= k <= chain.len(),
                cur == (if k < chain.len() { Some(chain[k]) } else { None::<usize> }),
                out@.len() == k,
                forall|i: int| 0 <= i < k ==> *out@[i] == self@[i],
            decreases chain.len() - k,
        {
            let n = cur.unwrap();
            let d = self.nodes[n].data.as_ref().unwrap();
            out.push(d);
            cur = self.nodes[n].next;
            proof {
                k = k + 1;
            }
        }
        out
    }


    /// Number of pops in progress.
    pub fn threads_in_pop(&self) -> (r: u32)
        ensures
            r == self.popping(),
    {
        self.threads_in_pop
    }

    /// Number of reclaimed slots ready for reuse.
    pub fn reclaimed_slots(&self) -> (r: usize)
        ensures
            r == self.free_len(),
    {
        self.free.len()
    }

    /// Number of arena slots, in use or reclaimed.
    pub fn arena_len(&self) -> (r: usize)
        ensures
            r == self.slots(),
    {
        self.nodes.len()
    }

    proof fn lemma_pending_bounded(&self)
        requires
            self.wf(),
        ensures
            linked(self.nodes@, self.pending@, self.to_be_delete),
            self.pending@.len() <= self.nodes@.len(),
    {
        reveal(Stack::wf);
    }

    /// Length of the pending-delete list, counted by walking it.
    pub fn pending_count(&self) -> (r: usize)
        requires
            self.wf(),
        ensures
            r == self.pending_len(),
    {
        proof {
            self.lemma_pending_bounded();
        }
        count_chain(&self.nodes, self.to_be_delete, Ghost(self.pending@))
    }

    /// Pushes `data` on top. The node is stored in a reclaimed slot when
    /// there is one, so the arena only grows when every slot is in use.
    pub fn push(&mut self, data: T)
        requires
            old(self).wf(),
        ensures
            final(self).wf(),
            final(self)@ == seq![data] + old(self)@,
            final(self).popping() == old(self).popping(),
            final(self).tickets_issued() == old(self).tickets_issued(),
            final(self).free_len() == if old(self).free_len() > 0 {
                (old(self).free_len() - 1) as nat
            } else {
                0
            },
            forall|u: PopTicket| #[trigger] final(self).holds_ticket(u) == old(self).holds_ticket(u),
            forall|u: PopTicket, k: PopStage| #[trigger] final(self).in_stage(u, k) == old(self).in_stage(u, k),
            final(self).pending_len() == old(self).pending_len(),
            final(self).resident() == old(self).resident() + 1,
            old(self).free_len() > 0 ==> final(self).slots() == old(self).slots(),
    {
        proof {
            reveal(Stack::wf);
        }
        let ghost old_nodes = self.nodes@;
        let ghost old_chain = self.chain@;
        let ghost old_states = self.states@;
        let ghost old_free = self.free@;
        let node = StackNode::new(data);
        let idx: usize;
        if self.free.len() > 0 {
            let f = self.free.pop().unwrap();
            assert(old_free[old_free.len() - 1] == f);
            self.nodes[f] = node;
            idx = f;
        } else {
            idx = self.nodes.len();
            self.nodes.push(node);
            self.states = Ghost(self.states@.push(NodeState::Free));
        }
        let top = self.top;
        self.nodes[idx].next = top;
        self.top = Some(idx);
        proof {
            assert(self.states@[idx as int] is Free);
            assert forall|i: int| 0 <= i < old_chain.len() implies old_chain[i] != idx by {
                assert(old_states[old_chain[i] as int] == NodeState::OnStack);
            }
            assert forall|i: int| 0 <= i < self.pending@.len() implies self.pending@[i] != idx by {
                assert(old_states[self.pending@[i] as int] == NodeState::Pending);
            }
            assert forall|i: int| 0 <= i < self.free@.len() implies self.free@[i] != idx by {
                assert(old_free[i] == self.free@[i]);
            }
            self.chain = Ghost(seq![idx] + old_chain);
            self.states = Ghost(self.states@.update(idx as int, NodeState::OnStack));
            assert forall|i: int| 0 <= i < self.poppers@.len() implies self.popper_ok(
                #[trigger] self.poppers@[i],
            ) by {
                assert(old(self).popper_ok(self.poppers@[i]));
            }
            assert(self@ =~= seq![data] + old(self)@) by {
                assert forall|i: int| 1 <= i < self.chain@.len() implies self.chain@[i] == old_chain[i - 1] by {}
            }
        }
    }
}


/// The view of a stack that started as `s` after pushing each of `vs`, in
/// order.
pub open spec fn pushed_all<T>(s: Seq<T>, vs: Seq<T>) -> Seq<T>
    decreases vs.len(),
{
    if vs.len() == 0 {
        s
    } else {
        pushed_all(seq![vs[0]] + s, vs.drop_first())
    }
}

/// The elements that `n` successive pops return from a stack viewed as `s`.
pub open spec fn popped_n<T>(s: Seq<T>, n: nat) -> Seq<T>
    decreases n,
{
    if n == 0 || s.len() == 0 {
        Seq::empty()
    } else {
        seq![s[0]] + popped_n(s.drop_first(), (n - 1) as nat)
    }
}

proof fn lemma_pushed_all_reverse<T>(s: Seq<T>, vs: Seq<T>)
    ensures
        pushed_all(s, vs) =~= vs.reverse() + s,
    decreases vs.len(),
{
    if vs.len() > 0 {
        lemma_pushed_all_reverse(seq![vs[0]] + s, vs.drop_first());
        assert(vs.drop_first().reverse() + (seq![vs[0]] + s) =~= vs.reverse() + s);
    }
}

proof fn lemma_popped_prefix<T>(a: Seq<T>, s: Seq<T>)
    ensures
        popped_n(a + s, a.len()) =~= a,
    decreases a.len(),
{
    if a.len() > 0 {
        lemma_popped_prefix(a.drop_first(), s);
        assert((a + s).drop_first() =~= a.drop_first() + s);
    }
}

/// Without interleaving, pushing `vs` and then popping as many times
/// returns them in reverse order of pushing.
pub proof fn lemma_lifo<T>(s: Seq<T>, vs: Seq<T>)
    ensures
        popped_n(pushed_all(s, vs), vs.len()) == vs.reverse(),
{
    lemma_pushed_all_reverse(s, vs);
    lemma_popped_prefix(vs.reverse(), s);
}

/// Neither a push nor the unlinking step of a pop loses or duplicates an
/// element: pushing `v` adds exactly `v` to the multiset of stacked
/// elements, and unlinking the top removes exactly the element handed out.
/// Every other step leaves the elements unchanged.
pub proof fn lemma_no_loss_no_duplication<T>(s: Seq<T>, v: T)
    ensures
        (seq![v] + s).to_multiset() =~= s.to_multiset().insert(v),
        s.len() > 0 ==> s.to_multiset() =~= s.drop_first().to_multiset().insert(s[0]),
{
    broadcast use vstd::seq_lib::lemma_multiset_commutative;
    broadcast use vstd::multiset::group_multiset_axioms;

    assert((seq![v] + s).to_multiset() =~= seq![v].to_multiset().add(s.to_multiset()));
    assert(seq![v] =~= Seq::<T>::empty().push(v));
    Seq::<T>::empty().to_multiset_ensures();
    assert(seq![v].to_multiset() =~= Multiset::empty().insert(v));
    if s.len() > 0 {
        assert(s =~= seq![s[0]] + s.drop_first());
        assert(seq![s[0]] =~= Seq::<T>::empty().push(s[0]));
        assert(seq![s[0]].to_multiset() =~= Multiset::empty().insert(s[0]));
    }
}


/// The view and the elements handed out after a run of atomic events on a
/// stack viewed as `s`: `Some(v)` pushes `v`, `None` unlinks the top (or
/// finds the stack empty).
pub open spec fn run<T>(s: Seq<T>, events: Seq<Option<T>>) -> (Seq<T>, Seq<T>)
    decreases events.len(),
{
    if events.len() == 0 {
        (s, Seq::empty())
    } else {
        let (s1, out1) = match events[0] {
            Some(v) => (seq![v] + s, Seq::<T>::empty()),
            None => if s.len() > 0 {
                (s.drop_first(), seq![s[0]])
            } else {
                (s, Seq::<T>::empty())
            },
        };
        let (s2, out2) = run(s1, events.drop_first());
        (s2, out1 + out2)
    }
}

/// The values that `events` push, in order.
pub open spec fn pushed_values<T>(events: Seq<Option<T>>) -> Seq<T>
    decreases events.len(),
{
    if events.len() == 0 {
        Seq::empty()
    } else {
        let rest = pushed_values(events.drop_first());
        match events[0] {
            Some(v) => seq![v] + rest,
            None => rest,
        }
    }
}

/// Over any run of pushes and pops, however the pops of several threads
/// interleave their steps, every element pushed is either still stacked or
/// handed out by exactly one pop: the stacked and handed-out elements
/// together equal, as a multiset, the elements at the start plus those
/// pushed.
pub proof fn lemma_run_conserves<T>(s: Seq<T>, events: Seq<Option<T>>)
    ensures
        run(s, events).0.to_multiset().add(run(s, events).1.to_multiset()) =~= s.to_multiset().add(
            pushed_values(events).to_multiset(),
        ),
    decreases events.len(),
{
    broadcast use vstd::seq_lib::lemma_multiset_commutative;
    broadcast use vstd::multiset::group_multiset_axioms;

    let e = Seq::<T>::empty();
    e.to_multiset_ensures();
    vstd::multiset::lemma_multiset_empty_len(e.to_multiset());
    assert(e.to_multiset() =~= Multiset::empty());
    if events.len() == 0 {
        assert(pushed_values(events) == e);
        assert(run(s, events) == (s, e));
    } else {
        let rest = events.drop_first();
        let (s1, out1) = match events[0] {
            Some(v) => (seq![v] + s, e),
            None => if s.len() > 0 {
                (s.drop_first(), seq![s[0]])
            } else {
                (s, e)
            },
        };
        lemma_run_conserves(s1, rest);
        let (s2, out2) = run(s1, rest);
        assert(run(s, events) == (s2, out1 + out2));
        assert((out1 + out2).to_multiset() =~= out1.to_multiset().add(out2.to_multiset()));
        let ih = s2.to_multiset().add(out2.to_multiset());
        assert(ih =~= s1.to_multiset().add(pushed_values(rest).to_multiset()));
        match events[0] {
            Some(v) => {
                lemma_no_loss_no_duplication(s, v);
                lemma_no_loss_no_duplication(pushed_values(rest), v);
                assert(pushed_values(events) == seq![v] + pushed_values(rest));
                assert(out1 == e);
                assert(s2.to_multiset().add((out1 + out2).to_multiset()) =~= ih);
                assert(ih =~= s.to_multiset().insert(v).add(pushed_values(rest).to_multiset()));
                assert(s.to_multiset().insert(v).add(pushed_values(rest).to_multiset()) =~= s.to_multiset().add(
                    pushed_values(rest).to_multiset().insert(v),
                ));
            },
            None => {
                assert(pushed_values(events) == pushed_values(rest));
                if s.len() > 0 {
                    lemma_no_loss_no_duplication(s, s[0]);
                    lemma_no_loss_no_duplication(e, s[0]);
                    assert(seq![s[0]] + e =~= seq![s[0]]);
                    assert(seq![s[0]].to_multiset() =~= Multiset::empty().insert(s[0]));
                    assert(s2.to_multiset().add((out1 + out2).to_multiset()) =~= ih.insert(s[0]));
                } else {
                    assert(s2.to_multiset().add((out1 + out2).to_multiset()) =~= ih);
                }
            },
        }
    }
}

/// A slot that a pop in progress is about to read, or will compare `top`
/// against, has not been reclaimed: no pop reads freed memory, and no slot
/// is reused under a pop that still refers to it.
pub proof fn lemma_no_reclaimed_read<T>(s: &Stack<T>, k: int)
    requires
        s.wf(),
        s.observed(k),
    ensures
        0 <= k < s.slots(),
        !(s.state_of(k) is Free),
{
    reveal(Stack::wf);
    let i = choose|i: int| 0 <= i < s.poppers@.len() && reads(#[trigger] s.poppers@[i], k);
    assert(s.popper_ok(s.poppers@[i]));
}

/// With no pop in progress, every arena slot in use holds an element or
/// waits on the pending-delete list: nodes do not leak.
pub proof fn lemma_no_leak<T>(s: &Stack<T>)
    requires
        s.wf(),
        s.popping() == 0,
    ensures
        s.resident() == s@.len() + s.pending_len(),
{
    reveal(Stack::wf);
}

} // verus!
