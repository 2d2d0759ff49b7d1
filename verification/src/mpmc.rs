//! Multi-producer queue kept as a baseline beside the single-producer
//! family. Producers link nodes at `head` in two steps — claim, then publish
//! the link — so a consumer can observe a claimed-but-unpublished window;
//! `pop` reports that window as `Inconsistent`, distinct from `Empty`. In a
//! single-threaded execution every push has published its link before the
//! next pop, so `pop` here provably returns only `Data` or `Empty`.

use vstd::prelude::*;

verus! {

broadcast use vstd::std_specs::vec::group_vec_axioms;

/// A result of the `pop` function.
pub enum PopResult<T> {
    /// Some data has been popped.
    Data(T),
    /// The queue is empty.
    Empty,
    /// A producer has claimed the head but not yet published its link; the
    /// pop should be retried soon.
    Inconsistent,
}

/// Marker: head and tail share cache lines freely.
pub struct NoAlign;

/// Marker: head and tail are placed on separate cache lines. A placement
/// policy only; it changes no observable behavior of the queue.
pub struct CacheAligned;

/// One cell of the queue's chain. `value` is `None` only for the sentinel;
/// `next` is the arena index of the successor.
struct Node<T> {
    next: Option<usize>,
    value: Option<T>,
}

impl<T> Node<T> {
    /// Allocates a fresh, detached cell holding `v` in the arena.
    fn new(nodes: &mut Vec<Node<T>>, v: Option<T>) -> (i: usize)
        ensures
            final(nodes)@ == old(nodes)@.push(Node { next: None, value: v }),
            i == old(nodes)@.len(),
    {
        let i = nodes.len();
        nodes.push(Node { next: None, value: v });
        i
    }
}

/// The node of `nodes` standing at position `k` of the chain `c`.
spec fn cell<T>(nodes: Seq<Node<T>>, c: Seq<usize>, k: int) -> Node<T> {
    nodes[c[k] as int]
}

/// Every chain entry is an arena index.
spec fn chain_in_arena<T>(nodes: Seq<Node<T>>, c: Seq<usize>) -> bool {
    forall|k: int| 0 <= k < c.len() ==> (#[trigger] c[k]) < nodes.len()
}

/// No arena cell appears twice in the chain.
spec fn chain_distinct(c: Seq<usize>) -> bool {
    forall|i: int, j: int| 0 <= i < j < c.len() ==> c[i] != c[j]
}

/// Each cell's `next` names its successor in the chain; the last has none.
spec fn chain_linked<T>(nodes: Seq<Node<T>>, c: Seq<usize>) -> bool {
    &&& forall|k: int|
        0 <= k < c.len() - 1 ==> (#[trigger] cell(nodes, c, k)).next == Some(c[k + 1])
    &&& cell(nodes, c, c.len() - 1).next is None
}

/// Exactly the cells behind the sentinel (position 0) hold values.
spec fn chain_values<T>(nodes: Seq<Node<T>>, c: Seq<usize>) -> bool {
    forall|k: int| 0 <= k < c.len() ==> ((#[trigger] cell(nodes, c, k)).value is Some <==> k > 0)
}

/// The queued values: those behind the sentinel, front first.
spec fn chain_contents<T>(nodes: Seq<Node<T>>, c: Seq<usize>) -> Seq<T> {
    Seq::new((c.len() - 1) as nat, |i: int| cell(nodes, c, 1 + i).value->Some_0)
}

/// The multi-producer single-consumer structure. `Align` is a cache-line
/// placement policy marker. The queue's contents are its view: the sequence
/// of values pushed and not yet popped, front first.
#[verifier::reject_recursive_types(Align)]
pub struct Queue<T, Align> {
    nodes: Vec<Node<T>>,
    head: usize,
    tail: usize,
    // how many chain cells have been unlinked and returned to the allocator
    frees: usize,
    // the arena indices of the chain reachable from `tail`, in link order
    chain: Ghost<Seq<usize>>,
    _align: core::marker::PhantomData<Align>,
}

impl<T, Align> Queue<T, Align> {
    /// The chain of arena indices, from `tail` to `head`.
    spec fn c(&self) -> Seq<usize> {
        self.chain@
    }

    /// Total nodes ever allocated by this queue.
    pub closed spec fn spec_allocations(&self) -> nat {
        self.nodes@.len()
    }

    /// Total nodes this queue has unlinked and freed.
    pub closed spec fn spec_frees(&self) -> nat {
        self.frees as nat
    }

    /// Structural well-formedness: the chain is a duplicate-free, properly
    /// linked list of arena cells; its first cell is the consumed sentinel
    /// `tail`, whose value is absent, and its last is `head`.
    pub closed spec fn wf(&self) -> bool {
        &&& 1 <= self.c().len()
        &&& self.tail == self.c()[0]
        &&& self.head == self.c()[self.c().len() - 1]
        &&& chain_in_arena(self.nodes@, self.c())
        &&& chain_distinct(self.c())
        &&& chain_linked(self.nodes@, self.c())
        &&& chain_values(self.nodes@, self.c())
        &&& self.frees + self.c().len() <= self.nodes@.len()
    }

    /// Number of nodes ever allocated, as an executable count.
    pub fn allocations(&self) -> (n: usize)
        ensures
            n == self.spec_allocations(),
    {
        self.nodes.len()
    }

    /// Number of nodes ever unlinked and freed, as an executable count.
    pub fn freed(&self) -> (n: usize)
        ensures
            n == self.spec_frees(),
    {
        self.frees
    }

    fn init() -> (q: Self)
        ensures
            q.wf(),
            q@ == Seq::<T>::empty(),
            q.spec_allocations() == 1,
            q.spec_frees() == 0,
    {
        let mut nodes: Vec<Node<T>> = Vec::new();
        let stub = Node::new(&mut nodes, None);
        let ghost chain0: Seq<usize> = seq![stub];
        let q = Queue {
            nodes,
            head: stub,
            tail: stub,
            frees: 0,
            chain: Ghost(chain0),
            _align: core::marker::PhantomData,
        };
        proof {
            assert(q@ =~= Seq::<T>::empty());
        }
        q
    }

    /// Pushes a new value onto this queue: a fresh node is claimed as the new
    /// `head` and then published as the previous head's successor.
    pub fn push(&mut self, t: T)
        requires
            old(self).wf(),
        ensures
            final(self).wf(),
            final(self)@ == old(self)@.push(t),
            final(self).spec_allocations() == old(self).spec_allocations() + 1,
            final(self).spec_frees() == old(self).spec_frees(),
    {
        let n = Node::new(&mut self.nodes, Some(t));
        let prev = self.head;
        self.head = n;
        let prevn = &mut self.nodes[prev];
        prevn.next = Some(n);
        self.chain = Ghost(self.chain@.push(n));
        proof {
            let c = self.c();
            let mc = old(self).c();
            let nodes = self.nodes@;
            assert(old(self).head == mc[mc.len() - 1]);
            assert forall|k: int| 0 <= k < mc.len() - 1 implies nodes[(#[trigger] mc[k]) as int]
                == old(self).nodes@[mc[k] as int] by {
                assert(mc[k] != mc[mc.len() - 1]);
                assert(mc[k] < old(self).nodes@.len());
            }
            assert forall|k: int| 0 <= k < c.len() implies (#[trigger] c[k]) < nodes.len() by {
                if k < mc.len() {
                    assert(mc[k] < old(self).nodes@.len());
                }
            }
            assert forall|i: int, j: int| 0 <= i < j < c.len() implies c[i] != c[j] by {
                if j == c.len() - 1 {
                    assert(mc[i] < old(self).nodes@.len());
                }
            }
            assert forall|k: int| 0 <= k < c.len() - 1 implies (#[trigger] cell(
                nodes,
                c,
                k,
            )).next == Some(c[k + 1]) by {
                if k < mc.len() - 1 {
                    assert(cell(old(self).nodes@, mc, k).next == Some(mc[k + 1]));
                    assert(mc[k] < old(self).nodes@.len());
                    assert(mc[k] != mc[mc.len() - 1]);
                }
            }
            assert(cell(nodes, c, c.len() - 1).next is None);
            assert forall|k: int| 0 <= k < c.len() implies ((#[trigger] cell(
                nodes,
                c,
                k,
            )).value is Some <==> k > 0) by {
                if k < mc.len() - 1 {
                    assert(cell(old(self).nodes@, mc, k).value is Some <==> k > 0);
                    assert(mc[k] < old(self).nodes@.len());
                    assert(mc[k] != mc[mc.len() - 1]);
                } else if k == mc.len() - 1 {
                    assert(cell(old(self).nodes@, mc, k).value is Some <==> k > 0);
                }
            }
            assert(final(self)@ =~= old(self)@.push(t)) by {
                assert forall|i: int| 0 <= i < self@.len() implies self@[i] == old(self)@.push(
                    t,
                )[i] by {
                    if i < old(self)@.len() {
                        assert(old(self)@[i] == cell(old(self).nodes@, mc, 1 + i).value->Some_0);
                        assert(mc[1 + i] < old(self).nodes@.len());
                        if 1 + i != mc.len() - 1 {
                            assert(mc[1 + i] != mc[mc.len() - 1]);
                        }
                    }
                }
            }
        }
    }

    /// Pops some data from this queue. `Data` carries the front value;
    /// `Empty` means the queue held nothing. `Inconsistent` reports the
    /// transient claimed-but-unpublished window, which a single-threaded
    /// execution never exhibits: with every link published, an absent
    /// successor pins `head` to `tail`.
    pub fn pop(&mut self) -> (r: PopResult<T>)
        requires
            old(self).wf(),
        ensures
            final(self).wf(),
            old(self)@.len() == 0 ==> r is Empty && final(self)@ == old(self)@ && final(self).spec_allocations() == old(self).spec_allocations() && final(self).spec_frees()
                == old(self).spec_frees(),
            old(self)@.len() > 0 ==> r == PopResult::Data(old(self)@[0]) && final(self)@ == old(self)@.drop_first() && final(self).spec_allocations() == old(self).spec_allocations()
                && final(self).spec_frees() == old(self).spec_frees() + 1,
    {
        let tail = self.tail;
        let next_opt = self.nodes[tail].next;
        match next_opt {
            Some(next) => {
                proof {
                    assert(cell(self.nodes@, self.c(), self.c().len() - 1).next is None);
                    assert(0 < self.c().len() - 1);
                    assert(cell(self.nodes@, self.c(), 0).next == Some(self.c()[1]));
                    assert(next == self.c()[1]);
                    assert(cell(self.nodes@, self.c(), 1).value is Some);
                    assert(old(self)@.len() > 0);
                    vstd::std_specs::vec::axiom_spec_len(&self.nodes);
                }
                let ghost pre = *self;
                self.tail = next;
                let node = &mut self.nodes[next];
                let ret = node.value.take();
                self.frees = self.frees + 1;
                self.chain = Ghost(self.chain@.drop_first());
                proof {
                    let c = self.c();
                    let oc = pre.c();
                    let nodes = self.nodes@;
                    assert(ret == Some(old(self)@[0]));
                    assert forall|k: int| 0 <= k < c.len() implies (#[trigger] c[k]) == oc[k
                        + 1] by {}
                    assert forall|k: int| 0 <= k < c.len() implies (#[trigger] c[k])
                        < nodes.len() by {
                        assert(oc[k + 1] < nodes.len());
                    }
                    assert forall|i: int, j: int| 0 <= i < j < c.len() implies c[i] != c[j] by {
                        assert(oc[i + 1] != oc[j + 1]);
                    }
                    assert forall|k: int| 0 <= k < c.len() - 1 implies (#[trigger] cell(
                        nodes,
                        c,
                        k,
                    )).next == Some(c[k + 1]) by {
                        assert(cell(pre.nodes@, oc, k + 1).next == Some(oc[k + 2]));
                        assert(oc[k + 1] == oc[1] <==> k + 1 == 1);
                    }
                    assert(cell(nodes, c, c.len() - 1).next is None) by {
                        assert(cell(pre.nodes@, oc, oc.len() - 1).next is None);
                    }
                    assert forall|k: int| 0 <= k < c.len() implies ((#[trigger] cell(
                        nodes,
                        c,
                        k,
                    )).value is Some <==> k > 0) by {
                        assert(cell(pre.nodes@, oc, k + 1).value is Some <==> k + 1 > 0);
                        assert(oc[k + 1] == oc[1] <==> k + 1 == 1);
                    }
                    assert(final(self)@ =~= old(self)@.drop_first()) by {
                        assert forall|i: int| 0 <= i < self@.len() implies self@[i] == old(self)@.drop_first()[i] by {
                            assert(c[1 + i] == oc[2 + i]);
                            assert(oc[2 + i] != oc[1]);
                            assert(cell(nodes, c, 1 + i) == cell(pre.nodes@, oc, 2 + i));
                        }
                    }
                }
                match ret {
                    Some(t) => PopResult::Data(t),
                    None => PopResult::Inconsistent,
                }
            },
            None => {
                proof {
                    if self.c().len() > 1 {
                        assert(cell(self.nodes@, self.c(), 0).next == Some(self.c()[1]));
                    }
                    assert(old(self)@.len() == 0);
                }
                let head = self.head;
                if head == tail {
                    PopResult::Empty
                } else {
                    PopResult::Inconsistent
                }
            },
        }
    }

}

impl<T, Align> View for Queue<T, Align> {
    type V = Seq<T>;

    /// The queued values, front first.
    closed spec fn view(&self) -> Seq<T> {
        chain_contents(self.nodes@, self.c())
    }
}

impl<T> Queue<T, NoAlign> {
    /// Creates a new queue that is safe to share among multiple producers
    /// and one consumer.
    pub fn new() -> (q: Self)
        ensures
            q.wf(),
            q@ == Seq::<T>::empty(),
            q.spec_allocations() == 1,
            q.spec_frees() == 0,
    {
        Self::init()
    }
}

impl<T> Queue<T, CacheAligned> {
    /// As `new`, with the cache-line placement policy for head and tail.
    pub fn aligned() -> (q: Self)
        ensures
            q.wf(),
            q@ == Seq::<T>::empty(),
            q.spec_allocations() == 1,
            q.spec_frees() == 0,
    {
        Self::init()
    }
}

} // verus!
