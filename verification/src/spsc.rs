//! Single-producer/single-consumer queue over a chain of nodes, with a
//! node-reuse cache whose size can be bounded, unbounded, or disabled.
//!
//! The chain of nodes is held in an arena (`nodes`), linked by arena index.
//! `tail` is always a sentinel: the values currently queued sit strictly
//! behind it, up to `head`. Nodes in front of `tail_prev` form the reuse pool
//! the producer draws from before allocating a fresh node.

use vstd::prelude::*;

verus! {

broadcast use vstd::std_specs::vec::group_vec_axioms;

/// Marker: producer and consumer halves share cache lines freely.
pub struct NoAlign;

/// Marker: producer and consumer halves are placed on separate cache lines.
/// A placement policy only; it changes no observable behavior of the queue.
pub struct CacheAligned;

/// Policy marker: keep a reuse cache of popped nodes.
pub struct NormalNodeCache;

/// Policy marker: never reuse nodes; every popped-from node is freed at once.
pub struct NoNodeCache;

/// Selects at the type level whether popped nodes are kept for reuse.
pub trait UseCache {
    /// Whether this policy keeps a node-reuse cache.
    spec fn cache_enabled() -> bool;

    /// Runtime value of the policy.
    fn use_cache() -> (b: bool)
        ensures
            b == Self::cache_enabled(),
    ;
}

impl UseCache for NormalNodeCache {
    open spec fn cache_enabled() -> bool {
        true
    }

    fn use_cache() -> bool {
        true
    }
}

impl UseCache for NoNodeCache {
    open spec fn cache_enabled() -> bool {
        false
    }

    fn use_cache() -> bool {
        false
    }
}

/// One cell of the queue's chain. `value` is `None` for the sentinel and for
/// consumed or pooled cells; `next` is the arena index of the successor.
struct Node<T> {
    value: Option<T>,
    next: Option<usize>,
}

impl<T> Node<T> {
    /// Allocates a fresh, detached, empty cell in the arena, returning its index.
    fn new(nodes: &mut Vec<Node<T>>) -> (i: usize)
        ensures
            final(nodes)@ == old(nodes)@.push(Node { value: None, next: None }),
            i == old(nodes)@.len(),
    {
        let i = nodes.len();
        nodes.push(Node { value: None, next: None });
        i
    }
}

/// The node of `nodes` standing at position `k` of the chain `c`.
spec fn cell<T>(nodes: Seq<Node<T>>, c: Seq<usize>, k: int) -> Node<T> {
    nodes[c[k] as int]
}

/// Every chain entry is an arena index.
spec fn chain_in_arena<T>(nodes: Seq<Node<T>>, c: Seq<usize>) -> bool {
    forall|k: int| 0 <= k < c.len() ==> (#[trigger] c[k]) < nodes.len()
}

/// No arena cell appears twice in the chain.
spec fn chain_distinct(c: Seq<usize>) -> bool {
    forall|i: int, j: int| 0 <= i < j < c.len() ==> c[i] != c[j]
}

/// Each cell's `next` names its successor in the chain; the last has none.
spec fn chain_linked<T>(nodes: Seq<Node<T>>, c: Seq<usize>) -> bool {
    &&& forall|k: int|
        0 <= k < c.len() - 1 ==> (#[trigger] cell(nodes, c, k)).next == Some(c[k + 1])
    &&& cell(nodes, c, c.len() - 1).next is None
}

/// Exactly the cells strictly behind the sentinel position hold values.
spec fn chain_values<T>(nodes: Seq<Node<T>>, c: Seq<usize>, tp: int) -> bool {
    forall|k: int|
        0 <= k < c.len() ==> ((#[trigger] cell(nodes, c, k)).value is Some <==> k > tp)
}

/// The queued values: those behind the sentinel position, front first.
spec fn chain_contents<T>(nodes: Seq<Node<T>>, c: Seq<usize>, tp: int) -> Seq<T> {
    Seq::new((c.len() - 1 - tp) as nat, |i: int| cell(nodes, c, tp + 1 + i).value->Some_0)
}

/// A mutation that leaves every chain cell untouched preserves the chain's
/// structure and contents.
proof fn lemma_chain_untouched<T>(pre: Seq<Node<T>>, post: Seq<Node<T>>, c: Seq<usize>, tp: int)
    requires
        1 <= c.len(),
        0 <= tp < c.len(),
        chain_in_arena(pre, c),
        post.len() >= pre.len(),
        forall|k: int| 0 <= k < c.len() ==> post[(#[trigger] c[k]) as int] == pre[c[k] as int],
        chain_linked(pre, c),
        chain_values(pre, c, tp),
    ensures
        chain_in_arena(post, c),
        chain_linked(post, c),
        chain_values(post, c, tp),
        chain_contents(post, c, tp) == chain_contents(pre, c, tp),
{
    assert forall|k: int| 0 <= k < c.len() - 1 implies (#[trigger] cell(post, c, k)).next == Some(
        c[k + 1],
    ) by {
        assert(cell(pre, c, k).next == Some(c[k + 1]));
    }
    assert(cell(post, c, c.len() - 1).next is None) by {
        assert(cell(pre, c, c.len() - 1).next is None);
    }
    assert forall|k: int| 0 <= k < c.len() implies ((#[trigger] cell(post, c, k)).value is Some
        <==> k > tp) by {
        assert(cell(pre, c, k).value is Some <==> k > tp);
    }
    assert(chain_contents(post, c, tp) =~= chain_contents(pre, c, tp)) by {
        assert forall|i: int| 0 <= i < chain_contents(post, c, tp).len() implies chain_contents(
            post,
            c,
            tp,
        )[i] == chain_contents(pre, c, tp)[i] by {
            assert(0 <= tp + 1 + i < c.len());
            assert(cell(post, c, tp + 1 + i) == cell(pre, c, tp + 1 + i));
        }
    }
}

/// Single-producer/single-consumer queue.
///
/// `Align` is a cache-line placement policy marker and `CacheType` selects the
/// node-reuse policy. The queue's contents are its view: the sequence of
/// values pushed and not yet popped, front first.
#[verifier::reject_recursive_types(Align)]
#[verifier::reject_recursive_types(CacheType)]
pub struct Queue<T, Align, CacheType> {
    nodes: Vec<Node<T>>,
    // consumer fields
    tail: usize,
    tail_prev: usize,
    // producer fields
    head: usize,
    first: usize,
    tail_copy: usize,
    // cache bookkeeping; additions and subtractions are kept separately so
    // that each side of the queue only ever writes its own counter
    cache_bound: usize,
    cache_additions: usize,
    cache_subtractions: usize,
    // how many chain cells have been unlinked and returned to the allocator
    frees: usize,
    // the arena indices of the chain reachable from `first`, in link order
    chain: Ghost<Seq<usize>>,
    // position of `tail` within `chain`
    tpos: Ghost<int>,
    // position of `tail_copy` within `chain`
    cpos: Ghost<int>,
    _align: core::marker::PhantomData<Align>,
    _cache: core::marker::PhantomData<CacheType>,
}

impl<T, Align, CacheType> Queue<T, Align, CacheType> {
    /// The chain of arena indices, from `first` to `head`.
    spec fn c(&self) -> Seq<usize> {
        self.chain@
    }

    /// Position of the sentinel `tail` in the chain.
    spec fn tp(&self) -> int {
        self.tpos@
    }

    /// The configured bound on the reuse cache; 0 means unbounded.
    pub closed spec fn bound(&self) -> usize {
        self.cache_bound
    }

    /// Total nodes ever allocated by this queue.
    pub closed spec fn spec_allocations(&self) -> nat {
        self.nodes@.len()
    }

    /// Total nodes this queue has unlinked and freed.
    pub closed spec fn spec_frees(&self) -> nat {
        self.frees as nat
    }

    /// Number of nodes currently held in the reuse pool.
    pub closed spec fn pool_len(&self) -> int {
        self.tp() - 1
    }

    /// The cache-addition counter has not reached its machine limit. Reuse
    /// stops, in favor of freeing, once the counter saturates.
    pub closed spec fn cache_headroom(&self) -> bool {
        self.cache_additions < usize::MAX
    }

    spec fn cursors_ok(&self) -> bool {
        &&& 2 <= self.c().len()
        &&& 1 <= self.tp() < self.c().len()
        &&& self.first == self.c()[0]
        &&& self.head == self.c()[self.c().len() - 1]
        &&& self.tail == self.c()[self.tp()]
        &&& self.tail_prev == self.c()[self.tp() - 1]
        &&& 0 <= self.cpos@ <= self.tp() - 1
        &&& self.tail_copy == self.c()[self.cpos@]
    }

    spec fn arena_ok(&self) -> bool {
        self.frees + self.c().len() <= self.nodes@.len()
    }

    /// Number of nodes ever allocated, as an executable count.
    pub fn allocations(&self) -> (n: usize)
        ensures
            n == self.spec_allocations(),
    {
        self.nodes.len()
    }

    /// Number of nodes ever unlinked and freed, as an executable count.
    pub fn freed(&self) -> (n: usize)
        ensures
            n == self.spec_frees(),
    {
        self.frees
    }
}

impl<T, Align, CacheType> View for Queue<T, Align, CacheType> {
    type V = Seq<T>;

    /// The queued values, front first.
    closed spec fn view(&self) -> Seq<T> {
        chain_contents(self.nodes@, self.c(), self.tp())
    }
}

impl<T, Align, CacheType: UseCache> Queue<T, Align, CacheType> {
    spec fn counters_ok(&self) -> bool {
        &&& self.cache_subtractions <= self.cache_additions
        &&& self.cache_additions - self.cache_subtractions == if self.cache_bound > 0
            && CacheType::cache_enabled() {
            self.pool_len()
        } else {
            0
        }
        &&& (self.cache_bound == 0 || !CacheType::cache_enabled()) ==> self.cache_additions == 0
            && self.cache_subtractions == 0
        &&& (self.cache_bound > 0 && CacheType::cache_enabled()) ==> self.pool_len()
            <= self.cache_bound
        &&& !CacheType::cache_enabled() ==> self.tp() == 1
    }

    /// Structural well-formedness of the queue: the chain is a duplicate-free,
    /// properly linked list of arena cells; exactly the cells behind the
    /// sentinel hold values; the cursors sit where the protocol demands; and
    /// the cache counters account for the reuse pool, which respects its bound.
    pub closed spec fn wf(&self) -> bool {
        &&& self.cursors_ok()
        &&& chain_in_arena(self.nodes@, self.c())
        &&& chain_distinct(self.c())
        &&& chain_linked(self.nodes@, self.c())
        &&& chain_values(self.nodes@, self.c(), self.tp())
        &&& self.counters_ok()
        &&& self.arena_ok()
    }

    /// Every well-formed queue with a positive reuse bound holds at most
    /// `bound` nodes in its reuse pool.
    pub proof fn lemma_cache_bound_respected(&self)
        requires
            self.wf(),
            self.bound() > 0,
            CacheType::cache_enabled(),
        ensures
            0 <= self.pool_len() <= self.bound(),
    {
    }

    /// With reuse disabled the pool is always empty.
    pub proof fn lemma_no_cache_no_pool(&self)
        requires
            self.wf(),
            !CacheType::cache_enabled(),
        ensures
            self.pool_len() == 0,
    {
    }

    /// Takes the pool node at the front of the chain for reuse.
    fn take_first(&mut self) -> (n: usize)
        requires
            old(self).wf(),
            CacheType::cache_enabled(),
            old(self).first != old(self).tail_copy,
        ensures
            final(self).wf(),
            final(self)@ == old(self)@,
            final(self).bound() == old(self).bound(),
            final(self).spec_frees() == old(self).spec_frees(),
            final(self).spec_allocations() == old(self).spec_allocations(),
            final(self).pool_len() == old(self).pool_len() - 1,
            final(self).cache_headroom() == old(self).cache_headroom(),
            final(self).head == old(self).head,
            n < final(self).nodes@.len(),
            final(self).nodes@[n as int].value is None,
            forall|k: int| 0 <= k < final(self).c().len() ==> final(self).c()[k] != n,
            final(self).frees + final(self).c().len() < final(self).nodes@.len(),
    {
        proof {
            // `first` and `tail_copy` are distinct chain entries, so the pool
            // in front of the copy holds at least one node.
            assert(old(self).cpos@ >= 1);
            assert(old(self).tp() >= 2);
            assert(cell(old(self).nodes@, old(self).c(), 0).next == Some(old(self).c()[1]));
            assert(cell(old(self).nodes@, old(self).c(), 0).value is None);
        }
        if self.cache_bound > 0 {
            let b = self.cache_subtractions;
            self.cache_subtractions = b + 1;
        }
        let ret = self.first;
        let nxt = self.nodes[ret].next;
        self.first = nxt.unwrap();
        self.chain = Ghost(self.chain@.drop_first());
        self.tpos = Ghost(self.tpos@ - 1);
        self.cpos = Ghost(self.cpos@ - 1);
        proof {
            let pre = *old(self);
            let nodes = self.nodes@;
            let oc = pre.c();
            let c = self.c();
            assert forall|k: int| 0 <= k < c.len() implies (#[trigger] c[k]) == oc[k + 1] by {}
            assert forall|k: int| 0 <= k < c.len() implies (#[trigger] c[k]) < nodes.len() by {
                assert(oc[k + 1] < nodes.len());
            }
            assert forall|i: int, j: int| 0 <= i < j < c.len() implies c[i] != c[j] by {
                assert(oc[i + 1] != oc[j + 1]);
            }
            assert forall|k: int| 0 <= k < c.len() - 1 implies (#[trigger] cell(
                nodes,
                c,
                k,
            )).next == Some(c[k + 1]) by {
                assert(cell(nodes, oc, k + 1).next == Some(oc[k + 2]));
            }
            assert(cell(nodes, c, c.len() - 1).next is None) by {
                assert(cell(nodes, oc, oc.len() - 1).next is None);
            }
            assert forall|k: int| 0 <= k < c.len() implies ((#[trigger] cell(
                nodes,
                c,
                k,
            )).value is Some <==> k > self.tp()) by {
                assert(cell(nodes, oc, k + 1).value is Some <==> k + 1 > pre.tp());
            }
            assert forall|k: int| 0 <= k < c.len() implies c[k] != ret by {
                assert(oc[k + 1] != oc[0]);
            }
            assert(self@ =~= old(self)@) by {
                assert forall|i: int| 0 <= i < self@.len() implies self@[i] == old(self)@[i] by {
                    assert(cell(nodes, c, self.tp() + 1 + i) == cell(
                        nodes,
                        oc,
                        pre.tp() + 1 + i,
                    ));
                }
            }
        }
        ret
    }

    /// Appends a fresh arena node, leaving the chain untouched.
    fn alloc_fresh(&mut self) -> (n: usize)
        requires
            old(self).wf(),
        ensures
            final(self).wf(),
            final(self)@ == old(self)@,
            final(self).bound() == old(self).bound(),
            final(self).spec_frees() == old(self).spec_frees(),
            final(self).spec_allocations() == old(self).spec_allocations() + 1,
            final(self).pool_len() == old(self).pool_len(),
            final(self).cache_headroom() == old(self).cache_headroom(),
            final(self).head == old(self).head,
            n < final(self).nodes@.len(),
            final(self).nodes@[n as int].value is None,
            forall|k: int| 0 <= k < final(self).c().len() ==> final(self).c()[k] != n,
            final(self).frees + final(self).c().len() < final(self).nodes@.len(),
    {
        let n = Node::new(&mut self.nodes);
        proof {
            let pre = *old(self);
            assert forall|k: int| 0 <= k < pre.c().len() implies self.nodes@[(
            #[trigger] pre.c()[k]) as int] == pre.nodes@[pre.c()[k] as int] by {
                assert(pre.c()[k] < pre.nodes@.len());
            }
            lemma_chain_untouched(pre.nodes@, self.nodes@, pre.c(), pre.tp());
            assert forall|k: int| 0 <= k < self.c().len() implies self.c()[k] != n by {
                assert(pre.c()[k] < pre.nodes@.len());
            }
        }
        n
    }

    /// Obtains a detached, empty node: from the reuse pool when the policy
    /// keeps one and it is non-empty, else by allocating afresh.
    fn alloc_node(&mut self) -> (n: usize)
        requires
            old(self).wf(),
        ensures
            final(self).wf(),
            final(self)@ == old(self)@,
            final(self).bound() == old(self).bound(),
            final(self).spec_frees() == old(self).spec_frees(),
            final(self).cache_headroom() == old(self).cache_headroom(),
            final(self).head == old(self).head,
            n < final(self).nodes@.len(),
            final(self).nodes@[n as int].value is None,
            forall|k: int| 0 <= k < final(self).c().len() ==> final(self).c()[k] != n,
            final(self).frees + final(self).c().len() < final(self).nodes@.len(),
            (CacheType::cache_enabled() && old(self).pool_len() > 0) ==> final(self).spec_allocations() == old(self).spec_allocations() && final(self).pool_len() == old(self).pool_len() - 1,
            !(CacheType::cache_enabled() && old(self).pool_len() > 0) ==> final(self).spec_allocations() == old(self).spec_allocations() + 1 && final(self).pool_len()
                == old(self).pool_len(),
    {
        if !CacheType::use_cache() {
            return self.alloc_fresh();
        }
        // First see whether the pool has a node below the producer's copy of
        // the consumer's released boundary.
        if self.first != self.tail_copy {
            return self.take_first();
        }
        proof {
            // the copy matching `first` pins the copy's position at 0
            assert(old(self).cpos@ == 0);
        }
        // Refresh the copy from the consumer's published boundary, and retry.
        self.tail_copy = self.tail_prev;
        self.cpos = Ghost(self.tpos@ - 1);
        if self.first != self.tail_copy {
            return self.take_first();
        }
        proof {
            // `first` equals the refreshed boundary, so the pool is empty.
            if self.tp() != 1 {
                assert(self.c()[0] != self.c()[self.tp() - 1]);
            }
        }
        self.alloc_fresh()
    }

    /// Pushes a new value onto this queue, appending it behind `head`.
    pub fn push(&mut self, t: T)
        requires
            old(self).wf(),
        ensures
            final(self).wf(),
            final(self)@ == old(self)@.push(t),
            final(self).bound() == old(self).bound(),
            final(self).spec_frees() == old(self).spec_frees(),
            final(self).cache_headroom() == old(self).cache_headroom(),
            (CacheType::cache_enabled() && old(self).pool_len() > 0) ==> final(self).spec_allocations() == old(self).spec_allocations() && final(self).pool_len() == old(self).pool_len() - 1,
            !(CacheType::cache_enabled() && old(self).pool_len() > 0) ==> final(self).spec_allocations() == old(self).spec_allocations() + 1 && final(self).pool_len()
                == old(self).pool_len(),
    {
        let n = self.alloc_node();
        let ghost m = *self;
        let node = &mut self.nodes[n];
        node.value = Some(t);
        node.next = None;
        let h = self.head;
        let hd = &mut self.nodes[h];
        hd.next = Some(n);
        self.head = n;
        self.chain = Ghost(self.chain@.push(n));
        proof {
            let c = self.c();
            let mc = m.c();
            let nodes = self.nodes@;
            assert(m.head == mc[mc.len() - 1]);
            assert forall|k: int| 0 <= k < mc.len() - 1 implies nodes[(#[trigger] mc[k]) as int]
                == m.nodes@[mc[k] as int] by {
                assert(mc[k] != mc[mc.len() - 1]);
            }
            assert forall|k: int| 0 <= k < c.len() implies (#[trigger] c[k]) < nodes.len() by {
                if k < mc.len() {
                    assert(mc[k] < m.nodes@.len());
                }
            }
            assert forall|i: int, j: int| 0 <= i < j < c.len() implies c[i] != c[j] by {
                if j == c.len() - 1 {
                    assert(mc[i] != n);
                }
            }
            assert forall|k: int| 0 <= k < c.len() - 1 implies (#[trigger] cell(
                nodes,
                c,
                k,
            )).next == Some(c[k + 1]) by {
                if k < mc.len() - 1 {
                    assert(cell(m.nodes@, mc, k).next == Some(mc[k + 1]));
                    assert(mc[k] != n && mc[k] != mc[mc.len() - 1]);
                }
            }
            assert(cell(nodes, c, c.len() - 1).next is None);
            assert forall|k: int| 0 <= k < c.len() implies ((#[trigger] cell(
                nodes,
                c,
                k,
            )).value is Some <==> k > self.tp()) by {
                if k < mc.len() - 1 {
                    assert(cell(m.nodes@, mc, k).value is Some <==> k > m.tp());
                    assert(mc[k] != n && mc[k] != mc[mc.len() - 1]);
                } else if k == mc.len() - 1 {
                    assert(cell(m.nodes@, mc, k).value is Some <==> k > m.tp());
                }
            }
            assert(final(self)@ =~= old(self)@.push(t)) by {
                assert(m@ == old(self)@);
                assert forall|i: int| 0 <= i < self@.len() implies self@[i] == m@.push(t)[i] by {
                    if i < m@.len() {
                        assert(m@[i] == cell(m.nodes@, mc, m.tp() + 1 + i).value->Some_0);
                        assert(mc[m.tp() + 1 + i] != n);
                        if m.tp() + 1 + i != mc.len() - 1 {
                            assert(mc[m.tp() + 1 + i] != mc[mc.len() - 1]);
                        }
                    }
                }
            }
        }
    }

    /// Attempts to pop the front value from this queue; `None` when empty.
    #[verifier::rlimit(80)]
    pub fn pop(&mut self) -> (r: Option<T>)
        requires
            old(self).wf(),
        ensures
            final(self).wf(),
            final(self).bound() == old(self).bound(),
            old(self)@.len() == 0 ==> r is None && final(self)@ == old(self)@ && final(self).spec_allocations() == old(self).spec_allocations() && final(self).spec_frees()
                == old(self).spec_frees() && final(self).pool_len() == old(self).pool_len(),
            old(self)@.len() > 0 ==> r == Some(old(self)@[0]) && final(self)@ == old(self)@.drop_first() && final(self).spec_allocations() == old(self).spec_allocations(),
            old(self)@.len() > 0 && (CacheType::cache_enabled() && (old(self).bound() == 0 || (old(self).pool_len() < old(self).bound() && old(self).cache_headroom()))) ==> (final(self).spec_frees() == old(self).spec_frees() && final(self).pool_len() == old(self).pool_len() + 1),
            old(self)@.len() > 0 && !(CacheType::cache_enabled() && (old(self).bound() == 0 || (
            old(self).pool_len() < old(self).bound() && old(self).cache_headroom()))) ==> (final(self).spec_frees() == old(self).spec_frees() + 1 && final(self).pool_len() == old(self).pool_len()),
    {
        let tail = self.tail;
        let next_opt = self.nodes[tail].next;
        match next_opt {
            None => {
                proof {
                    if self.tp() < self.c().len() - 1 {
                        assert(cell(self.nodes@, self.c(), self.tp()).next == Some(
                            self.c()[self.tp() + 1],
                        ));
                    }
                    assert(old(self)@.len() == 0);
                }
                None
            },
            Some(next) => {
                proof {
                    assert(cell(self.nodes@, self.c(), self.c().len() - 1).next is None);
                    assert(self.tp() < self.c().len() - 1);
                    assert(cell(self.nodes@, self.c(), self.tp()).next == Some(
                        self.c()[self.tp() + 1],
                    ));
                    assert(next == self.c()[self.tp() + 1]);
                    assert(cell(self.nodes@, self.c(), self.tp() + 1).value is Some);
                    assert(old(self)@.len() > 0);
                }
                let ghost pre = *self;
                let node = &mut self.nodes[next];
                let ret = node.value.take();
                self.tail = next;
                proof {
                    assert(ret == Some(old(self)@[0]));
                }
                let cache_it: bool = if !CacheType::use_cache() {
                    false
                } else if self.cache_bound == 0 {
                    true
                } else {
                    let additions = self.cache_additions;
                    let subtractions = self.cache_subtractions;
                    let size = additions - subtractions;
                    // At the counter's machine limit, stop caching: reuse is
                    // an allocation-avoidance optimization only.
                    size < self.cache_bound && additions < usize::MAX
                };
                if cache_it {
                    // Publish the old sentinel to the reuse pool.
                    self.tail_prev = tail;
                    if self.cache_bound > 0 {
                        let additions = self.cache_additions;
                        self.cache_additions = additions + 1;
                    }
                    self.tpos = Ghost(self.tpos@ + 1);
                    proof {
                        let c = self.c();
                        let t = pre.tp();
                        let nodes = self.nodes@;
                        assert forall|k: int| 0 <= k < c.len() implies nodes[(
                        #[trigger] c[k]) as int] == (if k == t + 1 {
                            Node { value: None, next: pre.nodes@[c[k] as int].next }
                        } else {
                            pre.nodes@[c[k] as int]
                        }) by {
                            assert(c[k] == next <==> k == t + 1);
                        }
                        assert forall|k: int| 0 <= k < c.len() - 1 implies (#[trigger] cell(
                            nodes,
                            c,
                            k,
                        )).next == Some(c[k + 1]) by {
                            assert(cell(pre.nodes@, c, k).next == Some(c[k + 1]));
                        }
                        assert(cell(nodes, c, c.len() - 1).next is None) by {
                            assert(cell(pre.nodes@, c, c.len() - 1).next is None);
                        }
                        assert forall|k: int| 0 <= k < c.len() implies ((#[trigger] cell(
                            nodes,
                            c,
                            k,
                        )).value is Some <==> k > self.tp()) by {
                            assert(cell(pre.nodes@, c, k).value is Some <==> k > t);
                            assert(c[k] == next <==> k == t + 1);
                        }
                        assert(final(self)@ =~= old(self)@.drop_first()) by {
                            assert forall|i: int| 0 <= i < self@.len() implies self@[i] == old(self)@.drop_first()[i] by {
                                assert(cell(nodes, c, self.tp() + 1 + i) == cell(
                                    pre.nodes@,
                                    c,
                                    t + 1 + (i + 1),
                                ));
                            }
                        }
                    }
                } else {
                    // Splice the old sentinel out of the chain and free it.
                    let tprev = self.tail_prev;
                    proof {
                        assert(tprev == self.c()[self.tp() - 1]);
                        assert(self.c()[self.tp() - 1] != self.c()[self.tp() + 1]);
                        assert(self.c()[self.tp() - 1] != self.c()[self.tp()]);
                        vstd::std_specs::vec::axiom_spec_len(&self.nodes);
                        assert(self.frees < self.nodes@.len());
                    }
                    let prev = &mut self.nodes[tprev];
                    prev.next = Some(next);
                    self.frees = self.frees + 1;
                    self.chain = Ghost(self.chain@.remove(self.tpos@));
                    proof {
                        let c = self.c();
                        let oc = pre.c();
                        let t = pre.tp();
                        let nodes = self.nodes@;
                        assert forall|k: int| 0 <= k < c.len() implies (#[trigger] c[k]) == (if k
                            < t {
                            oc[k]
                        } else {
                            oc[k + 1]
                        }) by {}
                        assert forall|k: int| 0 <= k < c.len() implies (#[trigger] c[k])
                            < nodes.len() by {
                            let k2: int = if k < t {
                                k
                            } else {
                                k + 1
                            };
                            assert(oc[k2] < nodes.len());
                        }
                        assert forall|i: int, j: int| 0 <= i < j < c.len() implies c[i] != c[j] by {
                            let i2: int = if i < t {
                                i
                            } else {
                                i + 1
                            };
                            let j2: int = if j < t {
                                j
                            } else {
                                j + 1
                            };
                            assert(oc[i2] != oc[j2]);
                        }
                        assert forall|k: int| 0 <= k < c.len() - 1 implies (#[trigger] cell(
                            nodes,
                            c,
                            k,
                        )).next == Some(c[k + 1]) by {
                            if k < t - 1 {
                                assert(cell(pre.nodes@, oc, k).next == Some(oc[k + 1]));
                                assert(oc[k] != oc[t - 1] && oc[k] != oc[t + 1]);
                            } else if k == t - 1 {
                                assert(c[k] == oc[t - 1] && c[k + 1] == oc[t + 1]);
                            } else {
                                assert(cell(pre.nodes@, oc, k + 1).next == Some(oc[k + 2]));
                                assert(oc[k + 1] != oc[t - 1]);
                                assert(oc[k + 1] == next <==> k + 1 == t + 1);
                            }
                        }
                        assert(cell(nodes, c, c.len() - 1).next is None) by {
                            assert(cell(pre.nodes@, oc, oc.len() - 1).next is None);
                            assert(oc[oc.len() - 1] != oc[t - 1]);
                            assert(t + 1 == oc.len() - 1 || oc[oc.len() - 1] != oc[t + 1]);
                        }
                        assert forall|k: int| 0 <= k < c.len() implies ((#[trigger] cell(
                            nodes,
                            c,
                            k,
                        )).value is Some <==> k > self.tp()) by {
                            if k < t {
                                assert(cell(pre.nodes@, oc, k).value is Some <==> k > t);
                                assert(oc[k] == oc[t + 1] <==> k == t + 1);
                                assert(oc[k] == oc[t - 1] <==> k == t - 1);
                            } else {
                                assert(cell(pre.nodes@, oc, k + 1).value is Some <==> k + 1 > t);
                                assert(oc[k + 1] != oc[t - 1]);
                                assert(oc[k + 1] == oc[t + 1] <==> k + 1 == t + 1);
                            }
                        }
                        assert(final(self)@ =~= old(self)@.drop_first()) by {
                            assert forall|i: int| 0 <= i < self@.len() implies self@[i] == old(self)@.drop_first()[i] by {
                                assert(c[t + 1 + i] == oc[t + 2 + i]);
                                assert(oc[t + 2 + i] != oc[t - 1] && oc[t + 2 + i] != oc[t + 1]);
                                assert(cell(nodes, c, t + 1 + i) == cell(
                                    pre.nodes@,
                                    oc,
                                    t + 2 + i,
                                ));
                            }
                        }
                    }
                }
                ret
            },
        }
    }

    /// Looks at the front of the queue without consuming it; `None` when the
    /// queue has no data.
    pub fn peek(&self) -> (r: Option<&T>)
        requires
            self.wf(),
        ensures
            self@.len() == 0 ==> r is None,
            self@.len() > 0 ==> r is Some && *r.unwrap() == self@[0],
    {
        let tail = self.tail;
        match self.nodes[tail].next {
            None => {
                proof {
                    if self.tp() < self.c().len() - 1 {
                        assert(cell(self.nodes@, self.c(), self.tp()).next == Some(
                            self.c()[self.tp() + 1],
                        ));
                    }
                }
                None
            },
            Some(next) => {
                proof {
                    assert(cell(self.nodes@, self.c(), self.c().len() - 1).next is None);
                    assert(self.tp() < self.c().len() - 1);
                    assert(cell(self.nodes@, self.c(), self.tp()).next == Some(
                        self.c()[self.tp() + 1],
                    ));
                    assert(next == self.c()[self.tp() + 1]);
                    assert(cell(self.nodes@, self.c(), self.tp() + 1).value is Some);
                }
                self.nodes[next].value.as_ref()
            },
        }
    }

    fn init(bound: usize) -> (q: Self)
        ensures
            q.wf(),
            q@ == Seq::<T>::empty(),
            q.bound() == bound,
            q.spec_allocations() == 2,
            q.spec_frees() == 0,
            q.pool_len() == 0,
            q.cache_headroom(),
    {
        let mut nodes: Vec<Node<T>> = Vec::new();
        let n1 = Node::new(&mut nodes);
        let n2 = Node::new(&mut nodes);
        let node1 = &mut nodes[n1];
        node1.next = Some(n2);
        let ghost chain0: Seq<usize> = seq![n1, n2];
        let q = Queue {
            nodes,
            tail: n2,
            tail_prev: n1,
            head: n2,
            first: n1,
            tail_copy: n1,
            cache_bound: bound,
            cache_additions: 0,
            cache_subtractions: 0,
            frees: 0,
            chain: Ghost(chain0),
            tpos: Ghost(1int),
            cpos: Ghost(0int),
            _align: core::marker::PhantomData,
            _cache: core::marker::PhantomData,
        };
        proof {
            assert(q@ =~= Seq::<T>::empty());
        }
        q
    }
}

impl<T> Queue<T, NoAlign, NormalNodeCache> {
    /// Creates a new queue whose reuse cache holds at most `bound` nodes;
    /// a bound of 0 leaves the cache unbounded.
    pub fn new(bound: usize) -> (q: Self)
        ensures
            q.wf(),
            q@ == Seq::<T>::empty(),
            q.bound() == bound,
            q.spec_allocations() == 2,
            q.spec_frees() == 0,
            q.pool_len() == 0,
            q.cache_headroom(),
    {
        Self::init(bound)
    }
}

impl<T> Queue<T, NoAlign, NoNodeCache> {
    /// Creates a new queue that never reuses nodes.
    pub fn no_cache() -> (q: Self)
        ensures
            q.wf(),
            q@ == Seq::<T>::empty(),
            q.bound() == 0,
            q.spec_allocations() == 2,
            q.spec_frees() == 0,
            q.pool_len() == 0,
            q.cache_headroom(),
    {
        Self::init(0)
    }
}

impl<T> Queue<T, CacheAligned, NormalNodeCache> {
    /// As `new`, with the cache-line placement policy for the two halves.
    pub fn aligned(bound: usize) -> (q: Self)
        ensures
            q.wf(),
            q@ == Seq::<T>::empty(),
            q.bound() == bound,
            q.spec_allocations() == 2,
            q.spec_frees() == 0,
            q.pool_len() == 0,
            q.cache_headroom(),
    {
        Self::init(bound)
    }
}

impl<T> Queue<T, CacheAligned, NoNodeCache> {
    /// As `no_cache`, with the cache-line placement policy for the two halves.
    pub fn aligned_no_cache() -> (q: Self)
        ensures
            q.wf(),
            q@ == Seq::<T>::empty(),
            q.bound() == 0,
            q.spec_allocations() == 2,
            q.spec_frees() == 0,
            q.pool_len() == 0,
            q.cache_headroom(),
    {
        Self::init(0)
    }
}

} // verus!
