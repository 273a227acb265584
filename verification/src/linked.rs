//! A dummy-node singly-linked FIFO queue over an arena with stable indices.
//!
//! The queue keeps one sentinel node: `head` always names the most recently
//! consumed node, repurposed as a dummy, and the queued values live in the
//! nodes linked behind it. Nodes live in an arena (`Vec`) and links are
//! arena indices, so an index stays meaningful after its node is unlinked —
//! exactly the situation that makes reclamation delicate. A node unlinked
//! by a removal is retired to the epoch ledger of [`crate::epoch`], and its
//! slot is handed back for reuse only once no pinned guard could still
//! refer to it.
//!
//! Under exclusive access (`&mut self`) a compare-and-swap never loses a
//! race, so the retry loops of the concurrent protocol collapse to their
//! success paths, and the tail never lags the last node between calls.

use vstd::prelude::*;
use crate::epoch::Reclaimer;

verus! {

/// One arena node: a value slot and the index of its successor, if any.
pub struct Node<T> {
    data: Option<T>,
    next: Option<usize>,
}

impl<T> Node<T> {
    /// A sentinel node holding no value and linking nowhere.
    fn dummy() -> (n: Node<T>)
        ensures
            n.data is None,
            n.next is None,
    {
        Node { data: None, next: None }
    }
}

/// The linked queue engine: an arena of nodes, the dummy's index (`head`),
/// the last node's index (`tail`), the indices free for reuse, and the
/// reclamation ledger holding the retired ones.
pub struct AtomicQueue<T> {
    nodes: Vec<Node<T>>,
    head: usize,
    tail: usize,
    free: Vec<usize>,
    rec: Reclaimer,
    chain: Ghost<Seq<usize>>,
}

impl<T> View for AtomicQueue<T> {
    type V = Seq<T>;

    /// The queued values, oldest first: the values of the nodes behind the
    /// dummy, in link order.
    closed spec fn view(&self) -> Seq<T> {
        self.chain@.skip(1).map_values(|i: usize| self.nodes@[i as int].data->Some_0)
    }
}

impl<T> AtomicQueue<T> {
    /// The reclamation ledger this queue retires its nodes to.
    pub closed spec fn reclaimer(self) -> Reclaimer {
        self.rec
    }

    /// The indices of the nodes reachable from the dummy, dummy first.
    spec fn ch(self) -> Seq<usize> {
        self.chain@
    }

    /// Well-formed: the chain starts at `head`, ends at `tail`, its links
    /// agree with the arena, only the dummy is empty, and the chain, the
    /// free list and the retired ledger name pairwise distinct nodes — so
    /// a reachable node is never handed out or freed.
    pub closed spec fn wf(self) -> bool {
        &&& 1 <= self.ch().len()
        &&& self.head == self.ch()[0]
        &&& self.tail == self.ch().last()
        &&& (forall|i: int| 0 <= i < self.ch().len() ==> (#[trigger] self.ch()[i]) < self.nodes@.len())
        &&& (forall|i: int, j: int| 0 <= i < j < self.ch().len() ==> self.ch()[i] != self.ch()[j])
        &&& (forall|i: int| 0 <= i < self.ch().len() - 1
            ==> self.nodes@[(#[trigger] self.ch()[i]) as int].next == Some(self.ch()[i + 1]))
        &&& self.nodes@[self.ch().last() as int].next is None
        &&& self.nodes@[self.ch()[0] as int].data is None
        &&& (forall|i: int| 1 <= i < self.ch().len()
            ==> self.nodes@[(#[trigger] self.ch()[i]) as int].data is Some)
        &&& (forall|i: int| 0 <= i < self.free@.len() ==> (#[trigger] self.free@[i]) < self.nodes@.len())
        &&& (forall|i: int, j: int| 0 <= i < j < self.free@.len() ==> self.free@[i] != self.free@[j])
        &&& (forall|i: int, j: int| 0 <= i < self.free@.len() && 0 <= j < self.ch().len()
            ==> self.free@[i] != self.ch()[j])
        &&& (forall|i: int| 0 <= i < self.rec.retired().len()
            ==> (#[trigger] self.rec.retired()[i]).0 < self.nodes@.len())
        &&& (forall|i: int, j: int| 0 <= i < j < self.rec.retired().len()
            ==> self.rec.retired()[i].0 != self.rec.retired()[j].0)
        &&& (forall|i: int, j: int| 0 <= i < self.rec.retired().len() && 0 <= j < self.ch().len()
            ==> self.rec.retired()[i].0 != self.ch()[j])
        &&& (forall|i: int, j: int| 0 <= i < self.rec.retired().len() && 0 <= j < self.free@.len()
            ==> self.rec.retired()[i].0 != self.free@[j])
    }

    /// An empty queue: one dummy node, head and tail both naming it.
    pub fn new() -> (q: AtomicQueue<T>)
        ensures
            q.wf(),
            q@ == Seq::<T>::empty(),
    {
        let mut nodes: Vec<Node<T>> = Vec::new();
        nodes.push(Node::dummy());
        let ghost start: Seq<usize> = seq![0usize];
        let q = AtomicQueue {
            nodes,
            head: 0,
            tail: 0,
            free: Vec::new(),
            rec: Reclaimer::new(),
            chain: Ghost(start),
        };
        proof {
            assert(q@ =~= Seq::<T>::empty());
        }
        q
    }

    /// Whether the queue holds no value: the dummy has no successor.
    pub fn is_empty(&self) -> (r: bool)
        requires
            self.wf(),
        ensures
            r == (self@.len() == 0),
    {
        let h = self.head;
        let r = self.nodes[h].next.is_none();
        proof {
            if self.ch().len() > 1 {
                assert(self.nodes@[self.ch()[0] as int].next == Some(self.ch()[1]));
            }
            assert(self@.len() == self.ch().len() - 1);
        }
        r
    }

    /// Takes a node's value out, leaving the node as a fresh dummy slot
    /// while its link stays intact.
    fn take_data(&mut self, idx: usize) -> (v: T)
        requires
            idx < old(self).nodes@.len(),
            old(self).nodes@[idx as int].data is Some,
        ensures
            v == old(self).nodes@[idx as int].data->Some_0,
            final(self).nodes@ == old(self).nodes@.update(
                idx as int,
                (Node { data: None, next: old(self).nodes@[idx as int].next }),
            ),
            final(self).head == old(self).head,
            final(self).tail == old(self).tail,
            final(self).chain@ == old(self).chain@,
            final(self).free@ == old(self).free@,
            final(self).rec == old(self).rec,
    {
        let mut taken = Node::dummy();
        core::mem::swap(&mut taken, &mut self.nodes[idx]);
        let Node { data, next } = taken;
        self.nodes.set(idx, Node { data: None, next });
        proof {
            assert(final(self).nodes@ =~= old(self).nodes@.update(
                idx as int,
                (Node { data: None, next: old(self).nodes@[idx as int].next }),
            ));
        }
        data.unwrap()
    }

    /// Redirects a node's link, leaving its value in place.
    fn set_next(&mut self, idx: usize, next: Option<usize>)
        requires
            idx < old(self).nodes@.len(),
        ensures
            final(self).nodes@ == old(self).nodes@.update(
                idx as int,
                (Node { data: old(self).nodes@[idx as int].data, next }),
            ),
            final(self).head == old(self).head,
            final(self).tail == old(self).tail,
            final(self).chain@ == old(self).chain@,
            final(self).free@ == old(self).free@,
            final(self).rec == old(self).rec,
    {
        let mut taken = Node::dummy();
        core::mem::swap(&mut taken, &mut self.nodes[idx]);
        let Node { data, next: _ } = taken;
        self.nodes.set(idx, Node { data, next });
        proof {
            assert(final(self).nodes@ =~= old(self).nodes@.update(
                idx as int,
                (Node { data: old(self).nodes@[idx as int].data, next }),
            ));
        }
    }

    /// Hands out a node slot holding `data`, reusing a released slot when
    /// one is available and growing the arena otherwise. The slot is
    /// reachable from neither the chain nor the ledger.
    fn alloc_node(&mut self, data: T) -> (idx: usize)
        requires
            old(self).wf(),
        ensures
            final(self).wf(),
            final(self)@ == old(self)@,
            idx < final(self).nodes@.len(),
            final(self).nodes@[idx as int].data == Some(data),
            final(self).nodes@[idx as int].next is None,
            final(self).head == old(self).head,
            final(self).tail == old(self).tail,
            final(self).chain@ == old(self).chain@,
            final(self).rec == old(self).rec,
            old(self).nodes@.len() <= final(self).nodes@.len(),
            forall|j: int| 0 <= j < old(self).nodes@.len() && j != idx
                ==> final(self).nodes@[j] == old(self).nodes@[j],
            !final(self).chain@.contains(idx),
            !final(self).free@.contains(idx),
            forall|i: int| 0 <= i < final(self).rec.retired().len()
                ==> (#[trigger] final(self).rec.retired()[i]).0 != idx,
            forall|i: int| 0 <= i < final(self).free@.len()
                ==> old(self).free@.contains(#[trigger] final(self).free@[i]),
    {
        let popped = self.free.pop();
        match popped {
            Some(i) => {
                self.nodes.set(i, Node { data: Some(data), next: None });
                proof {
                    assert(!self.chain@.contains(i)) by {
                        if self.chain@.contains(i) {
                            let j = choose|j: int| 0 <= j < self.chain@.len()
                                && self.chain@[j] == i;
                            assert(old(self).free@[old(self).free@.len() - 1] != self.chain@[j]);
                        }
                    }
                    assert(!self.free@.contains(i)) by {
                        if self.free@.contains(i) {
                            let j = choose|j: int| 0 <= j < self.free@.len()
                                && self.free@[j] == i;
                            assert(old(self).free@[j] != old(self).free@[old(self).free@.len() - 1]);
                        }
                    }
                    assert(final(self)@ =~= old(self)@);
                }
                i
            },
            None => {
                let i = self.nodes.len();
                self.nodes.push(Node { data: Some(data), next: None });
                proof {
                    assert(!self.chain@.contains(i)) by {
                        if self.chain@.contains(i) {
                            let j = choose|j: int| 0 <= j < self.chain@.len()
                                && self.chain@[j] == i;
                            assert(self.chain@[j] < i);
                        }
                    }
                    assert(!self.free@.contains(i)) by {
                        if self.free@.contains(i) {
                            let j = choose|j: int| 0 <= j < self.free@.len()
                                && self.free@[j] == i;
                            assert(self.free@[j] < i);
                        }
                    }
                    assert(final(self)@ =~= old(self)@);
                }
                i
            },
        }
    }

    /// Inserts `data` at the back: a fresh node is linked after the last
    /// node and the tail moves to it. Never fails and never blocks.
    pub fn enqueue(&mut self, data: T)
        requires
            old(self).wf(),
        ensures
            final(self).wf(),
            final(self)@ == old(self)@.push(data),
            final(self).reclaimer().guards() == old(self).reclaimer().guards(),
            final(self).reclaimer().retired() == old(self).reclaimer().retired(),
    {
        let idx = self.alloc_node(data);
        let ghost mid = *self;
        let t = self.tail;
        // With exclusive access the link compare-and-swap cannot lose a
        // race, and the best-effort tail advance always lands.
        self.set_next(t, Some(idx));
        self.tail = idx;
        proof {
            self.chain = Ghost(self.chain@.push(idx));
            let ch = mid.ch();
            let newch = self.chain@;
            assert(newch.last() == idx);
            assert forall|i: int| 0 <= i < newch.len() - 1
                implies self.nodes@[(#[trigger] newch[i]) as int].next == Some(newch[i + 1]) by {
                if i < ch.len() - 1 {
                    assert(ch[i] != t);
                    assert(mid.nodes@[newch[i] as int].next == Some(newch[i + 1]));
                } else {
                    assert(newch[i] == t);
                }
            }
            assert(self@ =~= old(self)@.push(data)) by {
                assert forall|k: int| 0 <= k < self@.len() implies self@[k] == old(self)@.push(data)[k] by {
                    if k < self@.len() - 1 {
                        assert(newch[k + 1] == ch[k + 1]);
                        assert(mid@[k] == mid.nodes@[ch[k + 1] as int].data->Some_0);
                    } else {
                        assert(newch[k + 1] == idx);
                    }
                }
            }
        }
    }

    /// Removes the oldest value, or reports absence when the queue is
    /// empty — it never blocks waiting for an insert. On success the old
    /// dummy is retired to the ledger, the consumed node becomes the new
    /// dummy, and any retirements no pinned guard could still reference
    /// are released for reuse.
    pub fn dequeue(&mut self) -> (r: Option<T>)
        requires
            old(self).wf(),
        ensures
            final(self).wf(),
            final(self).reclaimer().guards() == old(self).reclaimer().guards(),
            (match r {
                Some(v) => old(self)@.len() > 0 && v == old(self)@[0]
                    && final(self)@ == old(self)@.drop_first(),
                None => old(self)@.len() == 0 && final(self)@ == old(self)@,
            }),
    {
        let h = self.head;
        let next = self.nodes[h].next;
        match next {
            None => {
                proof {
                    if self.ch().len() > 1 {
                        assert(self.nodes@[self.ch()[0] as int].next == Some(self.ch()[1]));
                    }
                    assert(self@.len() == self.ch().len() - 1);
                }
                None
            },
            Some(n) => {
                proof {
                    if self.ch().len() == 1 {
                        assert(self.nodes@[self.ch()[0] as int].next is None);
                    }
                    assert(n == self.ch()[1]);
                }
                let ghost orig = *self;
                self.head = n;
                proof {
                    self.chain = Ghost(self.chain@.drop_first());
                }
                let v = self.take_data(n);
                let ghost mid = *self;
                proof {
                    assert(mid.wf()) by {
                        let ch = mid.ch();
                        assert(ch =~= orig.ch().drop_first());
                        assert forall|i: int| 0 <= i < ch.len() - 1
                            implies mid.nodes@[(#[trigger] ch[i]) as int].next == Some(ch[i + 1]) by {
                            assert(orig.ch()[i + 1] == ch[i]);
                            assert(orig.nodes@[ch[i] as int].next == Some(orig.ch()[i + 2]));
                            if ch[i] == n {
                                assert(i == 0);
                            }
                        }
                        assert(mid.nodes@[ch[0] as int].data is None);
                        assert forall|i: int| 1 <= i < ch.len()
                            implies mid.nodes@[(#[trigger] ch[i]) as int].data is Some by {
                            assert(orig.ch()[i + 1] == ch[i]);
                            assert(ch[i] != n);
                        }
                    }
                    assert(mid@ =~= orig@.drop_first()) by {
                        assert forall|k: int| 0 <= k < mid@.len()
                            implies mid@[k] == orig@.drop_first()[k] by {
                            assert(mid.ch()[k + 1] == orig.ch()[k + 2]);
                            assert(orig.ch()[k + 2] != n);
                        }
                    }
                    assert(v == orig@[0]);
                }
                self.rec.retire(h);
                proof {
                    assert(self.wf()) by {
                        assert(forall|j: int| 0 <= j < self.ch().len()
                            ==> h != #[trigger] self.ch()[j]);
                        assert(forall|j: int| 0 <= j < self.free@.len()
                            ==> h != #[trigger] self.free@[j]);
                        assert(forall|i: int| 0 <= i < mid.rec.retired().len()
                            ==> (#[trigger] mid.rec.retired()[i]).0 != h);
                    }
                    assert(self@ =~= mid@);
                }
                self.flush();
                Some(v)
            },
        }
    }

    /// Moves every releasable retirement out of the ledger and onto the
    /// free list, advancing the epoch first when possible.
    fn flush(&mut self)
        requires
            old(self).wf(),
        ensures
            final(self).wf(),
            final(self)@ == old(self)@,
            final(self).head == old(self).head,
            final(self).tail == old(self).tail,
            final(self).chain@ == old(self).chain@,
            final(self).nodes@ == old(self).nodes@,
            final(self).rec.guards() == old(self).rec.guards(),
    {
        let _advanced = self.rec.try_advance();
        let ghost rsnap = self.rec;
        let freed = self.rec.collect();
        proof {
            rsnap.lemma_sweep_partitions(rsnap.retired());
        }
        let ghost oldfree = self.free@;
        let ghost kept = self.rec.retired();
        let ghost released = freed@;
        let m = freed.len();
        let mut k: usize = 0;
        while k < m
            invariant
                k <= m,
                m == released.len(),
                self.free@ == oldfree + released.take(k as int),
                released == rsnap.released_of(rsnap.retired()),
                kept == rsnap.kept_of(rsnap.retired()),
                freed@ == released,
                self.nodes@ == old(self).nodes@,
                self.head == old(self).head,
                self.tail == old(self).tail,
                self.chain@ == old(self).chain@,
                self.rec.retired() == kept,
                self.rec.guards() == rsnap.guards(),
                self.rec.current_epoch() == rsnap.current_epoch(),
            decreases m - k,
        {
            let i = freed[k];
            self.free.push(i);
            proof {
                assert(self.free@ =~= oldfree + released.take(k as int + 1));
            }
            k = k + 1;
        }
        proof {
            assert(released.take(m as int) =~= released);
            assert(self.free@ == oldfree + released);
            assert(self@ =~= old(self)@);
            // every released index was retired, so the wf bounds and
            // disjointness clauses carry over to the grown free list
            assert forall|i: int| 0 <= i < self.free@.len()
                implies (#[trigger] self.free@[i]) < self.nodes@.len() by {
                if i >= oldfree.len() {
                    let x = released[i - oldfree.len()];
                    assert(Reclaimer::names_index(rsnap.retired(), x));
                    let j = choose|j: int| 0 <= j < rsnap.retired().len()
                        && rsnap.retired()[j].0 == x;
                    assert(old(self).rec.retired()[j].0 == x);
                }
            }
            assert forall|i: int, j: int|
                #![trigger self.free@[i], self.free@[j]]
                0 <= i < j < self.free@.len()
                implies self.free@[i] != self.free@[j] by {
                if j >= oldfree.len() {
                    let xj = released[j - oldfree.len()];
                    assert(Reclaimer::names_index(rsnap.retired(), xj));
                    let jj = choose|jj: int| 0 <= jj < rsnap.retired().len()
                        && rsnap.retired()[jj].0 == xj;
                    if i < oldfree.len() {
                        assert(old(self).rec.retired()[jj].0 != oldfree[i]);
                    }
                }
            }
            assert forall|i: int, j: int|
                #![trigger self.free@[i], self.ch()[j]]
                0 <= i < self.free@.len() && 0 <= j < self.ch().len()
                implies self.free@[i] != self.ch()[j] by {
                if i >= oldfree.len() {
                    let x = released[i - oldfree.len()];
                    assert(Reclaimer::names_index(rsnap.retired(), x));
                    let jj = choose|jj: int| 0 <= jj < rsnap.retired().len()
                        && rsnap.retired()[jj].0 == x;
                    assert(old(self).rec.retired()[jj].0 != self.ch()[j]);
                }
            }
            assert forall|i: int| 0 <= i < kept.len()
                implies (#[trigger] kept[i]).0 < self.nodes@.len() by {
                assert(rsnap.retired().contains(kept[i]));
                let j = choose|j: int| 0 <= j < rsnap.retired().len()
                    && rsnap.retired()[j] == kept[i];
                assert(old(self).rec.retired()[j].0 < self.nodes@.len());
            }
            assert forall|i: int, j: int|
                #![trigger kept[i], self.ch()[j]]
                0 <= i < kept.len() && 0 <= j < self.ch().len()
                implies kept[i].0 != self.ch()[j] by {
                assert(rsnap.retired().contains(kept[i]));
                let jj = choose|jj: int| 0 <= jj < rsnap.retired().len()
                    && rsnap.retired()[jj] == kept[i];
                assert(old(self).rec.retired()[jj].0 != self.ch()[j]);
            }
            assert forall|i: int, j: int|
                #![trigger kept[i], self.free@[j]]
                0 <= i < kept.len() && 0 <= j < self.free@.len()
                implies kept[i].0 != self.free@[j] by {
                assert(rsnap.retired().contains(kept[i]));
                let jj = choose|jj: int| 0 <= jj < rsnap.retired().len()
                    && rsnap.retired()[jj] == kept[i];
                if j < oldfree.len() {
                    assert(old(self).rec.retired()[jj].0 != oldfree[j]);
                }
            }
        }
    }

    /// Hands the caller a reusable guard slot in this queue's ledger.
    pub fn register_guard(&mut self) -> (id: usize)
        requires
            old(self).wf(),
        ensures
            final(self).wf(),
            final(self)@ == old(self)@,
            final(self).reclaimer().guards() == old(self).reclaimer().guards().push(None),
            id == old(self).reclaimer().guards().len(),
    {
        let id = self.rec.register();
        proof {
            assert(final(self)@ =~= old(self)@);
        }
        id
    }

    /// Pins the caller's guard: from here until [`Self::unpin_guard`], no
    /// node the caller can reach will be released.
    pub fn pin_guard(&mut self, id: usize)
        requires
            old(self).wf(),
            id < old(self).reclaimer().guards().len(),
        ensures
            final(self).wf(),
            final(self)@ == old(self)@,
            final(self).reclaimer().guards() == old(self).reclaimer().guards().update(
                id as int,
                Some(old(self).reclaimer().current_epoch()),
            ),
    {
        self.rec.pin(id);
        proof {
            assert(final(self)@ =~= old(self)@);
        }
    }

    /// Unpins the caller's guard.
    pub fn unpin_guard(&mut self, id: usize)
        requires
            old(self).wf(),
            id < old(self).reclaimer().guards().len(),
        ensures
            final(self).wf(),
            final(self)@ == old(self)@,
            final(self).reclaimer().guards() == old(self).reclaimer().guards().update(
                id as int,
                None,
            ),
    {
        self.rec.unpin(id);
        proof {
            assert(final(self)@ =~= old(self)@);
        }
    }

    /// How many retired nodes still await release.
    pub fn deferred_count(&self) -> (n: usize)
        ensures
            n == self.reclaimer().retired().len(),
    {
        self.rec.retired_count()
    }

    /// How many released node slots stand ready for reuse.
    pub fn reusable_count(&self) -> (n: usize)
        ensures
            n == self.free_len(),
    {
        self.free.len()
    }

    /// The number of node slots on the free list.
    pub closed spec fn free_len(self) -> nat {
        self.free@.len()
    }
}

impl<T> Default for AtomicQueue<T> {
    /// The same queue as [`AtomicQueue::new`].
    fn default() -> (q: Self)
        ensures
            q.wf(),
            q@ == Seq::<T>::empty(),
    {
        Self::new()
    }
}

} // verus!
