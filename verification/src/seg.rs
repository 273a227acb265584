//! A segmented FIFO queue: values batched into fixed-capacity blocks.
//!
//! One allocation serves [`BLOCK_CAP`] values instead of one, and a block
//! is reclaimed from its own per-slot flags — no epoch ledger is needed.
//! The head and the tail are each a packed machine-word index (a lap
//! count, a slot offset within the lap, and a low continuation bit that
//! tells a consumer the tail has spilled into a later block) beside a
//! block pointer, here the block's stable arena index. Each lap owns one
//! sentinel slot position that never carries data, which is why a lap
//! counts [`LAP`] positions but a block stores [`BLOCK_CAP`] values.
//!
//! Slots carry a flag set: [`WRITE`] once the producer has stored data,
//! [`READ`] once a consumer has taken it, [`DESTROY`] when a draining
//! side has released the slot's portion of the block. A block is freed
//! exactly once, after every slot that was written has been read.
//!
//! Under exclusive access (`&mut self`) a compare-and-swap cannot lose a
//! race and an in-flight block transition always completes within the
//! call, so the retry loops and bounded backoff waits of the concurrent
//! protocol collapse to their success paths.

use vstd::prelude::*;
use vstd::arithmetic::div_mod::lemma_fundamental_div_mod;
use vstd::arithmetic::div_mod::lemma_fundamental_div_mod_converse;
use vstd::arithmetic::div_mod::lemma_mod_pos_bound;
use vstd::pervasive::unreached;

verus! {

/// A producer has stored this slot's value.
pub const WRITE: usize = 1;

/// A consumer has taken this slot's value.
pub const READ: usize = 2;

/// A draining side has released this slot's portion of the block.
pub const DESTROY: usize = 4;

/// Packed-index positions per lap, the sentinel position included.
pub const LAP: usize = 32;

/// Values a block stores: one lap minus the sentinel position.
pub const BLOCK_CAP: usize = 31;

/// The packed index advances by this much per slot; the low bit is the
/// cross-block continuation flag.
const SLOT_STEP: usize = 2;

/// The continuation flag in a packed head index: the tail has spilled
/// into a block after this one, so the queue cannot be empty.
const HAS_NEXT: usize = 1;

/// One value cell and its flag set.
struct Slot<T> {
    value: Option<T>,
    state: usize,
}

/// A fixed-capacity batch of slots and the arena index of its successor.
struct Block<T> {
    next: Option<usize>,
    slots: Vec<Slot<T>>,
}

/// An arena entry: blocks keep their index for life, so a freed block
/// leaves a tombstone rather than shifting its successors.
enum BlockEntry<T> {
    Live(Block<T>),
    Freed,
}

/// A queue end: a packed index and the arena index of its current block.
struct Position {
    index: usize,
    block: Option<usize>,
}

/// The unpacked meaning of the two ends' packed indices.
struct Cursors {
    head_lap: int,
    head_off: int,
    tail_lap: int,
    tail_off: int,
}

/// The segmented queue engine.
pub struct SegQueue<T> {
    head: Position,
    tail: Position,
    blocks: Vec<BlockEntry<T>>,
    cur: Ghost<Cursors>,
}

impl<T> Block<T> {
    /// A fresh block: every slot untouched, no successor.
    fn new() -> (b: Block<T>)
        ensures
            b.next is None,
            b.slots@.len() == BLOCK_CAP,
            forall|o: int| 0 <= o < BLOCK_CAP
                ==> (#[trigger] b.slots@[o]).state == 0 && b.slots@[o].value is None,
    {
        let mut slots: Vec<Slot<T>> = Vec::new();
        let mut o: usize = 0;
        while o < BLOCK_CAP
            invariant
                o <= BLOCK_CAP,
                slots@.len() == o,
                forall|j: int| 0 <= j < o
                    ==> (#[trigger] slots@[j]).state == 0 && slots@[j].value is None,
            decreases BLOCK_CAP - o,
        {
            slots.push(Slot { value: None, state: 0 });
            o = o + 1;
        }
        Block { next: None, slots }
    }
}

impl<T> View for SegQueue<T> {
    type V = Seq<T>;

    /// The queued values, oldest first, read off the slots between the
    /// head and tail cursors.
    closed spec fn view(&self) -> Seq<T> {
        Seq::new(
            (self.abs_tail() - self.abs_head()) as nat,
            |m: int| self.slot(
                (self.abs_head() + m) / 31,
                (self.abs_head() + m) % 31,
            ).value->Some_0,
        )
    }
}

impl<T> SegQueue<T> {
    /// The head's lap count.
    spec fn hl(self) -> int {
        self.cur@.head_lap
    }

    /// The head's slot offset within its lap.
    spec fn ho(self) -> int {
        self.cur@.head_off
    }

    /// The tail's lap count.
    spec fn tl(self) -> int {
        self.cur@.tail_lap
    }

    /// The tail's slot offset within its lap.
    spec fn to(self) -> int {
        self.cur@.tail_off
    }

    /// The head's continuation flag, as carried in its packed index.
    spec fn head_flag(self) -> int {
        self.head.index as int % 2
    }

    /// The head cursor counted in value slots since the queue began.
    spec fn abs_head(self) -> int {
        self.hl() * 31 + self.ho()
    }

    /// The tail cursor counted in value slots since the queue began.
    spec fn abs_tail(self) -> int {
        self.tl() * 31 + self.to()
    }

    /// The slot at offset `o` of the live block for lap `l`.
    spec fn slot(self, l: int, o: int) -> Slot<T> {
        self.blocks@[l]->Live_0.slots@[o]
    }

    /// The tail's packed index. It grows by at most two steps per push
    /// and must stay within the machine word that carries it.
    pub closed spec fn tail_position(self) -> int {
        self.tail.index as int
    }

    /// Well-formed. Before the first push nothing is allocated and both
    /// ends sit at zero. Afterwards the arena holds one block per lap up
    /// to the tail's; blocks before the head's lap are freed, the rest
    /// are live and chained in lap order. Slots behind the head are
    /// consumed (`WRITE | READ`, empty), slots between the cursors are
    /// written (`WRITE`, full), and slots past the tail are untouched.
    pub closed spec fn wf(self) -> bool {
        if self.blocks@.len() == 0 {
            &&& self.head.block is None
            &&& self.tail.block is None
            &&& self.head.index == 0
            &&& self.tail.index == 0
            &&& self.hl() == 0
            &&& self.ho() == 0
            &&& self.tl() == 0
            &&& self.to() == 0
        } else {
            &&& 0 <= self.hl() <= self.tl()
            &&& 0 <= self.ho() < 31
            &&& 0 <= self.to() < 31
            &&& self.abs_head() <= self.abs_tail()
            &&& self.blocks@.len() == self.tl() + 1
            &&& self.head.block is Some
            &&& self.head.block->Some_0 as int == self.hl()
            &&& self.tail.block is Some
            &&& self.tail.block->Some_0 as int == self.tl()
            &&& self.head.index as int == 2 * (self.hl() * 32 + self.ho()) + self.head_flag()
            &&& self.tail.index as int == 2 * (self.tl() * 32 + self.to())
            &&& self.tail.index as int + 4 <= usize::MAX
            &&& (self.head_flag() == 1 ==> self.hl() < self.tl())
            &&& (forall|l: int| self.hl() <= l <= self.tl() ==> (#[trigger] self.blocks@[l]) is Live)
            &&& (forall|l: int| self.hl() <= l <= self.tl()
                ==> (#[trigger] self.blocks@[l])->Live_0.slots@.len() == 31)
            &&& (forall|l: int| 0 <= l < self.hl() ==> (#[trigger] self.blocks@[l]) is Freed)
            &&& (forall|l: int| self.hl() <= l < self.tl()
                ==> (#[trigger] self.blocks@[l])->Live_0.next == Some(((l + 1) as usize)))
            &&& self.blocks@[self.tl()]->Live_0.next is None
            &&& (forall|l: int, o: int| #![trigger self.slot(l, o)]
                self.hl() <= l <= self.tl() && 0 <= o < 31
                    && (l > self.hl() || o >= self.ho())
                    && (l < self.tl() || o < self.to())
                ==> self.slot(l, o).state == WRITE && self.slot(l, o).value is Some)
            &&& (forall|o: int| #![trigger self.slot(self.hl(), o)]
                0 <= o < self.ho()
                ==> self.slot(self.hl(), o).state == 3 && self.slot(self.hl(), o).value is None)
            &&& (forall|o: int| #![trigger self.slot(self.tl(), o)]
                self.to() <= o < 31
                ==> self.slot(self.tl(), o).state == 0 && self.slot(self.tl(), o).value is None)
        }
    }

    /// An empty queue. No block is allocated yet: the first push
    /// installs one.
    pub fn new() -> (q: SegQueue<T>)
        ensures
            q.wf(),
            q@ == Seq::<T>::empty(),
            q.tail_position() == 0,
    {
        let ghost c = Cursors { head_lap: 0, head_off: 0, tail_lap: 0, tail_off: 0 };
        let q = SegQueue {
            head: Position { index: 0, block: None },
            tail: Position { index: 0, block: None },
            blocks: Vec::new(),
            cur: Ghost(c),
        };
        proof {
            assert(q@ =~= Seq::<T>::empty());
        }
        q
    }

    /// Whether the queue holds no value: the two packed indices agree
    /// once the continuation flag is masked off.
    pub fn is_empty(&self) -> (r: bool)
        requires
            self.wf(),
        ensures
            r == (self@.len() == 0),
    {
        let head = self.head.index;
        let tail = self.tail.index;
        let r = head / SLOT_STEP == tail / SLOT_STEP;
        proof {
            if self.blocks@.len() > 0 {
                lemma_unpack(head as int, self.hl(), self.ho(), self.head_flag());
                lemma_unpack(tail as int, self.tl(), self.to(), 0);
                lemma_fundamental_div_mod_converse(self.abs_head(), 31, self.hl(), self.ho());
                lemma_fundamental_div_mod_converse(self.abs_tail(), 31, self.tl(), self.to());
                lemma_fundamental_div_mod_converse(
                    self.hl() * 32 + self.ho(), 32, self.hl(), self.ho());
                lemma_fundamental_div_mod_converse(
                    self.tl() * 32 + self.to(), 32, self.tl(), self.to());
            }
        }
        r
    }
    /// Inserts `value` at the back. It never fails: when this push takes
    /// the current block's last value slot it pre-allocates the successor
    /// block and publishes it at once, and the very first push installs
    /// the first block. The packed tail index grows by at most two slot
    /// steps, so the caller keeps it within its machine word.
    pub fn push(&mut self, value: T)
        requires
            old(self).wf(),
            old(self).tail_position() + 8 <= usize::MAX,
        ensures
            final(self).wf(),
            final(self)@ == old(self)@.push(value),
            final(self).tail_position() <= old(self).tail_position() + 4,
    {
        let ghost prev = *old(self);
        let tail = self.tail.index;
        let offset = (tail / SLOT_STEP) % LAP;
        proof {
            if prev.blocks@.len() > 0 {
                lemma_unpack(tail as int, prev.tl(), prev.to(), 0);
            }
            assert(offset == prev.to());
        }
        // offset == BLOCK_CAP would mean a cross-block transition is in
        // flight; under exclusive access a transition completes within
        // the call that starts it, so there is nothing to spin-wait for
        if self.tail.block.is_none() {
            // the very first push installs the first block; the install
            // race of the concurrent protocol has one contender here
            let first = Block::new();
            self.blocks.push(BlockEntry::Live(first));
            self.tail.block = Some(0);
            self.head.block = Some(0);
        }
        let b = self.tail.block.unwrap();
        proof {
            assert(b as int == prev.tl());
            assert(self.blocks@[b as int] is Live);
            assert(self.blocks@[b as int]->Live_0.slots@.len() == 31);
        }
        let new_tail = tail + SLOT_STEP;
        // the tail-index compare-and-swap succeeds outright
        if offset + 1 == BLOCK_CAP {
            // this push takes the block's last value slot: pre-allocate
            // the successor and publish it before the value lands
            let next_block = Block::new();
            let nb = self.blocks.len();
            self.blocks.push(BlockEntry::Live(next_block));
            self.tail.block = Some(nb);
            self.tail.index = new_tail + SLOT_STEP;
            self.set_block_next(b, Some(nb));
            proof {
                self.cur = Ghost(Cursors { tail_lap: prev.tl() + 1, tail_off: 0, ..prev.cur@ });
            }
        } else {
            self.tail.index = new_tail;
            proof {
                self.cur = Ghost(Cursors { tail_off: prev.to() + 1, ..prev.cur@ });
            }
        }
        self.put_slot(b, offset, Slot { value: Some(value), state: 0 });
        let _ = self.or_state(b, offset, WRITE);
        proof {
            lemma_or_bits();
            let hl = self.hl();
            let ho = self.ho();
            let tl = self.tl();
            let to = self.to();
            if prev.blocks@.len() == 0 {
                assert(self.blocks@.len() == 1);
                assert(self.wf()) by {
                    assert forall|l: int, o: int| #![trigger self.slot(l, o)]
                        hl <= l <= tl && 0 <= o < 31
                            && (l > hl || o >= ho) && (l < tl || o < to)
                        implies self.slot(l, o).state == WRITE
                            && self.slot(l, o).value is Some by {
                        assert(l == 0 && o == 0);
                    }
                }
                assert(self@ =~= prev@.push(value)) by {
                    assert(self@.len() == 1);
                    assert(self@[0] == self.slot(0, 0).value->Some_0);
                }
            } else {
                assert(self.blocks@[prev.tl()] is Live);
                assert(self.blocks@[prev.tl()]->Live_0.slots@
                    =~= prev.blocks@[prev.tl()]->Live_0.slots@.update(
                        prev.to(),
                        (Slot { value: Some(value), state: WRITE }),
                    ));
                assert(forall|l: int| 0 <= l < prev.blocks@.len() && l != prev.tl()
                    ==> #[trigger] self.blocks@[l] == prev.blocks@[l]);
                assert(self.wf()) by {
                    assert forall|l: int, o: int| #![trigger self.slot(l, o)]
                        hl <= l <= tl && 0 <= o < 31
                            && (l > hl || o >= ho) && (l < tl || o < to)
                        implies self.slot(l, o).state == WRITE
                            && self.slot(l, o).value is Some by {
                        if l == prev.tl() && o == prev.to() {
                        } else if l == prev.tl() {
                            assert(self.slot(l, o) == prev.slot(l, o));
                            assert(prev.slot(l, o).state == WRITE);
                        } else if l <= prev.tl() {
                            assert(self.blocks@[l] == prev.blocks@[l]);
                            assert(self.slot(l, o) == prev.slot(l, o));
                            assert(prev.slot(l, o).state == WRITE);
                        } else {
                            assert(false);
                        }
                    }
                    assert forall|o: int| #![trigger self.slot(hl, o)]
                        0 <= o < ho
                        implies self.slot(hl, o).state == 3
                            && self.slot(hl, o).value is None by {
                        if hl == prev.tl() {
                            assert(o != prev.to());
                            assert(self.slot(hl, o) == prev.slot(hl, o));
                        } else {
                            assert(self.blocks@[hl] == prev.blocks@[hl]);
                            assert(self.slot(hl, o) == prev.slot(hl, o));
                        }
                        assert(prev.slot(hl, o).state == 3);
                    }
                    assert forall|o: int| #![trigger self.slot(tl, o)]
                        to <= o < 31
                        implies self.slot(tl, o).state == 0
                            && self.slot(tl, o).value is None by {
                        if tl == prev.tl() {
                            assert(o != prev.to());
                            assert(self.slot(tl, o) == prev.slot(tl, o));
                            assert(prev.slot(tl, o).state == 0);
                        }
                    }
                }
                assert(self@ =~= prev@.push(value)) by {
                    assert(self.abs_head() == prev.abs_head());
                    assert(self.abs_tail() == prev.abs_tail() + 1);
                    lemma_split31(prev.tl(), prev.to());
                    assert forall|m: int| 0 <= m < self@.len()
                        implies self@[m] == prev@.push(value)[m] by {
                        let a = prev.abs_head() + m;
                        lemma_fundamental_div_mod(a, 31);
                        lemma_mod_pos_bound(a, 31);
                        assert(self@[m] == self.slot(a / 31, a % 31).value->Some_0);
                        if m < self@.len() - 1 {
                            assert(a < prev.abs_tail());
                            assert(31 * (a / 31) <= a);
                            assert(a / 31 <= prev.tl());
                            assert(a / 31 != prev.tl() || a % 31 != prev.to());
                            if a / 31 == prev.tl() {
                                assert(self.slot(a / 31, a % 31) == prev.slot(a / 31, a % 31));
                            } else {
                                assert(self.blocks@[a / 31] == prev.blocks@[a / 31]);
                            }
                            assert(prev@[m] == prev.slot(a / 31, a % 31).value->Some_0);
                        } else {
                            assert(a == prev.abs_tail());
                            assert(a / 31 == prev.tl() && a % 31 == prev.to());
                        }
                    }
                }
            }
        }
    }

    /// Replaces slot `o` of the live block at arena index `b`.
    fn put_slot(&mut self, b: usize, o: usize, slot: Slot<T>)
        requires
            b < old(self).blocks@.len(),
            old(self).blocks@[b as int] is Live,
            o < old(self).blocks@[b as int]->Live_0.slots@.len(),
        ensures
            final(self).blocks@.len() == old(self).blocks@.len(),
            forall|l: int| 0 <= l < old(self).blocks@.len() && l != b
                ==> final(self).blocks@[l] == old(self).blocks@[l],
            final(self).blocks@[b as int] is Live,
            final(self).blocks@[b as int]->Live_0.next == old(self).blocks@[b as int]->Live_0.next,
            final(self).blocks@[b as int]->Live_0.slots@
                == old(self).blocks@[b as int]->Live_0.slots@.update(o as int, slot),
            final(self).head == old(self).head,
            final(self).tail == old(self).tail,
            final(self).cur@ == old(self).cur@,
    {
        match &mut self.blocks[b] {
            BlockEntry::Live(blk) => {
                blk.slots.set(o, slot);
            },
            BlockEntry::Freed => {},
        }
    }

    /// Takes the value out of slot `o` of the live block at arena index
    /// `b`, leaving the slot's flag set in place.
    fn take_slot(&mut self, b: usize, o: usize) -> (v: T)
        requires
            b < old(self).blocks@.len(),
            old(self).blocks@[b as int] is Live,
            o < old(self).blocks@[b as int]->Live_0.slots@.len(),
            old(self).blocks@[b as int]->Live_0.slots@[o as int].value is Some,
        ensures
            v == old(self).blocks@[b as int]->Live_0.slots@[o as int].value->Some_0,
            final(self).blocks@.len() == old(self).blocks@.len(),
            forall|l: int| 0 <= l < old(self).blocks@.len() && l != b
                ==> final(self).blocks@[l] == old(self).blocks@[l],
            final(self).blocks@[b as int] is Live,
            final(self).blocks@[b as int]->Live_0.next == old(self).blocks@[b as int]->Live_0.next,
            final(self).blocks@[b as int]->Live_0.slots@
                == old(self).blocks@[b as int]->Live_0.slots@.update(
                    o as int,
                    (Slot {
                        value: None,
                        state: old(self).blocks@[b as int]->Live_0.slots@[o as int].state,
                    }),
                ),
            final(self).head == old(self).head,
            final(self).tail == old(self).tail,
            final(self).cur@ == old(self).cur@,
    {
        match &mut self.blocks[b] {
            BlockEntry::Live(blk) => {
                let mut tmp = Slot { value: None, state: 0 };
                core::mem::swap(&mut tmp, &mut blk.slots[o]);
                let Slot { value, state } = tmp;
                blk.slots.set(o, Slot { value: None, state });
                value.unwrap()
            },
            BlockEntry::Freed => unreached(),
        }
    }

    /// Ors `bit` into the flag set of slot `o` of the live block at
    /// arena index `b`, returning the flags held before.
    fn or_state(&mut self, b: usize, o: usize, bit: usize) -> (prev: usize)
        requires
            b < old(self).blocks@.len(),
            old(self).blocks@[b as int] is Live,
            o < old(self).blocks@[b as int]->Live_0.slots@.len(),
        ensures
            prev == old(self).blocks@[b as int]->Live_0.slots@[o as int].state,
            final(self).blocks@.len() == old(self).blocks@.len(),
            forall|l: int| 0 <= l < old(self).blocks@.len() && l != b
                ==> final(self).blocks@[l] == old(self).blocks@[l],
            final(self).blocks@[b as int] is Live,
            final(self).blocks@[b as int]->Live_0.next == old(self).blocks@[b as int]->Live_0.next,
            final(self).blocks@[b as int]->Live_0.slots@
                == old(self).blocks@[b as int]->Live_0.slots@.update(
                    o as int,
                    (Slot {
                        value: old(self).blocks@[b as int]->Live_0.slots@[o as int].value,
                        state: old(self).blocks@[b as int]->Live_0.slots@[o as int].state | bit,
                    }),
                ),
            final(self).head == old(self).head,
            final(self).tail == old(self).tail,
            final(self).cur@ == old(self).cur@,
    {
        match &mut self.blocks[b] {
            BlockEntry::Live(blk) => {
                let mut tmp = Slot { value: None, state: 0 };
                core::mem::swap(&mut tmp, &mut blk.slots[o]);
                let Slot { value, state } = tmp;
                blk.slots.set(o, Slot { value, state: state | bit });
                state
            },
            BlockEntry::Freed => unreached(),
        }
    }

    /// Reads the flag set of slot `o` of the live block at arena index `b`.
    fn slot_state(&self, b: usize, o: usize) -> (s: usize)
        requires
            b < self.blocks@.len(),
            self.blocks@[b as int] is Live,
            o < self.blocks@[b as int]->Live_0.slots@.len(),
        ensures
            s == self.blocks@[b as int]->Live_0.slots@[o as int].state,
    {
        match &self.blocks[b] {
            BlockEntry::Live(blk) => blk.slots[o].state,
            BlockEntry::Freed => unreached(),
        }
    }

    /// Publishes the successor link of the live block at arena index `b`.
    fn set_block_next(&mut self, b: usize, next: Option<usize>)
        requires
            b < old(self).blocks@.len(),
            old(self).blocks@[b as int] is Live,
        ensures
            final(self).blocks@.len() == old(self).blocks@.len(),
            forall|l: int| 0 <= l < old(self).blocks@.len() && l != b
                ==> final(self).blocks@[l] == old(self).blocks@[l],
            final(self).blocks@[b as int] is Live,
            final(self).blocks@[b as int]->Live_0.next == next,
            final(self).blocks@[b as int]->Live_0.slots@
                == old(self).blocks@[b as int]->Live_0.slots@,
            final(self).head == old(self).head,
            final(self).tail == old(self).tail,
            final(self).cur@ == old(self).cur@,
    {
        match &mut self.blocks[b] {
            BlockEntry::Live(blk) => {
                blk.next = next;
            },
            BlockEntry::Freed => {},
        }
    }

    /// Reads the published successor link of the live block at arena
    /// index `b`. The concurrent protocol spins with bounded backoff
    /// until the filling push publishes the link; here it is already
    /// published whenever this is called.
    fn wait_next(&self, b: usize) -> (n: usize)
        requires
            b < self.blocks@.len(),
            self.blocks@[b as int] is Live,
            self.blocks@[b as int]->Live_0.next is Some,
        ensures
            n == self.blocks@[b as int]->Live_0.next->Some_0,
    {
        match &self.blocks[b] {
            BlockEntry::Live(blk) => match blk.next {
                Some(n) => n,
                None => unreached(),
            },
            BlockEntry::Freed => unreached(),
        }
    }

    /// Whether the live block at arena index `b` has published a
    /// successor link.
    fn has_successor(&self, b: usize) -> (r: bool)
        requires
            b < self.blocks@.len(),
            self.blocks@[b as int] is Live,
        ensures
            r == (self.blocks@[b as int]->Live_0.next is Some),
    {
        match &self.blocks[b] {
            BlockEntry::Live(blk) => blk.next.is_some(),
            BlockEntry::Freed => unreached(),
        }
    }

    /// Releases the block at arena index `b` once its value slots from
    /// `start` up to the second-to-last have all been read; the last
    /// slot's consumer is the one running the destruction. The walk is
    /// the protocol's: an unread slot would be flagged `DESTROY` and the
    /// block left to that slot's eventual reader, but with exclusive
    /// access every earlier slot was read first, so the walk always
    /// reaches the end and the block is freed — exactly once, since
    /// freeing leaves a tombstone in the arena.
    fn destroy_block(&mut self, b: usize, start: usize)
        requires
            b < old(self).blocks@.len(),
            old(self).blocks@[b as int] is Live,
            old(self).blocks@[b as int]->Live_0.slots@.len() == 31,
            forall|o: int| start <= o < 30
                ==> (#[trigger] old(self).blocks@[b as int]->Live_0.slots@[o]).state & READ != 0,
        ensures
            final(self).blocks@ == old(self).blocks@.update(b as int, BlockEntry::Freed),
            final(self).head == old(self).head,
            final(self).tail == old(self).tail,
            final(self).cur@ == old(self).cur@,
    {
        let mut i = start;
        while i < BLOCK_CAP - 1
            invariant
                start <= i,
                b < self.blocks@.len(),
                self.blocks@[b as int] is Live,
                self.blocks@[b as int]->Live_0.slots@.len() == 31,
                self.blocks@ == old(self).blocks@,
                self.head == old(self).head,
                self.tail == old(self).tail,
                self.cur@ == old(self).cur@,
                forall|o: int| start <= o < 30
                    ==> (#[trigger] self.blocks@[b as int]->Live_0.slots@[o]).state & READ != 0,
            decreases BLOCK_CAP - 1 - i,
        {
            let s = self.slot_state(b, i);
            if s & READ == 0 {
                let p = self.or_state(b, i, DESTROY);
                if p & READ == 0 {
                    return;
                }
            }
            i = i + 1;
        }
        self.blocks.set(b, BlockEntry::Freed);
        proof {
            assert(final(self).blocks@
                =~= old(self).blocks@.update(b as int, BlockEntry::Freed));
        }
    }

    /// Removes and returns the oldest value, or reports absence when the
    /// queue is empty — it never blocks waiting for a push. A pop that
    /// takes a block's last value slot migrates the head to the already
    /// published successor and destroys the exhausted block.
    #[verifier::rlimit(100)]
    pub fn pop(&mut self) -> (r: Option<T>)
        requires
            old(self).wf(),
        ensures
            final(self).wf(),
            final(self).tail_position() == old(self).tail_position(),
            (match r {
                Some(v) => old(self)@.len() > 0 && v == old(self)@[0]
                    && final(self)@ == old(self)@.drop_first(),
                None => old(self)@.len() == 0 && final(self)@ == old(self)@,
            }),
    {
        let ghost prev = *old(self);
        let head = self.head.index;
        let offset = (head / SLOT_STEP) % LAP;
        proof {
            lemma_or_bits();
            if prev.blocks@.len() > 0 {
                lemma_unpack(head as int, prev.hl(), prev.ho(), prev.head_flag());
                lemma_unpack(self.tail.index as int, prev.tl(), prev.to(), 0);
                lemma_fundamental_div_mod_converse(
                    prev.hl() * 32 + prev.ho(), 32, prev.hl(), prev.ho());
                lemma_fundamental_div_mod_converse(
                    prev.tl() * 32 + prev.to(), 32, prev.tl(), prev.to());
            }
            assert(offset == prev.ho());
        }
        // offset == BLOCK_CAP only while a cross-block transition is in
        // flight, and transitions complete within the call; likewise a
        // null head block pointer lasts only until the first push's
        // install lands, and then the queue is empty anyway
        let mut new_head = head + SLOT_STEP;
        proof {
            if prev.blocks@.len() > 0 {
                lemma_fundamental_div_mod_converse(
                    new_head as int, 2, prev.hl() * 32 + prev.ho() + 1, prev.head_flag());
                lemma_split31(prev.hl(), prev.ho());
                lemma_split31(prev.tl(), prev.to());
            }
        }
        if new_head % SLOT_STEP == 0 {
            // where the concurrent protocol needs a sequentially
            // consistent fence to compare the two ends unambiguously,
            // one exclusive snapshot is already consistent
            let tail = self.tail.index;
            if head / SLOT_STEP == tail / SLOT_STEP {
                proof {
                    assert(self@.len() == 0);
                }
                return None;
            }
            if (head / SLOT_STEP) / LAP != (tail / SLOT_STEP) / LAP {
                // the tail lives in a later block: tell later pops so
                // they can skip the emptiness comparison. The index is
                // even here, so adding the flag is the protocol's or.
                new_head = new_head + HAS_NEXT;
            }
        }
        proof {
            assert(prev.abs_head() < prev.abs_tail());
            assert(self@.len() > 0);
        }
        let b = self.head.block.unwrap();
        proof {
            assert(b as int == prev.hl());
        }
        // the head-index compare-and-swap succeeds outright
        if offset + 1 == BLOCK_CAP {
            // this pop drains the block's last value slot: migrate the
            // head to the successor the filling push published, then
            // destroy the exhausted block
            proof {
                assert(prev.hl() < prev.tl());
            }
            let next = self.wait_next(b);
            proof {
                assert(next as int == prev.hl() + 1);
            }
            let mut next_index = (new_head - new_head % SLOT_STEP) + SLOT_STEP;
            let ghost flagged = self.blocks@[next as int]->Live_0.next is Some;
            if self.has_successor(next) {
                // the rebased index is even, so adding the flag is the
                // protocol's or
                next_index = next_index + HAS_NEXT;
            }
            self.head.block = Some(next);
            self.head.index = next_index;
            proof {
                self.cur = Ghost(Cursors { head_lap: prev.hl() + 1, head_off: 0, ..prev.cur@ });
                assert(self.head.index as int
                    == 2 * (self.hl() * 32 + 0) + (if flagged { 1int } else { 0int }));
                assert(flagged == (prev.hl() + 1 < prev.tl()));
            }
            // the slot's WRITE flag is already set: the slot lies in the
            // written region, so there is nothing to spin-wait for
            proof {
                assert(prev.slot(prev.hl(), 30).state == WRITE);
                assert(prev.slot(prev.hl(), 30).value is Some);
            }
            let v = self.take_slot(b, offset);
            proof {
                assert forall|o: int| 0 <= o < 30
                    implies (#[trigger] self.blocks@[b as int]->Live_0.slots@[o]).state
                        & READ != 0 by {
                    assert(self.blocks@[b as int]->Live_0.slots@[o] == prev.slot(prev.hl(), o));
                    assert(prev.slot(prev.hl(), o).state == 3);
                }
            }
            self.destroy_block(b, 0);
            proof {
                let hl = prev.hl();
                let ho = prev.ho();
                let tl = prev.tl();
                let to = prev.to();
                assert(self.blocks@.len() == prev.blocks@.len());
                assert(self.blocks@[hl] is Freed);
                assert(forall|l: int| 0 <= l < prev.blocks@.len() && l != hl
                    ==> #[trigger] self.blocks@[l] == prev.blocks@[l]);
                assert(self.wf()) by {
                    assert forall|l: int, o: int| #![trigger self.slot(l, o)]
                        self.hl() <= l <= self.tl() && 0 <= o < 31
                            && (l > self.hl() || o >= self.ho())
                            && (l < self.tl() || o < self.to())
                        implies self.slot(l, o).state == WRITE
                            && self.slot(l, o).value is Some by {
                        assert(self.slot(l, o) == prev.slot(l, o));
                        assert(prev.slot(l, o).state == WRITE);
                    }
                    assert forall|o: int| #![trigger self.slot(self.tl(), o)]
                        self.to() <= o < 31
                        implies self.slot(self.tl(), o).state == 0
                            && self.slot(self.tl(), o).value is None by {
                        assert(self.slot(tl, o) == prev.slot(tl, o));
                        assert(prev.slot(tl, o).state == 0);
                    }
                }
                lemma_split31(hl, 30);
                assert(v == prev@[0]);
                assert(self@ =~= prev@.drop_first()) by {
                    assert(self.abs_head() == prev.abs_head() + 1);
                    assert(self.abs_tail() == prev.abs_tail());
                    assert forall|m: int| 0 <= m < self@.len()
                        implies self@[m] == prev@.drop_first()[m] by {
                        let a = self.abs_head() + m;
                        lemma_fundamental_div_mod(a, 31);
                        lemma_mod_pos_bound(a, 31);
                        assert(31 * (a / 31) <= a);
                        assert(a >= (hl + 1) * 31);
                        assert(a / 31 >= hl + 1);
                        assert(a < (tl + 1) * 31);
                        assert(a / 31 <= tl);
                        assert(self.slot(a / 31, a % 31) == prev.slot(a / 31, a % 31));
                        assert(prev@.drop_first()[m] == prev@[m + 1]);
                        assert(prev@[m + 1] == prev.slot(a / 31, a % 31).value->Some_0);
                    }
                }
            }
            Some(v)
        } else {
            self.head.index = new_head;
            proof {
                self.cur = Ghost(Cursors { head_off: prev.ho() + 1, ..prev.cur@ });
            }
            proof {
                assert(prev.slot(prev.hl(), prev.ho()).state == WRITE);
                assert(prev.slot(prev.hl(), prev.ho()).value is Some);
            }
            let v = self.take_slot(b, offset);
            let p = self.or_state(b, offset, READ);
            if p & DESTROY != 0 {
                // a draining side would have flagged this slot while the
                // block emptied; with exclusive access the drain always
                // ran to completion instead, so the flag is never found
                self.destroy_block(b, offset + 1);
            }
            proof {
                let hl = prev.hl();
                let ho = prev.ho();
                let tl = prev.tl();
                let to = prev.to();
                assert(self.blocks@.len() == prev.blocks@.len());
                assert(forall|l: int| 0 <= l < prev.blocks@.len() && l != hl
                    ==> #[trigger] self.blocks@[l] == prev.blocks@[l]);
                assert(self.blocks@[hl] is Live);
                assert(self.blocks@[hl]->Live_0.next == prev.blocks@[hl]->Live_0.next);
                assert(self.blocks@[hl]->Live_0.slots@
                    =~= prev.blocks@[hl]->Live_0.slots@.update(
                        ho,
                        (Slot { value: None, state: 3 }),
                    ));
                assert(self.wf()) by {
                    if hl == tl {
                        assert(ho < to);
                    }
                    assert forall|l: int, o: int| #![trigger self.slot(l, o)]
                        self.hl() <= l <= self.tl() && 0 <= o < 31
                            && (l > self.hl() || o >= self.ho())
                            && (l < self.tl() || o < self.to())
                        implies self.slot(l, o).state == WRITE
                            && self.slot(l, o).value is Some by {
                        if l == hl {
                            assert(o != ho);
                            assert(self.slot(l, o) == prev.slot(l, o));
                        } else {
                            assert(self.blocks@[l] == prev.blocks@[l]);
                        }
                        assert(prev.slot(l, o).state == WRITE);
                    }
                    assert forall|o: int| #![trigger self.slot(self.hl(), o)]
                        0 <= o < self.ho()
                        implies self.slot(self.hl(), o).state == 3
                            && self.slot(self.hl(), o).value is None by {
                        if o != ho {
                            assert(self.slot(hl, o) == prev.slot(hl, o));
                            assert(prev.slot(hl, o).state == 3);
                        }
                    }
                    assert forall|o: int| #![trigger self.slot(self.tl(), o)]
                        self.to() <= o < 31
                        implies self.slot(self.tl(), o).state == 0
                            && self.slot(self.tl(), o).value is None by {
                        if tl == hl {
                            assert(o != ho);
                            assert(self.slot(tl, o) == prev.slot(tl, o));
                        } else {
                            assert(self.blocks@[tl] == prev.blocks@[tl]);
                        }
                        assert(prev.slot(tl, o).state == 0);
                    }
                }
                lemma_split31(hl, ho);
                assert(v == prev@[0]);
                assert(self@ =~= prev@.drop_first()) by {
                    assert(self.abs_head() == prev.abs_head() + 1);
                    assert(self.abs_tail() == prev.abs_tail());
                    assert forall|m: int| 0 <= m < self@.len()
                        implies self@[m] == prev@.drop_first()[m] by {
                        let a = self.abs_head() + m;
                        lemma_fundamental_div_mod(a, 31);
                        lemma_mod_pos_bound(a, 31);
                        assert(31 * (a / 31) <= a);
                        assert(a > hl * 31 + ho);
                        assert(a < (tl + 1) * 31);
                        assert(a / 31 <= tl);
                        if a / 31 == hl && a % 31 == ho {
                            assert(a == hl * 31 + ho);
                            assert(false);
                        }
                        if a / 31 == hl {
                            assert(self.slot(a / 31, a % 31) == prev.slot(a / 31, a % 31));
                        } else {
                            assert(self.blocks@[a / 31] == prev.blocks@[a / 31]);
                        }
                        assert(prev@.drop_first()[m] == prev@[m + 1]);
                        assert(prev@[m + 1] == prev.slot(a / 31, a % 31).value->Some_0);
                    }
                }
            }
            Some(v)
        }
    }

    /// The exact number of queued values, computed from the two packed
    /// indices: each is stripped of its flag, normalised past its lap's
    /// sentinel position, rebased to the head's lap, and the difference
    /// is corrected by one sentinel per lap in between.
    pub fn len(&self) -> (n: usize)
        requires
            self.wf(),
        ensures
            n == self@.len(),
    {
        // the concurrent protocol re-reads the tail until two reads
        // agree; a single exclusive read is already a consistent snapshot
        let head_raw = self.head.index;
        let tail_raw = self.tail.index;
        proof {
            if self.blocks@.len() > 0 {
                lemma_unpack(head_raw as int, self.hl(), self.ho(), self.head_flag());
                lemma_unpack(tail_raw as int, self.tl(), self.to(), 0);
            }
        }
        let mut tail = tail_raw - tail_raw % SLOT_STEP;
        let mut head = head_raw - head_raw % SLOT_STEP;
        proof {
            if self.blocks@.len() > 0 {
                lemma_fundamental_div_mod_converse(
                    head as int, 2, self.hl() * 32 + self.ho(), 0);
                lemma_fundamental_div_mod_converse(
                    self.hl() * 32 + self.ho(), 32, self.hl(), self.ho());
            }
        }
        if (tail / SLOT_STEP) % LAP == LAP - 1 {
            tail = tail + SLOT_STEP;
        }
        if (head / SLOT_STEP) % LAP == LAP - 1 {
            head = head + SLOT_STEP;
        }
        let lap = (head / SLOT_STEP) / LAP;
        proof {
            if self.blocks@.len() > 0 {
                assert(lap == self.hl());
                assert(tail as int == 2 * (self.tl() * 32 + self.to()));
                assert(tail as int - lap * 64 == 2 * ((self.tl() - self.hl()) * 32 + self.to()));
            }
        }
        tail = tail - lap * LAP * SLOT_STEP;
        head = head - lap * LAP * SLOT_STEP;
        let t = tail / SLOT_STEP;
        let h = head / SLOT_STEP;
        proof {
            if self.blocks@.len() > 0 {
                lemma_fundamental_div_mod_converse(
                    tail as int, 2, (self.tl() - self.hl()) * 32 + self.to(), 0);
                lemma_fundamental_div_mod_converse(head as int, 2, self.ho(), 0);
                lemma_fundamental_div_mod_converse(
                    t as int, 32, self.tl() - self.hl(), self.to());
            }
        }
        t - h - t / LAP
    }
    /// Whether the two packed indices agree once their continuation
    /// flags are masked off: the raw emptiness test made on snapshots of
    /// the two ends.
    pub closed spec fn ends_aligned(self) -> bool {
        self.head.index as int / 2 == self.tail.index as int / 2
    }

    /// Quiescent consistency: when no call is in flight, the emptiness
    /// test on the packed indices holds exactly when the queue's length
    /// is zero — emptiness and length can never disagree at rest.
    pub proof fn lemma_quiescent_consistency(self)
        requires
            self.wf(),
        ensures
            self.ends_aligned() <==> self@.len() == 0,
    {
        if self.blocks@.len() > 0 {
            lemma_unpack(self.head.index as int, self.hl(), self.ho(), self.head_flag());
            lemma_unpack(self.tail.index as int, self.tl(), self.to(), 0);
            lemma_fundamental_div_mod_converse(
                self.hl() * 32 + self.ho(), 32, self.hl(), self.ho());
            lemma_fundamental_div_mod_converse(
                self.tl() * 32 + self.to(), 32, self.tl(), self.to());
            lemma_split31(self.hl(), self.ho());
            lemma_split31(self.tl(), self.to());
        }
    }

    /// Hands the queue to a draining iterator.
    pub fn into_iter(self) -> (it: IntoIter<T>)
        requires
            self.wf(),
        ensures
            it.wf(),
            it@ == self@,
    {
        IntoIter { value: self }
    }
}

/// Draining ownership of a [`SegQueue`]: repeated [`IntoIter::next`]
/// calls hand the remaining values out in queue order.
pub struct IntoIter<T> {
    value: SegQueue<T>,
}

impl<T> View for IntoIter<T> {
    type V = Seq<T>;

    /// The values not yet handed out, oldest first.
    closed spec fn view(&self) -> Seq<T> {
        self.value@
    }
}

impl<T> IntoIter<T> {
    /// Well-formed: the queue being drained is.
    pub closed spec fn wf(self) -> bool {
        self.value.wf()
    }

    /// The oldest remaining value, or absence once the queue is drained.
    pub fn next(&mut self) -> (r: Option<T>)
        requires
            old(self).wf(),
        ensures
            final(self).wf(),
            (match r {
                Some(v) => old(self)@.len() > 0 && v == old(self)@[0]
                    && final(self)@ == old(self)@.drop_first(),
                None => old(self)@.len() == 0 && final(self)@ == old(self)@,
            }),
    {
        // the drain owns the queue outright, so the pop protocol runs
        // with no contention at all
        self.value.pop()
    }
}

impl<T> Default for SegQueue<T> {
    /// The same queue as [`SegQueue::new`].
    fn default() -> (q: Self)
        ensures
            q.wf(),
            q@ == Seq::<T>::empty(),
            q.tail_position() == 0,
    {
        Self::new()
    }
}

/// A cursor counted in value slots splits uniquely into a lap and an
/// offset within the lap's block.
proof fn lemma_split31(l: int, o: int)
    requires
        0 <= l,
        0 <= o < 31,
    ensures
        (l * 31 + o) / 31 == l,
        (l * 31 + o) % 31 == o,
{
    lemma_fundamental_div_mod_converse(l * 31 + o, 31, l, o);
}

/// The flag-set combinations and tests the slot protocol reaches.
proof fn lemma_or_bits()
    ensures
        0usize | 1usize == 1usize,
        1usize | 2usize == 3usize,
        3usize | 2usize == 3usize,
        1usize & 1usize != 0,
        3usize & 1usize != 0,
        3usize & 2usize != 0,
        1usize & 2usize == 0,
        1usize & 4usize == 0,
{
    assert(0usize | 1usize == 1usize) by (bit_vector);
    assert(1usize | 2usize == 3usize) by (bit_vector);
    assert(3usize | 2usize == 3usize) by (bit_vector);
    assert(1usize & 1usize == 1usize) by (bit_vector);
    assert(3usize & 1usize == 1usize) by (bit_vector);
    assert(3usize & 2usize == 2usize) by (bit_vector);
    assert(1usize & 2usize == 0usize) by (bit_vector);
    assert(1usize & 4usize == 0usize) by (bit_vector);
}

/// Unpacks a packed index: the cursor is the index stripped of its
/// continuation flag, the offset is the cursor's position within its
/// lap, and the lap count is the cursor's full laps.
proof fn lemma_unpack(index: int, lap: int, off: int, flag: int)
    requires
        0 <= lap,
        0 <= off < 32,
        0 <= flag < 2,
        index == 2 * (lap * 32 + off) + flag,
    ensures
        index / 2 == lap * 32 + off,
        (index / 2) % 32 == off,
        (index / 2) / 32 == lap,
        index % 2 == flag,
{
    lemma_fundamental_div_mod_converse(index, 2, lap * 32 + off, flag);
    lemma_fundamental_div_mod_converse(lap * 32 + off, 32, lap, off);
}

} // verus!
