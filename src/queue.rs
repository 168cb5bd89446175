//! An unbounded FIFO queue whose storage is a chain of segments of four entries, each segment
//! one block of a block allocator. Producers fill the last segment and chain a new one when it
//! is full; the consumer reads from the first and gives its block back once every entry of it
//! was read and a later segment exists.

use vstd::prelude::*;

use crate::allocator::LinkedListAllocator;

verus! {

/// The entries of one segment.
pub const SEGMENT_ENTRIES: usize = 4;

/// Receives from a queue.
pub trait QueueRx<T> {
    type ReceiveError;

    /// The receiving end is in a usable state.
    spec fn rx_ready(&self) -> bool;

    fn try_dequeue(&mut self) -> (r: Result<T, Self::ReceiveError>)
        requires
            old(self).rx_ready(),
        ensures
            final(self).rx_ready(),
    ;
}

/// Sends into a queue; on failure the item comes back with the error.
pub trait QueueTx<T> {
    type SendError;

    /// The sending end is in a usable state.
    spec fn tx_ready(&self) -> bool;

    fn try_enqueue(&mut self, data: T) -> (r: Result<(), (T, Self::SendError)>)
        requires
            old(self).tx_ready(),
        ensures
            final(self).tx_ready(),
    ;
}

#[derive(Debug, PartialEq, Eq, Structural, Clone, Copy)]
pub enum DequeueError {
    Empty,
}

#[derive(Debug, PartialEq, Eq, Structural, Clone, Copy)]
pub enum EnqueueError {
    /// The allocator has no block for a new segment
    OutOfMemory,
}

/// One segment: its entries in order of writing, the number already read, and the address of
/// its block.
struct Buffer<T> {
    entries: Vec<Option<T>>,
    read: usize,
    block: usize,
}

/// The items of a segment that are written and not yet read.
spec fn buffer_items<T>(b: Buffer<T>) -> Seq<T> {
    b.entries@.subrange(b.read as int, b.entries@.len() as int).map_values(|o: Option<T>| o->Some_0)
}

/// The items of the segments, first segment first.
spec fn chain_items<T>(segs: Seq<Buffer<T>>) -> Seq<T>
    decreases segs.len(),
{
    if segs.len() == 0 {
        Seq::empty()
    } else {
        buffer_items(segs[0]) + chain_items(segs.drop_first())
    }
}

proof fn lemma_chain_push<T>(segs: Seq<Buffer<T>>, b: Buffer<T>)
    ensures
        chain_items(segs.push(b)) == chain_items(segs) + buffer_items(b),
    decreases segs.len(),
{
    if segs.len() == 0 {
        assert(segs.push(b).drop_first() =~= Seq::<Buffer<T>>::empty());
        assert(chain_items(Seq::<Buffer<T>>::empty()) == Seq::<T>::empty());
        assert(buffer_items(b) + Seq::<T>::empty() =~= Seq::<T>::empty() + buffer_items(b));
    } else {
        assert(segs.push(b).drop_first() =~= segs.drop_first().push(b));
        lemma_chain_push(segs.drop_first(), b);
        assert(buffer_items(segs[0]) + (chain_items(segs.drop_first()) + buffer_items(b))
            =~= buffer_items(segs[0]) + chain_items(segs.drop_first()) + buffer_items(b));
    }
}

/// A queue of `T` whose segments are blocks of `B` bytes.
pub struct Queue<T, const B: usize> {
    allocator: LinkedListAllocator<B>,
    segments: Vec<Buffer<T>>,
    /// The allocator's index of each segment's block
    blocks: Ghost<Seq<usize>>,
    /// The blocks that were handed out before the queue was made
    base: Ghost<Set<usize>>,
}

impl<T, const B: usize> Queue<T, B> {
    /// The items in the queue, oldest first.
    pub closed spec fn items(&self) -> Seq<T> {
        chain_items(self.segments@)
    }

    /// Whether the last segment has no entry left, so that the next item needs a new block.
    pub closed spec fn tail_full(&self) -> bool {
        self.segments@.last().entries@.len() == SEGMENT_ENTRIES
    }

    /// The number of free blocks left in the allocator.
    pub closed spec fn spare_blocks(&self) -> nat {
        self.allocator.free_list().len()
    }

    /// The blocks that were handed out before the queue took its first one.
    pub closed spec fn spec_base(&self) -> Set<usize> {
        self.base@
    }

    /// The number of blocks of the queue's arena.
    pub closed spec fn arena_blocks(&self) -> nat {
        self.allocator.blocks()
    }

    /// The first address of the queue's arena.
    pub closed spec fn arena_start(&self) -> nat {
        self.allocator.spec_start()
    }

    /// Each segment's block is one the allocator handed out, and the allocator's handed-out
    /// blocks are those from before the queue and the segments' blocks.
    closed spec fn blocks_wf(&self) -> bool {
        &&& self.allocator.wf()
        &&& self.blocks@.len() == self.segments@.len()
        &&& self.blocks@.no_duplicates()
        &&& forall|i: int|
            0 <= i < self.blocks@.len() ==> #[trigger] self.blocks@[i] < self.allocator.blocks()
                && self.segments@[i].block == self.allocator.address(self.blocks@[i] as nat) as usize
                && !self.base@.contains(self.blocks@[i])
        &&& self.allocator.allocated() == self.base@ + self.blocks@.to_set()
    }

    /// Every segment but the last is full, and the entries between a segment's read and write
    /// positions hold items.
    closed spec fn segments_wf(&self) -> bool {
        &&& self.segments@.len() > 0
        &&& forall|i: int|
            0 <= i < self.segments@.len() ==> {
                let b = #[trigger] self.segments@[i];
                &&& b.read <= b.entries@.len() <= SEGMENT_ENTRIES
                &&& i + 1 < self.segments@.len() ==> b.entries@.len() == SEGMENT_ENTRIES
                &&& forall|j: int| b.read <= j < b.entries@.len() ==> #[trigger] b.entries@[j] is Some
            }
    }

    pub closed spec fn wf(&self) -> bool {
        &&& self.blocks_wf()
        &&& self.segments_wf()
    }

    /// The block bookkeeping survives any change that keeps the allocator and each segment's
    /// block.
    proof fn lemma_blocks_kept(a: Self, b: Self)
        requires
            a.blocks_wf(),
            a.allocator == b.allocator,
            a.blocks == b.blocks,
            a.base == b.base,
            a.segments@.len() == b.segments@.len(),
            forall|i: int| 0 <= i < a.segments@.len() ==> #[trigger] b.segments@[i].block == a.segments@[i].block,
        ensures
            b.blocks_wf(),
    {
        assert forall|i: int| 0 <= i < b.blocks@.len() implies #[trigger] b.blocks@[i] < b.allocator.blocks()
            && b.segments@[i].block == b.allocator.address(b.blocks@[i] as nat) as usize
            && !b.base@.contains(b.blocks@[i]) by {
            assert(a.blocks@[i] == b.blocks@[i]);
        }
    }

    /// Takes a new empty segment from the allocator.
    fn new_buffer(allocator: &mut LinkedListAllocator<B>) -> (r: Result<Buffer<T>, EnqueueError>)
        requires
            old(allocator).wf(),
        ensures
            final(allocator).wf(),
            final(allocator).blocks() == old(allocator).blocks(),
            final(allocator).spec_start() == old(allocator).spec_start(),
            r is Ok <==> old(allocator).free_list().len() > 0,
            r matches Ok(b) ==> b.entries@.len() == 0 && b.read == 0 && b.block == old(allocator).address(
                old(allocator).free_list()[0] as nat,
            ) as usize && final(allocator).free_list() == old(allocator).free_list().drop_first()
                && final(allocator).allocated() == old(allocator).allocated().insert(
                old(allocator).free_list()[0],
            ),
            r is Err ==> final(allocator).free_list() == old(allocator).free_list(),
    {
        proof {
            old(allocator).lemma_block_size();
        }
        match allocator.allocate(B, 1) {
            Ok(block) => Ok(Buffer { entries: Vec::new(), read: 0, block }),
            Err(_) => Err(EnqueueError::OutOfMemory),
        }
    }

    /// Appends an item after every item in the queue; fails, handing the item back, only when
    /// a new segment is needed and the allocator has no block for it.
    pub fn try_enqueue(&mut self, data: T) -> (r: Result<(), (T, EnqueueError)>)
        requires
            old(self).wf(),
        ensures
            final(self).wf(),
            r is Err <==> old(self).tail_full() && old(self).spare_blocks() == 0,
            r is Ok ==> final(self).items() == old(self).items().push(data),
            r is Ok ==> final(self).spare_blocks() == if old(self).tail_full() {
                old(self).spare_blocks() - 1
            } else {
                old(self).spare_blocks() as int
            },
            r matches Err((d, e)) ==> d == data && e == EnqueueError::OutOfMemory && final(self).items()
                == old(self).items() && final(self).spare_blocks() == old(self).spare_blocks(),
    {
        let last = self.segments.len() - 1;
        let ghost segs = self.segments@;
        if self.segments[last].entries.len() < SEGMENT_ENTRIES {
            let mut b = self.segments.remove(last);
            b.entries.push(Some(data));
            self.segments.push(b);
            proof {
                assert forall|i: int| 0 <= i < segs.len() implies #[trigger] self.segments@[i].block
                    == segs[i].block by {
                    if i != last {
                        assert(self.segments@[i] == segs[i]);
                    }
                }
                Self::lemma_blocks_kept(*old(self), *self);
                assert(segs =~= segs.subrange(0, last as int).push(segs[last as int]));
                assert(self.segments@ =~= segs.subrange(0, last as int).push(b));
                lemma_chain_push(segs.subrange(0, last as int), segs[last as int]);
                lemma_chain_push(segs.subrange(0, last as int), b);
                assert(buffer_items(b) =~= buffer_items(segs[last as int]).push(data));
                assert(chain_items(segs.subrange(0, last as int)) + buffer_items(segs[last as int]).push(data)
                    =~= (chain_items(segs.subrange(0, last as int)) + buffer_items(segs[last as int])).push(data));
            }
            Ok(())
        } else {
            let ghost old_free = self.allocator.free_list();
            let ghost old_allocated = self.allocator.allocated();
            let mut b = match Self::new_buffer(&mut self.allocator) {
                Ok(b) => b,
                Err(e) => {
                    return Err((data, e));
                },
            };
            let ghost f0 = old_free[0];
            b.entries.push(Some(data));
            self.segments.push(b);
            self.blocks = Ghost(self.blocks@.push(f0));
            proof {
                assert(old_free.contains(f0));
                assert(!old_allocated.contains(f0));
                assert(self.allocator.allocated().contains(f0));
                let ob = old(self).blocks@;
                assert(!ob.contains(f0)) by {
                    if ob.contains(f0) {
                        let k = choose|k: int| 0 <= k < ob.len() && ob[k] == f0;
                        assert(ob.to_set().contains(f0));
                    }
                }
                assert(self.blocks@.no_duplicates()) by {
                    assert forall|j: int, k: int| 0 <= j < self.blocks@.len() && 0 <= k < self.blocks@.len() && j != k
                        implies self.blocks@[j] != self.blocks@[k] by {
                        if j < ob.len() && k < ob.len() {
                            assert(ob[j] != ob[k]);
                        } else if j < ob.len() {
                            assert(ob.contains(ob[j]));
                        } else {
                            assert(ob.contains(ob[k]));
                        }
                    }
                }
                assert(self.blocks@.to_set() =~= ob.to_set().insert(f0)) by {
                    assert forall|x: usize| self.blocks@.to_set().contains(x) implies ob.to_set().insert(f0).contains(x) by {
                        let k = choose|k: int| 0 <= k < self.blocks@.len() && self.blocks@[k] == x;
                        if k < ob.len() {
                            assert(ob[k] == x);
                            assert(ob.contains(x));
                        }
                    }
                    assert forall|x: usize| ob.to_set().insert(f0).contains(x) implies self.blocks@.to_set().contains(x) by {
                        if x == f0 {
                            assert(self.blocks@[ob.len() as int] == f0);
                        } else {
                            let k = choose|k: int| 0 <= k < ob.len() && ob[k] == x;
                            assert(self.blocks@[k] == x);
                        }
                    }
                }
                assert(self.allocator.allocated() =~= self.base@ + self.blocks@.to_set());
                assert forall|i: int| 0 <= i < self.blocks@.len() implies #[trigger] self.blocks@[i] < self.allocator.blocks()
                    && self.segments@[i].block == self.allocator.address(self.blocks@[i] as nat) as usize
                    && !self.base@.contains(self.blocks@[i]) by {
                    if i < ob.len() {
                        assert(self.blocks@[i] == ob[i]);
                        assert(self.segments@[i] == old(self).segments@[i]);
                    }
                }
                lemma_chain_push(segs, b);
                assert(buffer_items(b) =~= seq![data]);
                assert(seq![data] =~= Seq::<T>::empty().push(data));
            }
            Ok(())
        }
    }

    /// Takes the oldest item; a first segment read to its end, with a later one, is given back
    /// to the allocator on the way.
    pub fn try_dequeue(&mut self) -> (r: Result<T, DequeueError>)
        requires
            old(self).wf(),
        ensures
            final(self).wf(),
            old(self).items().len() == 0 ==> r == Err::<T, DequeueError>(DequeueError::Empty)
                && final(self).items() == old(self).items(),
            old(self).items().len() > 0 ==> r == Ok::<T, DequeueError>(old(self).items()[0])
                && final(self).items() == old(self).items().drop_first(),
            final(self).spare_blocks() >= old(self).spare_blocks(),
    {
        loop
            invariant
                self.wf(),
                self.items() == old(self).items(),
                self.spare_blocks() >= old(self).spare_blocks(),
            decreases self.segments@.len(),
        {
            let ghost segs = self.segments@;
            let ghost before = *self;
            let first = &self.segments[0];
            if first.read < first.entries.len() {
                let mut b = self.segments.remove(0);
                let read = b.read;
                let item = b.entries.remove(read);
                assert(item == segs[0].entries@[read as int]);
                assert(item is Some);
                b.entries.insert(read, None);
                b.read = read + 1;
                self.segments.insert(0, b);
                proof {
                    assert(self.segments@ =~= segs.update(0, b));
                    assert forall|i: int| 0 <= i < segs.len() implies #[trigger] self.segments@[i].block
                        == segs[i].block by {}
                    Self::lemma_blocks_kept(before, *self);
                    assert(self.segments@.drop_first() =~= segs.drop_first());
                    assert(buffer_items(segs[0]) =~= seq![item->Some_0] + buffer_items(b));
                    assert(old(self).items() =~= seq![item->Some_0] + self.items());
                    assert forall|i: int| 0 <= i < self.segments@.len() implies {
                        let c = #[trigger] self.segments@[i];
                        &&& c.read <= c.entries@.len() <= SEGMENT_ENTRIES
                        &&& i + 1 < self.segments@.len() ==> c.entries@.len() == SEGMENT_ENTRIES
                        &&& forall|j: int| c.read <= j < c.entries@.len() ==> #[trigger] c.entries@[j] is Some
                    } by {
                        if i == 0 {
                            assert forall|j: int| b.read <= j < b.entries@.len() implies #[trigger] b.entries@[j] is Some by {
                                assert(b.entries@[j] == segs[0].entries@[j]);
                            }
                        } else {
                            assert(self.segments@[i] == segs[i]);
                        }
                    }
                }
                match item {
                    Some(v) => {
                        return Ok(v);
                    },
                    None => {
                        return Err(DequeueError::Empty);
                    },
                }
            }
            if self.segments.len() == 1 {
                proof {
                    assert(buffer_items(segs[0]) =~= Seq::<T>::empty());
                    assert(segs.drop_first() =~= Seq::<Buffer<T>>::empty());
                    assert(chain_items(segs.drop_first()) == Seq::<T>::empty());
                    assert(chain_items(segs) =~= Seq::<T>::empty());
                }
                return Err(DequeueError::Empty);
            }
            let b = self.segments.remove(0);
            let ghost head = self.blocks@[0];
            let ghost ob = self.blocks@;
            proof {
                self.allocator.lemma_address_fits(head as nat);
                self.allocator.lemma_block_size();
                assert(self.allocator.allocated().contains(head)) by {
                    assert(ob.to_set().contains(head));
                }
            }
            let freed = self.allocator.deallocate(b.block, B);
            self.blocks = Ghost(ob.drop_first());
            proof {
                assert(freed is Ok);
                let c = choose|c: usize| #[trigger] before.allocator.allocated().contains(c)
                    && before.allocator.address(c as nat) == b.block && self.allocator.free_list()
                    == seq![c] + before.allocator.free_list() && self.allocator.allocated()
                    == before.allocator.allocated().remove(c);
                before.allocator.lemma_address_injective(c as nat, head as nat);
                assert(c == head);
                assert(self.blocks@.no_duplicates()) by {
                    assert forall|j: int, k: int| 0 <= j < self.blocks@.len() && 0 <= k < self.blocks@.len() && j != k
                        implies self.blocks@[j] != self.blocks@[k] by {
                        assert(ob[j + 1] != ob[k + 1]);
                    }
                }
                assert(self.allocator.allocated() =~= self.base@ + self.blocks@.to_set()) by {
                    assert forall|x: usize| ob.to_set().remove(head).contains(x) <==> self.blocks@.to_set().contains(x) by {
                        if ob.to_set().remove(head).contains(x) {
                            let k = choose|k: int| 0 <= k < ob.len() && ob[k] == x;
                            assert(k != 0);
                            assert(self.blocks@[k - 1] == x);
                        }
                        if self.blocks@.to_set().contains(x) {
                            let k = choose|k: int| 0 <= k < self.blocks@.len() && self.blocks@[k] == x;
                            assert(ob[k + 1] == x);
                            assert(ob[0] != ob[k + 1]);
                        }
                    }
                    assert(!self.base@.contains(head));
                }
                assert forall|i: int| 0 <= i < self.blocks@.len() implies #[trigger] self.blocks@[i] < self.allocator.blocks()
                    && self.segments@[i].block == self.allocator.address(self.blocks@[i] as nat) as usize
                    && !self.base@.contains(self.blocks@[i]) by {
                    assert(self.blocks@[i] == ob[i + 1]);
                    assert(self.segments@[i] == segs[i + 1]);
                }
                assert(buffer_items(segs[0]) =~= Seq::<T>::empty());
                assert(self.segments@ =~= segs.drop_first());
                assert(chain_items(segs) =~= chain_items(segs.drop_first()));
                assert forall|i: int| 0 <= i < self.segments@.len() implies {
                    let c = #[trigger] self.segments@[i];
                    &&& c.read <= c.entries@.len() <= SEGMENT_ENTRIES
                    &&& i + 1 < self.segments@.len() ==> c.entries@.len() == SEGMENT_ENTRIES
                    &&& forall|j: int| c.read <= j < c.entries@.len() ==> #[trigger] c.entries@[j] is Some
                } by {
                    assert(self.segments@[i] == segs[i + 1]);
                }
            }
        }
    }
}

impl<T, const B: usize> Queue<T, B> {
    /// Ends the queue: gives every segment's block back and returns the allocator, with the
    /// same blocks handed out as before the queue was made.
    pub fn into_allocator(self) -> (r: LinkedListAllocator<B>)
        requires
            self.wf(),
        ensures
            r.wf(),
            r.blocks() == self.arena_blocks(),
            r.spec_start() == self.arena_start(),
            r.allocated() == self.spec_base(),
    {
        let Queue { mut allocator, segments, blocks, base } = self;
        let ghost bs = blocks@;
        let ghost a0 = allocator;
        assert(bs.skip(0) =~= bs);
        let mut i: usize = 0;
        while i < segments.len()
            invariant
                allocator.wf(),
                allocator.blocks() == a0.blocks(),
                allocator.spec_start() == a0.spec_start(),
                bs.len() == segments@.len(),
                bs.no_duplicates(),
                i <= segments@.len(),
                forall|k: int|
                    0 <= k < bs.len() ==> #[trigger] bs[k] < a0.blocks() && segments@[k].block
                        == a0.address(bs[k] as nat) as usize && !base@.contains(bs[k]),
                allocator.allocated() == base@ + bs.skip(i as int).to_set(),
            decreases segments@.len() - i,
        {
            let ghost before = allocator;
            let ghost head = bs[i as int];
            proof {
                allocator.lemma_address_fits(head as nat);
                allocator.lemma_block_size();
                assert(bs.skip(i as int)[0] == head);
                assert(bs.skip(i as int).to_set().contains(head));
                assert(allocator.allocated().contains(head));
                assert(allocator.address(head as nat) == a0.address(head as nat));
                assert(allocator.address(head as nat) == segments@[i as int].block);
            }
            let freed = allocator.deallocate(segments[i].block, B);
            proof {
                assert(freed is Ok);
                let c = choose|c: usize| #[trigger] before.allocated().contains(c) && before.address(
                    c as nat,
                ) == segments@[i as int].block && allocator.free_list() == seq![c]
                    + before.free_list() && allocator.allocated() == before.allocated().remove(c);
                before.lemma_address_injective(c as nat, head as nat);
                assert(c == head);
                assert(allocator.allocated() =~= base@ + bs.skip(i + 1).to_set()) by {
                    let r0 = bs.skip(i as int);
                    let r1 = bs.skip(i + 1);
                    assert forall|x: usize| r0.to_set().remove(head).contains(x) <==> r1.to_set().contains(x) by {
                        if r0.to_set().remove(head).contains(x) {
                            let k = choose|k: int| 0 <= k < r0.len() && r0[k] == x;
                            assert(r0[0] == head);
                            assert(k != 0);
                            assert(r1[k - 1] == bs[i + k]);
                            assert(r1.contains(x));
                        }
                        if r1.to_set().contains(x) {
                            let k = choose|k: int| 0 <= k < r1.len() && r1[k] == x;
                            assert(r1[k] == bs[i + 1 + k]);
                            assert(bs[i as int] != bs[i + 1 + k]);
                            assert(r0[k + 1] == x);
                            assert(r0.contains(x));
                        }
                    }
                }
            }
            i = i + 1;
        }
        assert(bs.skip(i as int).to_set() =~= Set::<usize>::empty()) by {
            assert(bs.skip(i as int).len() == 0);
        }
        assert(allocator.allocated() =~= base@);
        allocator
    }
}

/// A queue with one empty segment taken from `allocator`.
pub fn queue<T, const B: usize>(allocator: LinkedListAllocator<B>) -> (r: Result<Queue<T, B>, EnqueueError>)
    requires
        allocator.wf(),
    ensures
        r is Ok <==> allocator.free_list().len() > 0,
        r matches Ok(q) ==> q.wf() && q.items() == Seq::<T>::empty() && !q.tail_full()
            && q.spare_blocks() == allocator.free_list().len() - 1 && q.spec_base()
            == allocator.allocated() && q.arena_blocks() == allocator.blocks() && q.arena_start()
            == allocator.spec_start(),
        r matches Err(e) ==> e == EnqueueError::OutOfMemory,
{
    let ghost base = allocator.allocated();
    let ghost old_free = allocator.free_list();
    let mut allocator = allocator;
    let first = match Queue::<T, B>::new_buffer(&mut allocator) {
        Ok(b) => b,
        Err(e) => {
            return Err(e);
        },
    };
    let mut segments: Vec<Buffer<T>> = Vec::new();
    segments.push(first);
    let ghost first_block = old_free[0];
    let ghost blocks = seq![first_block];
    let q = Queue { allocator, segments, blocks: Ghost(blocks), base: Ghost(base) };
    proof {
        assert(q.allocator.allocated().contains(first_block));
        assert(old_free.contains(first_block));
        assert(q.allocator.allocated() =~= q.base@ + q.blocks@.to_set()) by {
            assert forall|x: usize| seq![first_block].to_set().contains(x) <==> x == first_block by {
                if x == first_block {
                    assert(seq![first_block][0] == x);
                }
            }
            assert(seq![first_block].to_set() =~= set![first_block]);
        }
        assert(q.segments@.drop_first() =~= Seq::<Buffer<T>>::empty());
        assert(chain_items(q.segments@.drop_first()) == Seq::<T>::empty());
        assert(buffer_items(q.segments@[0]) =~= Seq::<T>::empty());
        assert(q.items() =~= Seq::<T>::empty());
    }
    Ok(q)
}

/// Items keep their order per producer. Each enqueue appends at the back of the queue's items
/// and each dequeue takes the front one, so after `added` is enqueued behind `before`, the
/// items of any one producer (those `mine` selects) are its earlier ones followed by its new
/// ones in the order they went in, and they are dequeued in that order.
pub proof fn lemma_fifo_per_producer<T>(before: Seq<T>, added: Seq<T>, mine: spec_fn(T) -> bool)
    ensures
        (before + added).filter(mine) == before.filter(mine) + added.filter(mine),
{
    Seq::filter_distributes_over_add(before, added, mine);
}

impl<T, const B: usize> QueueTx<T> for Queue<T, B> {
    type SendError = EnqueueError;

    open spec fn tx_ready(&self) -> bool {
        self.wf()
    }

    fn try_enqueue(&mut self, data: T) -> (r: Result<(), (T, EnqueueError)>) {
        Queue::try_enqueue(self, data)
    }
}

impl<T, const B: usize> QueueRx<T> for Queue<T, B> {
    type ReceiveError = DequeueError;

    open spec fn rx_ready(&self) -> bool {
        self.wf()
    }

    fn try_dequeue(&mut self) -> (r: Result<T, DequeueError>) {
        Queue::try_dequeue(self)
    }
}

} // verus!
