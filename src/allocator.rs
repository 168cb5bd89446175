//! A fixed-block allocator over an arena: the arena `[start, end)` is cut into blocks of `N`
//! bytes, and the free blocks form a singly linked list through their next fields, whose head
//! is handed out first and to which freed blocks are pushed.

use vstd::prelude::*;
use vstd::seq_lib::*;
use vstd::set_lib::{lemma_int_range, lemma_len_subset, set_int_range};

verus! {

/// The block sizes the allocator is built for.
pub open spec fn is_block_size(n: usize) -> bool {
    n == 64 || n == 128 || n == 256 || n == 512 || n == 1024
}

#[derive(Debug, PartialEq, Eq, Structural, Clone, Copy)]
pub enum AllocError {
    /// The request is larger, or more strictly aligned, than one block
    TooLarge,
    /// No block is free
    Exhausted,
    /// The address is not the start of a block of the arena
    InvalidPointer,
    /// The block is already free
    DoubleFree,
}

pub struct LinkedListAllocator<const N: usize> {
    start: usize,
    head: Option<usize>,
    next: Vec<Option<usize>>,
    is_free: Vec<bool>,
    free: Ghost<Seq<usize>>,
}

impl<const N: usize> LinkedListAllocator<N> {
    /// The free blocks, by index, in the order they will be handed out.
    pub closed spec fn free_list(&self) -> Seq<usize> {
        self.free@
    }

    /// The number of blocks of the arena.
    pub closed spec fn blocks(&self) -> nat {
        self.next@.len()
    }

    /// The first address of the arena.
    pub closed spec fn spec_start(&self) -> nat {
        self.start as nat
    }

    /// The blocks handed out and not given back.
    pub open spec fn allocated(&self) -> Set<usize> {
        Set::new(|i: usize| i < self.blocks() && !self.free_list().contains(i))
    }

    /// The address of block `i`.
    pub open spec fn address(&self, i: nat) -> nat {
        self.spec_start() + i * (N as nat)
    }

    pub closed spec fn wf(&self) -> bool {
        &&& is_block_size(N)
        &&& self.is_free@.len() == self.next@.len()
        &&& self.start + self.next@.len() * N <= usize::MAX
        &&& self.free@.no_duplicates()
        &&& forall|k: int| 0 <= k < self.free@.len() ==> #[trigger] self.free@[k] < self.next@.len()
        &&& forall|i: int|
            0 <= i < self.next@.len() ==> #[trigger] self.is_free@[i] == self.free@.contains(
                i as usize,
            )
        &&& self.head == if self.free@.len() == 0 {
            None
        } else {
            Some(self.free@[0])
        }
        &&& forall|k: int|
            0 <= k < self.free@.len() ==> #[trigger] self.next@[self.free@[k] as int] == if k + 1
                < self.free@.len() {
                Some(self.free@[k + 1])
            } else {
                None
            }
    }

    /// A well-formed allocator has one of the block sizes it is built for.
    pub proof fn lemma_block_size(&self)
        requires
            self.wf(),
        ensures
            is_block_size(N),
    {
    }

    /// Every block's address fits a `usize`.
    pub proof fn lemma_address_fits(&self, i: nat)
        requires
            self.wf(),
            i < self.blocks(),
        ensures
            self.address(i) <= usize::MAX,
    {
        assert(i * N <= self.blocks() * N) by (nonlinear_arith)
            requires
                i < self.blocks(),
        ;
    }

    /// Distinct blocks have distinct addresses.
    pub proof fn lemma_address_injective(&self, i: nat, j: nat)
        requires
            self.wf(),
        ensures
            self.address(i) == self.address(j) ==> i == j,
    {
        if self.address(i) == self.address(j) {
            assert(i == j) by (nonlinear_arith)
                requires
                    i * (N as nat) == j * (N as nat),
                    N > 0,
            ;
        }
    }

    /// An allocator over `[start, end)`: as many whole blocks as fit, all free, handed out from
    /// the lowest address up.
    pub fn new(start: usize, end: usize) -> (r: LinkedListAllocator<N>)
        requires
            is_block_size(N),
            start <= end,
        ensures
            r.wf(),
            r.spec_start() == start,
            r.blocks() == (end - start) as nat / N as nat,
            r.free_list() == Seq::new(r.blocks(), |i: int| i as usize),
    {
        let count = (end - start) / N;
        assert(count as int * N as int <= end as int - start as int) by (nonlinear_arith)
            requires
                count as int == (end as int - start as int) / N as int,
                end >= start,
                N > 0,
        ;
        let mut next: Vec<Option<usize>> = Vec::with_capacity(count);
        let mut is_free: Vec<bool> = Vec::with_capacity(count);
        let mut i: usize = 0;
        while i < count
            invariant
                i <= count,
                next@.len() == i,
                is_free@.len() == i,
                forall|j: int| 0 <= j < i ==> #[trigger] next@[j] == if j + 1 < count {
                    Some((j + 1) as usize)
                } else {
                    None
                },
                forall|j: int| 0 <= j < i ==> #[trigger] is_free@[j],
            decreases count - i,
        {
            next.push(if i + 1 < count {
                Some(i + 1)
            } else {
                None
            });
            is_free.push(true);
            i = i + 1;
        }
        let ghost free = Seq::new(count as nat, |k: int| k as usize);
        let r = LinkedListAllocator {
            start,
            head: if count == 0 {
                None
            } else {
                Some(0)
            },
            next,
            is_free,
            free: Ghost(free),
        };
        assert(free.no_duplicates());
        assert forall|j: int| 0 <= j < count implies #[trigger] r.is_free@[j] == free.contains(
            j as usize,
        ) by {
            assert(free[j] == j as usize);
        }
        r
    }

    /// Hands out the head block, by address, for a request of `size` bytes aligned to `align`.
    pub fn allocate(&mut self, size: usize, align: usize) -> (r: Result<usize, AllocError>)
        requires
            old(self).wf(),
        ensures
            final(self).wf(),
            final(self).blocks() == old(self).blocks(),
            final(self).spec_start() == old(self).spec_start(),
            size > N || align > N ==> r == Err::<usize, AllocError>(AllocError::TooLarge),
            size <= N && align <= N && old(self).free_list().len() == 0 ==> r == Err::<
                usize,
                AllocError,
            >(AllocError::Exhausted),
            r is Err ==> final(self).free_list() == old(self).free_list(),
            size <= N && align <= N && old(self).free_list().len() > 0 ==> {
                let b = old(self).free_list()[0];
                &&& r == Ok::<usize, AllocError>(old(self).address(b as nat) as usize)
                &&& final(self).free_list() == old(self).free_list().drop_first()
                &&& final(self).allocated() == old(self).allocated().insert(b)
            },
    {
        if size > N || align > N {
            return Err(AllocError::TooLarge);
        }
        match self.head {
            None => Err(AllocError::Exhausted),
            Some(b) => {
                let ghost old_free = self.free@;
                assert(old_free[0] == b);
                assert(self.start as int + self.next@.len() as int * N as int <= usize::MAX);
                let follow = self.next[b];
                self.head = follow;
                self.is_free.set(b, false);
                self.free = Ghost(self.free@.drop_first());
                let nlen = self.next.len();
                proof {
                    assert forall|k: int| 0 <= k < self.free@.len() implies #[trigger] self.next@[self.free@[k] as int]
                        == if k + 1 < self.free@.len() {
                        Some(self.free@[k + 1])
                    } else {
                        None
                    } by {
                        assert(self.free@[k] == old_free[k + 1]);
                    }
                    assert forall|i: int| 0 <= i < self.next@.len() implies #[trigger] self.is_free@[i]
                        == self.free@.contains(i as usize) by {
                        if i == b {
                            assert(!self.free@.contains(b)) by {
                                if self.free@.contains(b) {
                                    let k = choose|k: int| 0 <= k < self.free@.len() && self.free@[k] == b;
                                    assert(old_free[k + 1] == old_free[0]);
                                }
                            }
                        } else {
                            if old_free.contains(i as usize) {
                                let k = choose|k: int| 0 <= k < old_free.len() && old_free[k] == i as usize;
                                assert(i as usize as int == i);
                                assert(k != 0);
                                assert(self.free@[k - 1] == i as usize);
                            }
                            if self.free@.contains(i as usize) {
                                let k = choose|k: int| 0 <= k < self.free@.len() && self.free@[k] == i as usize;
                                assert(old_free[k + 1] == i as usize);
                            }
                        }
                    }
                    assert(self.allocated() =~= old(self).allocated().insert(b)) by {
                        assert(old_free.contains(b));
                        assert forall|i: usize| #[trigger] self.allocated().contains(i) <==> old(self).allocated().insert(b).contains(i) by {
                            if i < self.next@.len() {
                                assert(self.is_free@[i as int] == self.free@.contains(i));
                                assert(old(self).is_free@[i as int] == old_free.contains(i));
                            }
                        }
                    }
                }
                assert(b < self.next@.len());
                assert(b as int * N as int <= self.next@.len() as int * N as int) by (nonlinear_arith)
                    requires
                        b < self.next@.len(),
                ;
                let addr = self.start + b * N;
                Ok(addr)
            },
        }
    }

    /// Takes back the block at address `ptr`, which becomes the head of the free list.
    pub fn deallocate(&mut self, ptr: usize, size: usize) -> (r: Result<(), AllocError>)
        requires
            old(self).wf(),
        ensures
            final(self).wf(),
            final(self).blocks() == old(self).blocks(),
            final(self).spec_start() == old(self).spec_start(),
            size > N ==> r == Err::<(), AllocError>(AllocError::TooLarge),
            r is Err ==> final(self).free_list() == old(self).free_list(),
            size <= N ==> (r is Ok <==> exists|b: usize|
                #[trigger] old(self).allocated().contains(b) && old(self).address(b as nat) == ptr),
            r is Ok ==> exists|b: usize|
                #[trigger] old(self).allocated().contains(b) && old(self).address(b as nat) == ptr
                    && final(self).free_list() == seq![b] + old(self).free_list()
                    && final(self).allocated() == old(self).allocated().remove(b),
    {
        if size > N {
            return Err(AllocError::TooLarge);
        }
        if ptr < self.start || (ptr - self.start) % N != 0 || (ptr - self.start) / N >= self.next.len() {
            proof {
                assert forall|b: usize| #[trigger] old(self).allocated().contains(b) implies old(self).address(b as nat) != ptr by {
                    if old(self).address(b as nat) == ptr {
                        assert((b as int * N as int) % N as int == 0 && (b as int * N as int) / N as int == b as int) by (nonlinear_arith)
                            requires
                                N > 0,
                        ;
                    }
                }
            }
            return Err(AllocError::InvalidPointer);
        }
        let b = (ptr - self.start) / N;
        assert(self.start as int + b as int * N as int == ptr as int) by (nonlinear_arith)
            requires
                b as int == (ptr as int - self.start as int) / N as int,
                (ptr as int - self.start as int) % N as int == 0,
                ptr >= self.start,
                N > 0,
        ;
        if self.is_free[b] {
            proof {
                assert forall|c: usize| #[trigger] old(self).allocated().contains(c) implies old(self).address(c as nat) != ptr by {
                    if old(self).address(c as nat) == ptr {
                        assert(c == b) by (nonlinear_arith)
                            requires
                                self.start as int + c as int * N as int == self.start as int + b as int * N as int,
                                N > 0,
                        ;
                    }
                }
            }
            return Err(AllocError::DoubleFree);
        }
        let ghost old_free = self.free@;
        self.next.set(b, self.head);
        self.head = Some(b);
        self.is_free.set(b, true);
        self.free = Ghost(seq![b] + self.free@);
        proof {
            assert(!old_free.contains(b));
            assert(old(self).allocated().contains(b));
            assert forall|k: int| 0 <= k < self.free@.len() implies #[trigger] self.next@[self.free@[k] as int]
                == if k + 1 < self.free@.len() {
                Some(self.free@[k + 1])
            } else {
                None
            } by {
                if k > 0 {
                    assert(self.free@[k] == old_free[k - 1]);
                    assert(old_free[k - 1] != b);
                }
            }
            assert forall|i: int| 0 <= i < self.next@.len() implies #[trigger] self.is_free@[i]
                == self.free@.contains(i as usize) by {
                if i != b {
                    if old_free.contains(i as usize) {
                        let k = choose|k: int| 0 <= k < old_free.len() && old_free[k] == i as usize;
                        assert(self.free@[k + 1] == i as usize);
                    }
                    if self.free@.contains(i as usize) {
                        let k = choose|k: int| 0 <= k < self.free@.len() && self.free@[k] == i as usize;
                        assert(k != 0);
                        assert(old_free[k - 1] == i as usize);
                    }
                } else {
                    assert(self.free@[0] == b);
                }
            }
            assert(self.free@.no_duplicates()) by {
                assert forall|j: int, k: int| 0 <= j < self.free@.len() && 0 <= k < self.free@.len() && j != k
                    implies self.free@[j] != self.free@[k] by {
                    if j > 0 && k > 0 {
                        assert(old_free[j - 1] != old_free[k - 1]);
                    } else if j == 0 {
                        assert(old_free[k - 1] != b);
                    } else {
                        assert(old_free[j - 1] != b);
                    }
                }
            }
            assert(self.allocated() =~= old(self).allocated().remove(b)) by {
                assert forall|i: usize| #[trigger] self.allocated().contains(i) <==> old(self).allocated().remove(b).contains(i) by {
                    if i < self.next@.len() {
                        assert(self.is_free@[i as int] == self.free@.contains(i));
                        assert(old(self).is_free@[i as int] == old_free.contains(i));
                    }
                }
            }
        }
        Ok(())
    }

    /// The number of free blocks.
    pub fn free_len(&self) -> (r: usize)
        requires
            self.wf(),
        ensures
            r == self.free_list().len(),
    {
        proof {
            lemma_distinct_bounded_len(self.free@, self.next@.len());
        }
        let mut n: usize = 0;
        let mut cur = self.head;
        let ghost mut k: int = 0;
        while cur.is_some()
            invariant
                self.wf(),
                self.free@.len() <= self.next@.len(),
                0 <= k <= self.free@.len(),
                n == k,
                cur == if k < self.free@.len() {
                    Some(self.free@[k])
                } else {
                    None::<usize>
                },
            decreases self.free@.len() - k,
        {
            let b = cur.unwrap();
            cur = self.next[b];
            n = n + 1;
            proof {
                k = k + 1;
            }
        }
        n
    }
}

/// A sequence of distinct indices below `n` has at most `n` elements.
proof fn lemma_distinct_bounded_len(s: Seq<usize>, n: nat)
    requires
        s.no_duplicates(),
        forall|k: int| 0 <= k < s.len() ==> #[trigger] s[k] < n,
    ensures
        s.len() <= n,
{
    let t = s.map_values(|x: usize| x as int);
    assert(t.no_duplicates()) by {
        assert forall|j: int, k: int| 0 <= j < t.len() && 0 <= k < t.len() && j != k implies t[j] != t[k] by {
            assert(s[j] != s[k]);
        }
    }
    t.unique_seq_to_set();
    lemma_int_range(0, n as int);
    assert(t.to_set().subset_of(set_int_range(0, n as int))) by {
        assert forall|x: int| t.to_set().contains(x) implies set_int_range(0, n as int).contains(x) by {
            let k = choose|k: int| 0 <= k < t.len() && t[k] == x;
            assert(s[k] < n);
        }
    }
    lemma_len_subset(t.to_set(), set_int_range(0, n as int));
}

/// Two allocators over the same arena with the same blocks handed out have free lists of the
/// same length: however allocations and deallocations interleave, once every block handed out
/// is given back, the free list is as long as it was.
pub proof fn lemma_free_length_conserved<const N: usize>(a: &LinkedListAllocator<N>, b: &LinkedListAllocator<N>)
    requires
        a.wf(),
        b.wf(),
        a.blocks() == b.blocks(),
        a.allocated() == b.allocated(),
    ensures
        a.free_list().len() == b.free_list().len(),
{
    let n = a.blocks();
    assert(a.free_list().to_set() =~= b.free_list().to_set()) by {
        assert forall|i: usize| a.free_list().to_set().contains(i) <==> b.free_list().to_set().contains(i) by {
            if a.free_list().contains(i) {
                assert(!a.allocated().contains(i));
                assert(!b.allocated().contains(i));
            }
            if b.free_list().contains(i) {
                assert(!b.allocated().contains(i));
                assert(!a.allocated().contains(i));
            }
        }
    }
    a.free_list().unique_seq_to_set();
    b.free_list().unique_seq_to_set();
}

} // verus!
