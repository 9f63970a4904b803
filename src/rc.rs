//! Shared ownership of one value by many handles.
//!
//! Blocks live in an arena (`RcHeap`). A block holds a value and a count of
//! the handles that refer to it; a handle (`Rc`) is the index of its block.
//! Cloning a handle raises the count, destroying one lowers it, and the handle
//! that takes the count from one to zero frees the block, which drops the value.
//! A handle is not `Copy` or `Clone`: it can only be duplicated through
//! `Rc::clone` and destroyed once, by `Rc::drop`, which takes it by value.
use std::marker::PhantomData;
use vstd::prelude::*;

verus! {

/// The state of one block of the arena.
pub enum Block<T> {
    /// Allocated: the value and the number of handles that refer to it.
    Live { value: T, count: usize },
    /// Released: the value has been dropped. No operation leaves this state.
    Freed,
}

/// True when block `i` of state `s` is allocated and referred to.
pub open spec fn is_live<T>(s: Seq<Block<T>>, i: int) -> bool {
    &&& 0 <= i < s.len()
    &&& s[i] is Live
    &&& s[i]->count >= 1
}

/// The value that block `i` holds.
pub open spec fn value_of<T>(s: Seq<Block<T>>, i: int) -> T {
    s[i]->value
}

/// The number of handles that refer to block `i`.
pub open spec fn count_of<T>(s: Seq<Block<T>>, i: int) -> int {
    s[i]->count as int
}

/// The state after a new block holding `v` is allocated, with one handle.
pub open spec fn allocate<T>(s: Seq<Block<T>>, v: T) -> Seq<Block<T>> {
    s.push(Block::Live { value: v, count: 1 })
}

/// The state after one more handle to block `i` is made.
pub open spec fn retain<T>(s: Seq<Block<T>>, i: int) -> Seq<Block<T>> {
    s.update(i, Block::Live { value: value_of(s, i), count: (count_of(s, i) + 1) as usize })
}

/// The state after one handle to block `i` is destroyed: the last one frees it.
pub open spec fn release<T>(s: Seq<Block<T>>, i: int) -> Seq<Block<T>> {
    if count_of(s, i) == 1 {
        s.update(i, Block::Freed)
    } else {
        s.update(i, Block::Live { value: value_of(s, i), count: (count_of(s, i) - 1) as usize })
    }
}

/// The state after `n` clones of a handle to block `i`.
pub open spec fn retain_times<T>(s: Seq<Block<T>>, i: int, n: nat) -> Seq<Block<T>>
    decreases n,
{
    if n == 0 {
        s
    } else {
        retain(retain_times(s, i, (n - 1) as nat), i)
    }
}

/// The state after `n` handles to block `i` are destroyed.
pub open spec fn release_times<T>(s: Seq<Block<T>>, i: int, n: nat) -> Seq<Block<T>>
    decreases n,
{
    if n == 0 {
        s
    } else {
        release(release_times(s, i, (n - 1) as nat), i)
    }
}

/// The arena that holds every block. Dropping it releases no value: a block
/// whose handles were abandoned stays leaked.
pub struct RcHeap<T> {
    blocks: Vec<Block<T>>,
    id: Ghost<int>,
}

impl<T> View for RcHeap<T> {
    type V = Seq<Block<T>>;

    closed spec fn view(&self) -> Seq<Block<T>> {
        self.blocks@
    }
}

impl<T> RcHeap<T> {
    /// The identity of this arena, which its handles record.
    pub closed spec fn id(&self) -> int {
        self.id@
    }

    /// An arena with no blocks.
    pub fn new() -> (r: Self)
        ensures
            r@ == Seq::<Block<T>>::empty(),
    {
        RcHeap { blocks: Vec::new(), id: Ghost(arbitrary()) }
    }
}

/// Relies on std::mem::forget: the blocks are given up without being dropped
/// (std::mem::take moves them out and leaves an empty vector behind).
#[verifier::external_body]
fn forget_blocks<T>(blocks: &mut Vec<Block<T>>)
    ensures
        final(blocks)@ == Seq::<Block<T>>::empty(),
    opens_invariants none
    no_unwind
{
    std::mem::forget(std::mem::take(blocks))
}

impl<T> Drop for RcHeap<T> {
    /// Blocks still allocated when the arena goes are leaked, not torn down:
    /// only the destruction of a block's last handle drops its value.
    fn drop(&mut self)
        opens_invariants none
        no_unwind
    {
        forget_blocks(&mut self.blocks);
    }
}

/// A handle to one block of an arena.
pub struct Rc<T> {
    block: usize,
    heap: Ghost<int>,
    marker: PhantomData<T>,
}

impl<T> Rc<T> {
    /// The index of the block this handle refers to.
    pub closed spec fn block(&self) -> int {
        self.block as int
    }

    /// The identity of the arena this handle belongs to.
    pub closed spec fn heap_id(&self) -> int {
        self.heap@
    }

    /// Allocates a block holding `v` with a count of one, and returns its handle.
    pub fn new(heap: &mut RcHeap<T>, v: T) -> (r: Self)
        ensures
            final(heap)@ == allocate(old(heap)@, v),
            final(heap).id() == old(heap).id(),
            r.block() == old(heap)@.len(),
            r.heap_id() == old(heap).id(),
    {
        let i: usize = heap.blocks.len();
        heap.blocks.push(Block::Live { value: v, count: 1 });
        Rc { block: i, heap: Ghost(heap.id@), marker: PhantomData }
    }

    /// The value of this handle's block, shared.
    pub fn deref<'a>(&self, heap: &'a RcHeap<T>) -> (r: &'a T)
        requires
            self.heap_id() == heap.id(),
            is_live(heap@, self.block()),
        ensures
            *r == value_of(heap@, self.block()),
    {
        match &heap.blocks[self.block] {
            Block::Live { value, .. } => value,
            Block::Freed => unreached(),
        }
    }

    /// A new handle to the same block; the block's count goes up by one.
    pub fn clone(&self, heap: &mut RcHeap<T>) -> (r: Self)
        requires
            self.heap_id() == old(heap).id(),
            is_live(old(heap)@, self.block()),
            count_of(old(heap)@, self.block()) < usize::MAX,
        ensures
            final(heap)@ == retain(old(heap)@, self.block()),
            final(heap).id() == old(heap).id(),
            r.block() == self.block(),
            r.heap_id() == self.heap_id(),
    {
        match &mut heap.blocks[self.block] {
            Block::Live { count, .. } => {
                *count = *count + 1;
            },
            Block::Freed => {},
        }
        Rc { block: self.block, heap: self.heap, marker: PhantomData }
    }

    /// Destroys this handle. The last handle of a block frees it, which drops
    /// the value; any other lowers the block's count by one.
    pub fn drop(self, heap: &mut RcHeap<T>)
        requires
            self.heap_id() == old(heap).id(),
            is_live(old(heap)@, self.block()),
        ensures
            final(heap)@ == release(old(heap)@, self.block()),
            final(heap).id() == old(heap).id(),
    {
        let i: usize = self.block;
        let c: usize = match &heap.blocks[i] {
            Block::Live { count, .. } => *count,
            Block::Freed => 0,
        };
        if c == 1 {
            heap.blocks[i] = Block::Freed;
        } else {
            match &mut heap.blocks[i] {
                Block::Live { count, .. } => {
                    *count = *count - 1;
                },
                Block::Freed => {},
            }
        }
    }

    /// Exclusive access to the value, granted exactly when this handle is the
    /// only one that refers to its block.
    pub fn get_mut<'a>(this: &Self, heap: &'a mut RcHeap<T>) -> (r: Option<&'a mut T>)
        requires
            this.heap_id() == old(heap).id(),
            is_live(old(heap)@, this.block()),
        ensures
            final(heap).id() == old(heap).id(),
            r is Some <==> count_of(old(heap)@, this.block()) == 1,
            r is Some ==> *r->0 == value_of(old(heap)@, this.block()) && final(heap)@ == old(
                heap,
            )@.update(this.block(), Block::Live { value: *final(r->0), count: 1 }),
            r is None ==> final(heap)@ == old(heap)@,
    {
        let i: usize = this.block;
        let c: usize = match &heap.blocks[i] {
            Block::Live { count, .. } => *count,
            Block::Freed => 0,
        };
        if c == 1 {
            match &mut heap.blocks[i] {
                Block::Live { value, .. } => Some(value),
                Block::Freed => None,
            }
        } else {
            None
        }
    }
}

/// Dereferencing the handle of a newly allocated block gives back the value it
/// was made with.
pub proof fn lemma_deref_after_new<T>(s: Seq<Block<T>>, v: T)
    ensures
        is_live(allocate(s, v), s.len() as int),
        value_of(allocate(s, v), s.len() as int) == v,
        count_of(allocate(s, v), s.len() as int) == 1,
{
}

/// A clone refers to the same block as the handle it was made from, and that
/// block still holds the same value: the value is shared, not copied.
pub proof fn lemma_clone_shares_block<T>(s: Seq<Block<T>>, i: int)
    requires
        is_live(s, i),
        count_of(s, i) < usize::MAX,
    ensures
        is_live(retain(s, i), i),
        value_of(retain(s, i), i) == value_of(s, i),
        count_of(retain(s, i), i) == count_of(s, i) + 1,
        forall|j: int| 0 <= j < s.len() && j != i ==> #[trigger] retain(s, i)[j] == s[j],
        retain(s, i).len() == s.len(),
{
}

/// A clone aliases its source: `c`, made by cloning `h` (the arena going from
/// `before` to `after`), belongs to the same arena and refers to the same block,
/// which keeps its value; no value is copied and no block is allocated. Right
/// after the clone neither handle has exclusive access, for the count of their
/// block is at least two.
pub proof fn lemma_clone_is_alias<T>(
    h: &Rc<T>,
    c: &Rc<T>,
    before: Seq<Block<T>>,
    after: Seq<Block<T>>,
)
    requires
        is_live(before, h.block()),
        count_of(before, h.block()) < usize::MAX,
        after == retain(before, h.block()),
        c.block() == h.block(),
        c.heap_id() == h.heap_id(),
    ensures
        c.block() == h.block(),
        c.heap_id() == h.heap_id(),
        after.len() == before.len(),
        is_live(after, c.block()),
        value_of(after, c.block()) == value_of(before, h.block()),
        count_of(after, h.block()) != 1,
        count_of(after, c.block()) != 1,
{
}

/// Making `n` clones of a handle raises its block's count by `n` and leaves
/// the value in place.
pub proof fn lemma_retain_times<T>(s: Seq<Block<T>>, i: int, n: nat)
    requires
        is_live(s, i),
        count_of(s, i) + n <= usize::MAX,
    ensures
        is_live(retain_times(s, i, n), i),
        count_of(retain_times(s, i, n), i) == count_of(s, i) + n,
        value_of(retain_times(s, i, n), i) == value_of(s, i),
        retain_times(s, i, n).len() == s.len(),
    decreases n,
{
    if n > 0 {
        lemma_retain_times(s, i, (n - 1) as nat);
    }
}

/// Destroying `k` handles of a block whose count is above `k` leaves it
/// allocated, with the same value and a count lowered by `k`.
pub proof fn lemma_release_times<T>(s: Seq<Block<T>>, i: int, k: nat)
    requires
        is_live(s, i),
        k < count_of(s, i),
    ensures
        is_live(release_times(s, i, k), i),
        count_of(release_times(s, i, k), i) == count_of(s, i) - k,
        value_of(release_times(s, i, k), i) == value_of(s, i),
        release_times(s, i, k).len() == s.len(),
    decreases k,
{
    if k > 0 {
        lemma_release_times(s, i, (k - 1) as nat);
    }
}

/// A value is torn down exactly once: take a new block (count one), clone its
/// handle `n` times, and destroy the `n + 1` handles, in any order since they
/// are alike. While any handle is left the block stays allocated with its
/// value; the last destruction, and only it, frees the block.
pub proof fn lemma_teardown_once<T>(s: Seq<Block<T>>, i: int, n: nat)
    requires
        is_live(s, i),
        count_of(s, i) == 1,
        n < usize::MAX,
    ensures
        forall|k: nat|
            k <= n ==> is_live(#[trigger] release_times(retain_times(s, i, n), i, k), i)
                && value_of(release_times(retain_times(s, i, n), i, k), i) == value_of(s, i),
        release_times(retain_times(s, i, n), i, n + 1)[i] is Freed,
{
    let t = retain_times(s, i, n);
    lemma_retain_times(s, i, n);
    assert forall|k: nat| k <= n implies is_live(#[trigger] release_times(t, i, k), i)
        && value_of(release_times(t, i, k), i) == value_of(s, i) by {
        lemma_release_times(t, i, k);
    }
    lemma_release_times(t, i, n);
}

/// Only destroying a handle can free a block: allocating, cloning or
/// destroying a handle of another block leaves an allocated block allocated,
/// with its value. Every operation of a handle requires that it belongs to the
/// arena it is given, so within an arena a handle that is abandoned without
/// being destroyed never has its value torn down.
pub proof fn lemma_teardown_needs_release<T>(s: Seq<Block<T>>, i: int, j: int, v: T)
    requires
        is_live(s, j),
        i != j,
    ensures
        is_live(allocate(s, v), j) && value_of(allocate(s, v), j) == value_of(s, j),
        count_of(s, j) < usize::MAX ==> is_live(retain(s, j), j) && value_of(retain(s, j), j)
            == value_of(s, j),
        is_live(s, i) ==> is_live(retain(s, i), j) && value_of(retain(s, i), j) == value_of(s, j),
        is_live(s, i) ==> is_live(release(s, i), j) && value_of(release(s, i), j) == value_of(s, j),
{
}

} // verus!
