//! A small pool of buffers that are used again.
use vstd::prelude::*;

verus! {

/// The most buffers that a pool keeps.
pub const POOL_LIMIT: usize = 8;

/// Buffers that wait to be used again, each with the size that it serves. The
/// pool is a stack: the one released last is used next, if it serves.
pub struct BufferPool<T> {
    items: Vec<(usize, T)>,
}

impl<T> View for BufferPool<T> {
    type V = Seq<(usize, T)>;

    /// The buffers, each with its size, in the order of their release.
    closed spec fn view(&self) -> Seq<(usize, T)> {
        self.items@
    }
}

/// The last of the first `n` buffers that serves a request of the given size,
/// or -1 if none does.
pub open spec fn last_fit<T>(items: Seq<(usize, T)>, capacity: usize, n: nat) -> int
    decreases n,
{
    if n == 0 {
        -1
    } else if items[n - 1].0 >= capacity {
        n - 1
    } else {
        last_fit(items, capacity, (n - 1) as nat)
    }
}

impl<T> BufferPool<T> {
    pub closed spec fn wf(&self) -> bool {
        self.items@.len() <= POOL_LIMIT
    }

    pub fn new() -> (r: Self)
        ensures
            r.wf(),
            r@ == Seq::<(usize, T)>::empty(),
    {
        BufferPool { items: Vec::new() }
    }

    /// Takes the buffer that was released last among those that serve the size,
    /// if there is one.
    pub fn acquire(&mut self, capacity: usize) -> (r: Option<(usize, T)>)
        requires
            old(self).wf(),
        ensures
            final(self).wf(),
            ({
                let i = last_fit(old(self)@, capacity, old(self)@.len());
                if i >= 0 {
                    r == Some(old(self)@[i]) && final(self)@ == old(self)@.remove(i)
                } else {
                    r is None && final(self)@ == old(self)@
                }
            }),
    {
        let mut n: usize = self.items.len();
        let ghost start = self@;
        while n > 0 && self.items[n - 1].0 < capacity
            invariant
                n <= self.items@.len(),
                self@ == start,
                self.wf(),
                last_fit(start, capacity, n as nat) == last_fit(start, capacity, start.len()),
            decreases n,
        {
            n = n - 1;
        }
        if n > 0 {
            Some(self.items.remove(n - 1))
        } else {
            None
        }
    }

    /// Puts a buffer back, unless the pool is full.
    pub fn release(&mut self, capacity: usize, item: T)
        requires
            old(self).wf(),
        ensures
            final(self).wf(),
            final(self)@ == (if old(self)@.len() < POOL_LIMIT {
                old(self)@.push((capacity, item))
            } else {
                old(self)@
            }),
    {
        if self.items.len() < POOL_LIMIT {
            self.items.push((capacity, item));
        }
    }
}

proof fn lemma_last_fit<T>(items: Seq<(usize, T)>, capacity: usize, n: nat)
    requires
        n <= items.len(),
    ensures
        -1 <= last_fit(items, capacity, n) < n,
        last_fit(items, capacity, n) >= 0 ==> items[last_fit(items, capacity, n)].0 >= capacity,
        forall|j: int|
            last_fit(items, capacity, n) < j < n ==> (#[trigger] items[j]).0 < capacity,
    decreases n,
{
    if n > 0 && items[n - 1].0 < capacity {
        lemma_last_fit(items, capacity, (n - 1) as nat);
    }
}

/// What a pool hands out serves the request, and nothing released later does.
/// It hands something out whenever one of its buffers serves.
pub proof fn law_acquired_buffer_fits<T>(items: Seq<(usize, T)>, capacity: usize)
    ensures
        ({
            let i = last_fit(items, capacity, items.len());
            &&& -1 <= i < items.len()
            &&& i >= 0 ==> items[i].0 >= capacity
            &&& forall|j: int| i < j < items.len() ==> (#[trigger] items[j]).0 < capacity
        }),
{
    lemma_last_fit(items, capacity, items.len());
}

/// A buffer that was put back into a pool with room is the next to be handed
/// out, and leaves the pool as it was.
pub proof fn law_released_buffer_is_used_next<T>(
    items: Seq<(usize, T)>,
    size: usize,
    item: T,
    capacity: usize,
)
    requires
        capacity <= size,
    ensures
        ({
            let more = items.push((size, item));
            let i = last_fit(more, capacity, more.len());
            more[i] == (size, item) && more.remove(i) == items
        }),
{
    let more = items.push((size, item));
    assert(more.remove(items.len() as int) =~= items);
}

/// A pool never keeps more than eight buffers.
pub proof fn law_pool_keeps_its_limit<T>(pool: BufferPool<T>)
    requires
        pool.wf(),
    ensures
        pool@.len() <= 8,
{
}

} // verus!
