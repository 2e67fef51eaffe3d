//! Batching items for a channel: items accumulate in a buffer of a fixed
//! capacity, and a full buffer is handed back as one batch for the caller to
//! send. Concatenating the emitted batches, in order, with the final flush,
//! yields exactly the pushed items.

use vstd::prelude::*;

verus! {

/// A buffer of at most `cap - 1` pending items (the `cap`-th push emits).
pub struct Batcher<T> {
    buf: Vec<T>,
    cap: usize,
}

impl<T> Batcher<T> {
    /// The items pushed but not yet emitted, in push order.
    pub closed spec fn buffered(&self) -> Seq<T> {
        self.buf@
    }

    /// The batch size.
    pub closed spec fn capacity(&self) -> usize {
        self.cap
    }

    /// The buffer never reaches its capacity between calls.
    pub open spec fn wf(&self) -> bool {
        self.buffered().len() < self.capacity()
    }

    /// An empty batcher that emits every `cap` items.
    pub fn with_capacity(cap: usize) -> (r: Batcher<T>)
        requires
            cap >= 1,
        ensures
            r.buffered() == Seq::<T>::empty(),
            r.capacity() == cap,
            r.wf(),
    {
        Batcher { buf: Vec::new(), cap }
    }

    /// Buffers one item; the filled batch comes back when this item
    /// completes it.
    pub fn push(&mut self, item: T) -> (batch: Option<Vec<T>>)
        requires
            old(self).wf(),
        ensures
            final(self).wf(),
            final(self).capacity() == old(self).capacity(),
            old(self).buffered().len() + 1 == old(self).capacity() ==> (batch matches Some(b)
                && b@ == old(self).buffered().push(item) && final(self).buffered() == Seq::<
                T,
            >::empty()),
            old(self).buffered().len() + 1 < old(self).capacity() ==> batch is None
                && final(self).buffered() == old(self).buffered().push(item),
    {
        self.buf.push(item);
        if self.buf.len() == self.cap {
            let mut out: Vec<T> = Vec::new();
            core::mem::swap(&mut self.buf, &mut out);
            Some(out)
        } else {
            None
        }
    }

    /// Hands back the pending items at shutdown, if any.
    pub fn flush(&mut self) -> (batch: Option<Vec<T>>)
        ensures
            final(self).capacity() == old(self).capacity(),
            final(self).buffered() == Seq::<T>::empty(),
            old(self).wf() ==> final(self).wf(),
            old(self).buffered().len() > 0 ==> (batch matches Some(b)
                && b@ == old(self).buffered()),
            old(self).buffered().len() == 0 ==> batch is None,
    {
        if self.buf.len() > 0 {
            let mut out: Vec<T> = Vec::new();
            core::mem::swap(&mut self.buf, &mut out);
            Some(out)
        } else {
            None
        }
    }
}

}
