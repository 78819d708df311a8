use std::collections::VecDeque;
use vstd::prelude::*;

verus! {

/// One index entry: where a record's payload begins in the logical byte
/// stream, how many bytes it holds, and the caller's tag.
pub struct Entry<T> {
    pub(crate) start: usize,
    pub(crate) length: usize,
    pub(crate) addition: T,
}

/// Simple book keeping index
///
/// A bounded metadata ring: keeps at most `cap` entries, oldest first, and
/// drops the oldest entry when a new one arrives while it is full. It does no
/// liveness validation; that is its owner's job.
pub(crate) struct BookKeeping<T> {
    pub(crate) index: VecDeque<Entry<T>>,
    pub(crate) cap: usize,
}

impl<T> BookKeeping<T> {
    pub(crate) fn new(cap: usize) -> (r: Self)
        requires
            cap >= 1,
        ensures
            r.index@ == Seq::<Entry<T>>::empty(),
            r.cap == cap,
    {
        BookKeeping { index: VecDeque::new(), cap }
    }

    /// Upper bound amount of items
    ///
    /// Real value varies depending on amount of valid entries
    pub(crate) fn length_max(&self) -> (r: usize)
        ensures
            r == self.index@.len(),
    {
        self.index.len()
    }

    /// Capacity of elements that can be hold.
    pub(crate) fn capacity(&self) -> (r: usize)
        ensures
            r == self.cap,
    {
        self.cap
    }

    /// Pushes a new entry at the back; when the ring is already full, the
    /// oldest entry is dropped first.
    pub(crate) fn append(&mut self, addition: T, start: usize, length: usize)
        requires
            old(self).cap >= 1,
        ensures
            final(self).cap == old(self).cap,
            old(self).index@.len() < old(self).cap ==> final(self).index@ == old(self).index@.push(
                (Entry { start, length, addition }),
            ),
            old(self).index@.len() >= old(self).cap ==> final(self).index@ == old(
                self,
            ).index@.subrange(1, old(self).index@.len() as int).push(
                (Entry { start, length, addition }),
            ),
    {
        if self.index.len() >= self.cap {
            self.index.pop_front();
        }
        self.index.push_back(Entry { start, length, addition });
    }

    /// Translates a global record number into the current in-ring slot, based
    /// on the floating window of at most `cap` surviving entries among
    /// `current_max` records ever appended. A number older than the window is
    /// reused as a raw slot number rather than rejected: a defensive fallback
    /// against underflow whose result carries no meaning, kept for
    /// compatibility; callers guard against reaching it.
    pub(crate) fn get(&self, idx: usize, current_max: usize) -> (r: Option<&Entry<T>>)
        ensures
            ({
                let min: int = if current_max < self.cap {
                    0
                } else {
                    current_max - self.cap
                };
                let pos: int = if idx >= min {
                    idx - min
                } else {
                    idx as int
                };
                match r {
                    Some(e) => pos < self.index@.len() && *e == self.index@[pos],
                    None => pos >= self.index@.len(),
                }
            }),
    {
        // calculate total position based on "floating window" of elements in buffer
        let min: usize = if current_max < self.cap {
            0  // no wrap till now
        } else {
            current_max - self.cap
        };
        let pos: usize = if idx >= min {
            idx - min
        } else {
            idx
        };
        if pos < self.index.len() {
            Some(&self.index[pos])
        } else {
            None
        }
    }
}

} // verus!
