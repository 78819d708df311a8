use crate::book::{BookKeeping, Entry};
use crate::ring_math::lemma_ring_ranges_disjoint;
use std::collections::VecDeque;
use vstd::arithmetic::div_mod::{
    lemma_add_mod_noop, lemma_mod_add_multiples_vanish, lemma_mod_division_less_than_divisor,
    lemma_mod_self_0, lemma_mod_twice, lemma_small_mod, lemma_sub_mod_noop,
};
use vstd::pervasive::VecAdditionalExecFns;
use vstd::prelude::*;
use vstd::slice::slice_subrange;

verus! {

/// Copies `src` into `data` starting at `offset`, leaving every byte outside
/// the written range untouched.
fn copy_at(data: &mut Vec<u8>, offset: usize, src: &[u8])
    requires
        offset + src@.len() <= old(data)@.len(),
    ensures
        final(data)@.len() == old(data)@.len(),
        forall|j: int|
            offset <= j < offset + src@.len() ==> #[trigger] final(data)@[j] == src@[j - offset],
        forall|j: int|
            0 <= j < old(data)@.len() && !(offset <= j < offset + src@.len())
                ==> #[trigger] final(data)@[j] == old(data)@[j],
{
    let n: usize = src.len();
    let total: usize = data.len();
    let mut k: usize = 0;
    while k < n
        invariant
            k <= n,
            n == src@.len(),
            offset + n <= total,
            total == data@.len(),
            data@.len() == old(data)@.len(),
            forall|j: int| offset <= j < offset + k ==> #[trigger] data@[j] == src@[j - offset],
            forall|j: int|
                0 <= j < old(data)@.len() && !(offset <= j < offset + k)
                    ==> #[trigger] data@[j] == old(data)@[j],
        decreases n - k,
    {
        let b: u8 = src[k];
        data.set(offset + k, b);
        k = k + 1;
    }
}

/// Ghost model of one inserted record: its payload bytes, its tag, and the
/// logical (cumulative, never wrapping) byte offset at which it was written.
pub ghost struct Rec<T> {
    pub payload: Seq<u8>,
    pub tag: T,
    pub start: nat,
}

/// The physical position in a ring of `cap` bytes that a logical offset maps
/// to. A ring of no bytes holds only empty records, all at position zero.
pub open spec fn phys_of(start: nat, cap: nat) -> nat {
    if cap == 0 {
        0
    } else {
        start % cap
    }
}

/// Total bytes logically written by the records of `h`, skipped tail bytes
/// included: each record starts where the bytes before it ended, so the end
/// of the newest record is the total.
pub open spec fn written_of<T>(h: Seq<Rec<T>>) -> nat {
    if h.len() == 0 {
        0
    } else {
        h.last().start + h.last().payload.len()
    }
}

/// The logical offset at which a record of `len` bytes inserted after the
/// records of `h` begins: at the current end of the stream, or past the
/// skipped remainder of the lap when the payload would not fit before the
/// ring's edge.
pub open spec fn start_of_next<T>(h: Seq<Rec<T>>, cap: nat, len: nat) -> nat {
    let w = written_of(h);
    if cap == 0 {
        w
    } else if w % cap + len <= cap {
        w
    } else {
        (w + (cap - w % cap)) as nat
    }
}

/// Relates the tail-based wraparound decision the code makes to the
/// `start_of_next` model, for one insert of `l` bytes: `s` is the chosen
/// logical start, `offset` the physical write position, and `nt` the tail
/// after the write.
proof fn lemma_insert_start_math<T>(
    h0: Seq<Rec<T>>,
    cap: nat,
    w0: nat,
    t0: nat,
    l: nat,
    s: nat,
    offset: nat,
    nt: nat,
)
    requires
        w0 == written_of(h0),
        t0 <= w0,
        t0 <= cap,
        cap > 0 ==> t0 % cap == w0 % cap,
        cap == 0 ==> t0 == 0,
        l <= cap,
        t0 + l > cap ==> s == w0 + (cap - t0) && offset == 0 && nt == l,
        t0 + l <= cap ==> s == w0 && offset == t0 && nt == t0 + l,
    ensures
        s == start_of_next(h0, cap, l),
        s >= w0,
        l > 0 ==> offset == phys_of(s, cap),
        phys_of(s, cap) + l <= cap,
        offset + l <= cap,
        nt <= cap,
        nt <= s + l,
        cap > 0 ==> nt % cap == (s + l) % cap,
        cap == 0 ==> nt == 0,
{
    if cap == 0 {
        assert(s == w0);
    } else {
        lemma_mod_division_less_than_divisor(w0 as int, cap as int);
        lemma_mod_self_0(cap as int);
        if t0 + l > cap {
            assert(l >= 1);
            if t0 == cap {
                // the tail sat exactly at the ring's edge; nothing is skipped
                assert(w0 % cap == 0);
                assert(s == w0);
            } else {
                lemma_small_mod(t0, cap);
                assert(w0 % cap == t0);
                assert(w0 % cap + l > cap);
            }
            assert(s == start_of_next(h0, cap, l));
            // s is a multiple of cap, so the record starts at physical zero
            lemma_sub_mod_noop(w0 as int, t0 as int, cap as int);
            lemma_small_mod(0, cap);
            assert((w0 - t0) % (cap as int) == 0);
            lemma_mod_add_multiples_vanish((w0 - t0) as int, cap as int);
            assert(s as int == cap + (w0 - t0));
            assert(s % cap == 0);
            lemma_add_mod_noop(s as int, l as int, cap as int);
            lemma_mod_twice(l as int, cap as int);
            assert((s + l) % cap == l % cap);
            if l < cap {
                lemma_small_mod(l, cap);
            } else {
                assert(l == cap);
            }
        } else {
            assert(s == w0);
            if t0 < cap {
                lemma_small_mod(t0, cap);
                assert(w0 % cap == t0);
            } else {
                assert(t0 == cap);
                assert(l == 0);
            }
            assert(s == start_of_next(h0, cap, l));
            if l > 0 {
                assert(t0 < cap);
                assert(phys_of(s, cap) == t0);
            }
            lemma_add_mod_noop(w0 as int, l as int, cap as int);
            lemma_add_mod_noop(t0 as int, l as int, cap as int);
            assert((w0 + l) % cap == (t0 + l) % cap);
        }
    }
}

/// The text that lossy UTF-8 decoding gives for a byte sequence. The result
/// depends on the bytes alone; stating it exactly would mean writing out the
/// UTF-8 grammar, so it only carries a name here.
pub uninterp spec fn lossy_text_of(bytes: Seq<u8>) -> Seq<char>;

/// Circular Line Buffer
pub struct LineBuffer<T> {
    data: Vec<u8>,
    book_keeping: BookKeeping<T>,
    /// pointing to next free space in data array
    tail: usize,
    /// total amount of inserted items
    elements: usize,
    /// total written bytes, including wrapped bytes
    written_bytes: usize,
    /// every record ever inserted, oldest first
    history: Ghost<Seq<Rec<T>>>,
}

impl<T> View for LineBuffer<T> {
    type V = Seq<Rec<T>>;

    closed spec fn view(&self) -> Seq<Rec<T>> {
        self.history@
    }
}

impl<T> LineBuffer<T> {
    /// Capacity of the byte storage.
    pub closed spec fn byte_cap(self) -> nat {
        self.data@.len()
    }

    /// Capacity of the record index.
    pub closed spec fn rec_cap(self) -> nat {
        self.book_keeping.cap as nat
    }

    /// The raw backing bytes, stale regions included.
    pub closed spec fn raw_bytes(self) -> Seq<u8> {
        self.data@
    }

    /// Total bytes logically written so far.
    pub open spec fn written(self) -> nat {
        written_of(self@)
    }

    /// The oldest global index whose record the index ring still holds.
    pub open spec fn rec_window_lo(self) -> int {
        if self@.len() <= self.rec_cap() {
            0
        } else {
            self@.len() - self.rec_cap()
        }
    }

    /// Whether record `i`'s bytes still lie inside the trailing window of
    /// `byte_cap` logical bytes, i.e. have not been wrapped over.
    pub open spec fn byte_live(self, i: int) -> bool {
        self.written() < self.byte_cap() || self@[i].start >= self.written() - self.byte_cap()
    }

    /// Whether `get(i)` finds record `i`: it must exist, its index entry must
    /// not have been evicted, and its bytes must not have been wrapped over.
    pub open spec fn live(self, i: int) -> bool {
        &&& 0 <= i < self@.len()
        &&& self.rec_window_lo() <= i
        &&& self.byte_live(i)
    }

    /// The first position at or after `j` whose record is byte-live (or the
    /// end of the history).
    pub open spec fn skip_from(self, j: int) -> int
        decreases self@.len() - j,
    {
        if j >= self@.len() || self.byte_live(j) {
            j
        } else {
            self.skip_from(j + 1)
        }
    }

    /// The oldest live global index: iteration starts here.
    pub open spec fn live_lo(self) -> int {
        self.skip_from(self.rec_window_lo())
    }

    /// The payloads and tags of the live records, oldest first.
    pub open spec fn visible(self) -> Seq<(Seq<u8>, T)> {
        Seq::new(
            (self@.len() - self.live_lo()) as nat,
            |k: int| (self@[self.live_lo() + k].payload, self@[self.live_lo() + k].tag),
        )
    }

    /// A record that is byte-live stays byte-live at every younger index:
    /// logical starts only grow with the insertion order.
    proof fn lemma_byte_live_mono(self, i: int, j: int)
        requires
            self.wf(),
            0 <= i <= j < self@.len(),
            self.byte_live(i),
        ensures
            self.byte_live(j),
    {
        if i < j {
            assert(self@[i].start + self@[i].payload.len() <= self@[j].start);
        }
    }

    /// `skip_from(j)` lands on the first byte-live record at or after `j`:
    /// everything before it is stale, and it is in bounds.
    proof fn lemma_skip_props(self, j: int)
        requires
            self.wf(),
            0 <= j <= self@.len(),
        ensures
            j <= self.skip_from(j) <= self@.len(),
            self.skip_from(j) < self@.len() ==> self.byte_live(self.skip_from(j)),
            forall|k: int| j <= k < self.skip_from(j) ==> !self.byte_live(k),
        decreases self@.len() - j,
    {
        if j < self@.len() && !self.byte_live(j) {
            self.lemma_skip_props(j + 1);
        }
    }

    /// The internal invariant: the counters agree with the ghost history, the
    /// index ring mirrors the newest records of the history, records never
    /// wrap physically, and every byte-live record's payload is intact in the
    /// backing storage at its physical position.
    pub closed spec fn wf(self) -> bool {
        let cap = self.data@.len();
        let h = self.history@;
        let n = h.len();
        let m = self.book_keeping.index@.len();
        &&& self.book_keeping.cap >= 1
        &&& self.elements == n
        &&& self.written_bytes == written_of(h)
        &&& self.tail <= self.written_bytes
        &&& self.tail <= cap
        &&& (cap > 0 ==> self.tail as int % cap as int == self.written_bytes as int % cap as int)
        &&& (cap == 0 ==> self.tail == 0)
        &&& m == if n <= self.book_keeping.cap {
            n
        } else {
            self.book_keeping.cap as nat
        }
        &&& (forall|j: int|
            0 <= j < m ==> {
                let e = #[trigger] self.book_keeping.index@[j];
                &&& e.start == h[n - m + j].start
                &&& e.length == h[n - m + j].payload.len()
                &&& e.addition == h[n - m + j].tag
            })
        &&& (forall|i: int| 0 <= i < n ==> (#[trigger] h[i]).payload.len() <= cap)
        &&& (forall|i: int|
            0 <= i < n ==> (#[trigger] h[i]).start + h[i].payload.len() <= written_of(h))
        &&& (forall|i: int|
            0 <= i < n ==> phys_of((#[trigger] h[i]).start, cap) + h[i].payload.len() <= cap)
        &&& (forall|i: int, j: int|
            0 <= i < j < n ==> (#[trigger] h[i]).start + h[i].payload.len()
                <= (#[trigger] h[j]).start)
        &&& (forall|i: int|
            0 <= i < n && (#[trigger] h[i]).start + cap >= written_of(h)
                ==> self.data@.subrange(
                phys_of(h[i].start, cap) as int,
                phys_of(h[i].start, cap) + h[i].payload.len() as int,
            ) == h[i].payload)
    }

    /// Create new circular buffer of defined data size (bytes) and record
    /// capacity (lines).
    ///
    /// LineBuffer will wrap after reaching max bytes or the max amount of
    /// lines specified.
    pub fn new(max: usize, lines: usize) -> (r: Self)
        requires
            lines >= 1,
        ensures
            r.wf(),
            r@ == Seq::<Rec<T>>::empty(),
            r.byte_cap() == max,
            r.rec_cap() == lines,
            r.raw_bytes() == Seq::new(max as nat, |i: int| 0u8),
    {
        let data: Vec<u8> = vec![0u8; max];
        proof {
            assert(data@ =~= Seq::new(max as nat, |i: int| 0u8));
        }
        LineBuffer {
            data,
            elements: 0,
            tail: 0,
            book_keeping: BookKeeping::new(lines),
            written_bytes: 0,
            history: Ghost(Seq::empty()),
        }
    }

    /// Total amount of inserted elements
    pub fn elements(&self) -> (r: usize)
        requires
            self.wf(),
        ensures
            r == self@.len(),
    {
        self.elements
    }

    /// Capacity of elements (lines)
    pub fn capacity(&self) -> (r: usize)
        ensures
            r == self.rec_cap(),
    {
        self.book_keeping.capacity()
    }

    /// Capacity of total bytes
    ///
    /// Note that due to fragmentation it is not
    /// trivially possible to get the amount of free bytes
    pub fn capacity_bytes(&self) -> (r: usize)
        ensures
            r == self.byte_cap(),
    {
        self.data.len()
    }

    /// Get element at index, idx counting up since first element inserted.
    ///
    /// Returns the payload and tag of record `idx` exactly as inserted when
    /// the record is still live, and nothing when it was never inserted, was
    /// evicted from the index ring, or had its bytes wrapped over.
    pub fn get(&self, idx: usize) -> (r: Option<(&[u8], &T)>)
        requires
            self.wf(),
        ensures
            match r {
                Some(p) => self.live(idx as int) && p.0@ == self@[idx as int].payload && *p.1
                    == self@[idx as int].tag,
                None => !self.live(idx as int),
            },
    {
        // idx > seen lines
        if self.elements <= idx {
            return None;
        }
        // idx < min elements
        if self.elements > self.book_keeping.capacity() && self.elements
            - self.book_keeping.capacity() > idx {
            return None;
        }
        let entry = self.book_keeping.get(idx, self.elements);
        if let Some(entry) = entry {
            // a record is only served while its bytes lie in the trailing
            // window of capacity_bytes() logical bytes; the first test keeps
            // the subtraction from underflowing before the first lap is full
            if self.written_bytes < self.capacity_bytes() || entry.start >= self.written_bytes
                - self.capacity_bytes() {
                let cap: usize = self.data.len();
                let start: usize = if cap == 0 {
                    0
                } else {
                    entry.start % cap
                };
                proof {
                    let h = self.history@;
                    let i = idx as int;
                    assert(entry.start == h[i].start);
                    assert(start == phys_of(h[i].start, cap as nat));
                    assert(start + entry.length <= self.data@.len());
                }
                return Some(
                    (
                        slice_subrange(self.data.as_slice(), start, start + entry.length),
                        &entry.addition,
                    ),
                );
            }
        }
        None
    }

    /// Insert element at the front and an additional value, which can be used as flag
    ///
    /// The payload must fit into the byte storage, and the lifetime counters
    /// must not overflow the machine word.
    pub fn insert(&mut self, element: &[u8], addition: T)
        requires
            old(self).wf(),
            element@.len() <= old(self).byte_cap(),
            old(self).written() + old(self).byte_cap() + element@.len() <= usize::MAX,
            old(self)@.len() < usize::MAX,
        ensures
            final(self).wf(),
            final(self)@ == old(self)@.push(
                (Rec {
                    payload: element@,
                    tag: addition,
                    start: start_of_next(old(self)@, old(self).byte_cap(), element@.len()),
                }),
            ),
            final(self).byte_cap() == old(self).byte_cap(),
            final(self).rec_cap() == old(self).rec_cap(),
    {
        let ghost tag_snap = addition;
        let ghost h0 = self.history@;
        let ghost cap = self.data@.len();
        let ghost w0 = self.written_bytes as nat;
        let ghost t0 = self.tail as nat;
        let e_len: usize = element.len();
        let offset: usize;
        // calculate position in data
        if self.tail + e_len > self.data.len() {
            offset = 0;
            // add wrapped data to written_bytes, otherwise position calculation by modulo won't work
            self.written_bytes = self.written_bytes + (self.data.len() - self.tail);
            self.tail = e_len;
        } else {
            offset = self.tail;
            self.tail = self.tail + e_len;
        }
        let ghost s = self.written_bytes as nat;
        proof {
            lemma_insert_start_math(h0, cap, w0, t0, e_len as nat, s, offset as nat, self.tail as nat);
        }
        copy_at(&mut self.data, offset, element);
        self.book_keeping.append(addition, self.written_bytes, e_len);
        self.elements = self.elements + 1;
        self.written_bytes = self.written_bytes + e_len;
        self.history = Ghost(h0.push(Rec { payload: element@, tag: tag_snap, start: s }));
        proof {
            let h1 = self.history@;
            let n = h0.len() as int;
            assert(written_of(h1) == s + e_len);
            // the freshly written payload is in place
            assert(self.data@.subrange(
                phys_of(s, cap) as int,
                phys_of(s, cap) + e_len as int,
            ) =~= element@) by {
                if e_len > 0 {
                    assert(phys_of(s, cap) == offset);
                }
            }
            // every record that is byte-live in the new state kept its bytes
            assert forall|i: int|
                0 <= i < n && (#[trigger] h1[i]).start + cap >= written_of(h1) implies self.data@.subrange(
                phys_of(h1[i].start, cap) as int,
                phys_of(h1[i].start, cap) + h1[i].payload.len() as int,
            ) == h1[i].payload by {
                let a = h0[i].start;
                let la = h0[i].payload.len();
                let pa = phys_of(a, cap) as int;
                assert(old(self).data@.subrange(pa, pa + la as int) == h0[i].payload);
                if la == 0 {
                    assert(self.data@.subrange(pa, pa) =~= old(self).data@.subrange(pa, pa));
                } else if e_len > 0 {
                    lemma_ring_ranges_disjoint(a, la, s, e_len as nat, cap);
                    assert(self.data@.subrange(pa, pa + la as int) =~= old(self).data@.subrange(
                        pa,
                        pa + la as int,
                    ));
                } else {
                    assert(self.data@.subrange(pa, pa + la as int) =~= old(self).data@.subrange(
                        pa,
                        pa + la as int,
                    ));
                }
            }
            // the index ring mirrors the newest records of the history
            assert forall|j: int|
                0 <= j < self.book_keeping.index@.len() implies {
                let e = #[trigger] self.book_keeping.index@[j];
                let m1 = self.book_keeping.index@.len() as int;
                &&& e.start == h1[h1.len() - m1 + j].start
                &&& e.length == h1[h1.len() - m1 + j].payload.len()
                &&& e.addition == h1[h1.len() - m1 + j].tag
            } by {
                let m0 = old(self).book_keeping.index@.len() as int;
                let m1 = self.book_keeping.index@.len() as int;
                if j + 1 < m1 {
                    assert(h1[h1.len() - m1 + j] == h0[n - m0 + (m0 - m1 + 1 + j)]);
                }
            }
        }
    }

    /// Debugging only: the whole backing storage decoded as text, stale
    /// regions and all.
    ///
    /// Relies on String::from_utf8_lossy, which turns bytes into text by the
    /// bytes alone, replacing ill-formed UTF-8 sequences.
    #[verifier::external_body]
    pub fn get_all_data(&self) -> (r: String)
        ensures
            r@ == lossy_text_of(self.raw_bytes()),
    {
        String::from_utf8_lossy(&self.data).to_string()
    }

    /// Returns an iterator over the elements
    ///
    /// Note that building it has some overhead to skip invalid entries.
    pub fn iter<'a>(&'a self) -> (r: Iter<'a, T>)
        requires
            self.wf(),
        ensures
            r.wf(),
            r.remaining() == self.visible(),
            r.indexed_len() == if self@.len() <= self.rec_cap() {
                self@.len()
            } else {
                self.rec_cap()
            },
    {
        let ghost rec_lo = self.rec_window_lo();
        let ghost n = self.history@.len() as int;
        let m: usize = self.book_keeping.length_max();
        let mut pos: usize = 0;
        if self.written_bytes >= self.data.len() {
            let w: usize = self.written_bytes - self.data.len();
            while pos < m && self.book_keeping.index[pos].start < w
                invariant
                    pos <= m,
                    self.wf(),
                    w == self.written_bytes - self.data@.len(),
                    self.written_bytes >= self.data@.len(),
                    m == self.book_keeping.index@.len(),
                    rec_lo == self.rec_window_lo(),
                    n == self.history@.len(),
                    self.skip_from(rec_lo) == self.skip_from(rec_lo + pos),
                decreases m - pos,
            {
                proof {
                    let i = rec_lo + pos;
                    assert(self.book_keeping.index@[pos as int].start == self.history@[i].start);
                    assert(!self.byte_live(i));
                }
                pos = pos + 1;
            }
        }
        proof {
            assert(self.live_lo() == rec_lo + pos);
        }
        let r = Iter { data: &self.data, entries: &self.book_keeping.index, pos };
        proof {
            self.lemma_skip_props(rec_lo);
            assert forall|k: int| 0 <= k < r.remaining().len() implies r.remaining()[k]
                == self.visible()[k] by {
                let lo = self.live_lo();
                let i = lo + k;
                self.lemma_byte_live_mono(lo, i);
                assert(self.book_keeping.index@[pos + k].start == self.history@[i].start);
                assert(self.history@[i].start + self.byte_cap() >= written_of(self.history@));
            }
            assert(r.remaining() =~= self.visible());
        }
        r
    }
}

/// Iterator over entries in LineBuffer
///
/// Created by calling .iter() on LineBuffer. It borrows the buffer and hands
/// out the live records oldest to newest; entries whose bytes have been
/// wrapped over were already skipped when it was built.
#[must_use]
pub struct Iter<'a, T> {
    data: &'a Vec<u8>,
    entries: &'a VecDeque<Entry<T>>,
    pos: usize,
}

impl<'a, T> Iter<'a, T> {
    /// Every indexed entry fits inside the backing bytes it points into.
    pub closed spec fn wf(self) -> bool {
        &&& self.pos <= self.entries@.len()
        &&& forall|j: int|
            0 <= j < self.entries@.len() ==> phys_of(
                (#[trigger] self.entries@[j]).start as nat,
                self.data@.len(),
            ) + self.entries@[j].length <= self.data@.len()
    }

    /// How many entries the index ring held when this iterator was built,
    /// the skipped stale ones included.
    pub closed spec fn indexed_len(self) -> nat {
        self.entries@.len()
    }

    /// The payloads and tags this iterator has yet to yield, oldest first.
    pub closed spec fn remaining(self) -> Seq<(Seq<u8>, T)> {
        Seq::new(
            (self.entries@.len() - self.pos) as nat,
            |k: int|
                {
                    let e = self.entries@[self.pos + k];
                    let p = phys_of(e.start as nat, self.data@.len()) as int;
                    (self.data@.subrange(p, p + e.length), e.addition)
                },
        )
    }

    /// Yields the next record's payload and tag, oldest first, and nothing
    /// once every remaining record has been yielded.
    pub fn next(&mut self) -> (r: Option<(&'a [u8], &'a T)>)
        requires
            old(self).wf(),
        ensures
            final(self).wf(),
            old(self).remaining().len() == 0 ==> r is None && final(self).remaining() == old(
                self,
            ).remaining(),
            old(self).remaining().len() > 0 ==> match r {
                Some(p) => p.0@ == old(self).remaining()[0].0 && *p.1 == old(self).remaining()[0].1
                    && final(self).remaining() == old(self).remaining().drop_first(),
                None => false,
            },
    {
        if self.pos < self.entries.len() {
            let entries: &'a VecDeque<Entry<T>> = self.entries;
            let data: &'a Vec<u8> = self.data;
            let entry = &entries[self.pos];
            let cap: usize = data.len();
            let start: usize = if cap == 0 {
                0
            } else {
                entry.start % cap
            };
            proof {
                assert(start == phys_of(entry.start as nat, self.data@.len()));
            }
            let s: &'a [u8] = slice_subrange(data.as_slice(), start, start + entry.length);
            self.pos = self.pos + 1;
            proof {
                assert(final(self).remaining() =~= old(self).remaining().drop_first());
            }
            Some((s, &entry.addition))
        } else {
            None
        }
    }

    /// A size hint in the shape iteration has always advertised: at least
    /// half of the indexed entries, at most all of them.
    pub fn size_hint(&self) -> (r: (usize, Option<usize>))
        ensures
            r.0 == self.indexed_len() as usize / 2,
            r.1 == Some(self.indexed_len() as usize),
    {
        (self.entries.len() / 2, Some(self.entries.len()))
    }
}

/// Monotonic visibility, and the round trip behind it: the most recently
/// inserted record is always live, so by `get`'s contract `get` at index
/// `len - 1` returns exactly the payload and tag that `insert` recorded.
pub proof fn lemma_newest_record_live<T>(buf: LineBuffer<T>)
    requires
        buf.wf(),
        buf@.len() >= 1,
    ensures
        buf.live(buf@.len() - 1),
{
    let n = buf@.len() as int;
    assert(buf@[n - 1].start + buf@[n - 1].payload.len() <= written_of(buf@));
    assert(buf@[n - 1].payload.len() <= buf.byte_cap());
}

/// Eviction by count: once more records were inserted than the index ring
/// holds, and the newest `rec_cap` records are all still byte-live, exactly
/// the indices of the last `rec_cap` records are live.
pub proof fn lemma_eviction_by_count<T>(buf: LineBuffer<T>, i: int)
    requires
        buf.wf(),
        buf@.len() > buf.rec_cap(),
        forall|j: int| buf@.len() - buf.rec_cap() <= j < buf@.len() ==> buf.byte_live(j),
    ensures
        0 <= i < buf@.len() - buf.rec_cap() ==> !buf.live(i),
        buf@.len() - buf.rec_cap() <= i < buf@.len() ==> buf.live(i),
{
}

/// Eviction by bytes: a record whose bytes were wrapped over is not live
/// even while its index entry survives, and a record whose bytes remain in
/// the trailing byte window is live whenever its index entry survives; by
/// `get`'s contract a live record comes back with its original payload.
pub proof fn lemma_eviction_by_bytes<T>(buf: LineBuffer<T>, i: int)
    requires
        buf.wf(),
        0 <= i < buf@.len(),
    ensures
        !buf.byte_live(i) ==> !buf.live(i),
        buf.rec_window_lo() <= i && buf.byte_live(i) ==> buf.live(i),
{
}

/// Iteration agreement: the records the iterator yields are, in order,
/// exactly those whose indices `get` reports as live, with the same payload
/// and tag.
pub proof fn lemma_iter_agrees_with_get<T>(buf: LineBuffer<T>, i: int)
    requires
        buf.wf(),
    ensures
        buf.live(i) <==> buf.live_lo() <= i < buf@.len(),
        buf.live(i) ==> buf.visible()[i - buf.live_lo()] == (buf@[i].payload, buf@[i].tag),
{
    let lo = buf.live_lo();
    buf.lemma_skip_props(buf.rec_window_lo());
    if lo <= i < buf@.len() {
        if lo < buf@.len() {
            buf.lemma_byte_live_mono(lo, i);
        }
    }
}

} // verus!
