//! A circular buffer for variable-length byte records ("lines").
//!
//! Each record is tagged with a caller-supplied value and addressed by a
//! global, ever-increasing index. The buffer bounds both the total bytes it
//! holds and the number of records it indexes; older records are silently
//! evicted as new ones arrive.

mod book;
mod buffer;
mod ring_math;

pub use book::Entry;
pub use buffer::lemma_eviction_by_bytes;
pub use buffer::lemma_eviction_by_count;
pub use buffer::lemma_iter_agrees_with_get;
pub use buffer::lemma_newest_record_live;
pub use buffer::lossy_text_of;
pub use buffer::phys_of;
pub use buffer::start_of_next;
pub use buffer::written_of;
pub use buffer::Iter;
pub use buffer::LineBuffer;
pub use buffer::Rec;
