//! A time-ordered buffer: a sequence of timestamped items that arrive in
//! non-decreasing chronological order. The buffer supports appending the
//! newest item, discarding everything older than a cutoff, and retrieving a
//! view of all items at or after a given time.

pub mod buffer;
pub mod timestamp;

pub use buffer::TimewiseDeque;
pub use timestamp::Timestamp;
