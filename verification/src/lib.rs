//! Small patterns of concurrent programs, each as a sequential core with a
//! contract: units of work and their handles, a counter that units share
//! under a lock, a channel that hands messages from producers to one
//! consumer, and a consumer that polls. Threads, locks and waiting are the
//! caller's; what the patterns promise under every schedule is proved here.
//! Beside them stand the ordering and layout of a directory listing, and a
//! rectangle.

pub mod channel;
pub mod counter;
pub mod ls;
pub mod poll;
pub mod rect;
pub mod work;
