//! Time-management core for a bare-metal target: an interrupt-safe alarm
//! pool, a deadline-ordered wake queue threaded through the pool's slots, a
//! tick-extension clock that widens a 16-bit hardware counter into a 64-bit
//! monotonic tick count, and the compare-match arming logic that makes the
//! next due deadline fire precisely.
//!
//! The core is a pure state machine: the platform layer reads the hardware
//! counter and passes the raw value in, and receives back the actions to
//! dispatch and the compare-match register update to perform.

pub mod alarm;
pub mod clock;
pub mod driver;
pub mod handlers;
pub mod laws;
pub mod queue;
pub mod slots;

pub use alarm::CompareAction;
pub use driver::AvrTc1EmbassyTimeDriver;
pub use slots::AlarmOrWaker;
pub use slots::LinkedList;
