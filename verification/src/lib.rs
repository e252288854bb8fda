//! Core of a Real-Time For the Masses style framework for ARM Cortex-M
//! microcontrollers: the compile-time resource/priority analysis that a code
//! generator consumes, and the runtime scheduler primitives (wrap-safe cycle
//! time, SRP critical sections, SPSC slot queues, and the timer queue).

pub mod analyze;
pub mod check;
pub mod fifo;
pub mod model;
pub mod names;
pub mod pipeline;
pub mod post_check;
pub mod srp;
pub mod system;
pub mod time;
pub mod timer_queue;
