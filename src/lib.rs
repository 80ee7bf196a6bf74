//! Sweep-line event ordering for line-segment intersection: points ordered
//! top-to-bottom then left-to-right, a deduplicating event queue, and
//! segments normalised for the sweep.
pub mod coord;
pub mod event_queue;
pub mod point;
pub mod segment;
