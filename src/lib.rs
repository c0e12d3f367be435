//! Verified core of a periodic stock-quote pipeline: partitioning of the
//! symbol universe, per-cycle batch assembly into a bounded tail ring, the
//! line plan of the durable CSV sink and the cycle driver's state machine.
pub mod collector;
pub mod config;
pub mod driver;
pub mod partition;
pub mod pipeline;
pub mod signals;
pub mod sink;
