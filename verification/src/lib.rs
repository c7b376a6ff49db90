//! Coordination core of a replicated payment processor: wire formats, the
//! ring election and the two-phase commit driver, as verified pure logic.

pub mod agent;
pub mod alglobo_node;
pub mod broadcast;
pub mod codec;
pub mod communication;
pub mod control;
pub mod csv;
pub mod exchange;
pub mod logger;
pub mod payments;
pub mod replication;
pub mod ring;
pub mod utils;
