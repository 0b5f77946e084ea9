//! A packet-distribution gateway: a dispatcher moves work items from a bounded
//! pending queue into eight bounded channel queues, preferring the channel
//! with the least outstanding work and the item that is quickest to process.

pub mod clock;
pub mod custody;
pub mod dispatch;
pub mod gateway;
pub mod lifecycle;
pub mod order;
pub mod packet;
pub mod queue;
pub mod run;
pub mod workload;
