//! What holds of replicas across events.

pub mod agreement;
pub mod appending;
pub mod applying;
pub mod cluster;
pub mod consistency;
pub mod elections;
pub mod events;
pub mod fitting;
pub mod growth;
pub mod happening;
pub mod polling;
pub mod record;
pub mod replication;
pub mod roles;
pub mod safety;
pub mod sending;
mod steps;
pub mod storage;
pub mod taking;
pub mod views;
pub mod voting;
pub mod waiting;
pub mod world;
