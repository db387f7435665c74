//! Provisioning pipeline for newly booting compute nodes: allocate the lowest
//! free IPv4 address from a flat last-octet pool, record the assignment, and
//! drive external configuration playbooks against the new address.

pub mod ansible;
pub mod endpoints;
pub mod error;
pub mod ip;
pub mod provision;
