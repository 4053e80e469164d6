//! Rule management, quota accounting and login throttling for a TCP/UDP
//! port-forwarding panel.

pub mod text;
pub mod rule;
pub mod addr;
pub mod batch;
pub mod rate_limit;
pub mod ports;
pub mod traffic;
pub mod service;
pub mod socket;
pub mod api;
pub mod config;
