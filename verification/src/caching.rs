//! The cache of built indices, the fingerprint that keys it, and the service
//! that fills it from other processes.

pub mod caching;
pub mod hashing;
pub mod zmq_service;
