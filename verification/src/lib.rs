//! A bridge between a mobile front end and federated e-cash clients:
//! client bookkeeping, federation labels, payment records and invoice checks.

pub mod hex;
pub mod text;
pub mod database;
pub mod federation;
pub mod error;
pub mod invoice;
pub mod payments;
pub mod client;
pub mod client_manager;
pub mod api;
