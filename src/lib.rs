//! Pairs two message selections made by one user, and extracts the closed
//! range of a message stream that those two selections bound.

pub mod pairing;
pub mod scanner;
