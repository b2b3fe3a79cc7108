pub mod garage;
pub mod service;
pub mod laws;
