pub mod matcher;
pub mod quiz;
pub mod session;
pub mod statistics;
