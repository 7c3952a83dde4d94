pub mod contest;
pub mod country;
pub mod database;
pub mod error;
pub mod filters;
pub mod ranking;
pub mod round;
pub mod singleton;
pub mod user;
pub mod vote;
pub mod voter;
