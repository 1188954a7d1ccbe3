pub mod amortize;
pub mod deposit;
pub mod error;
pub mod execute;
pub mod house;
pub mod laws;
pub mod math;
pub mod models;
pub mod msg;
pub mod query;
pub mod responses;
pub mod settle;
pub mod sync;
pub mod token;
