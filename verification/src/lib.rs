pub mod cli;
pub mod codec;
pub mod store;
pub mod tx;
