pub mod account;
pub mod corpus;
pub mod error;
pub mod hibp;
