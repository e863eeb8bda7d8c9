pub mod address;
pub mod cascade;
pub mod data;
pub mod error;
pub mod laws;
pub mod layout;
pub mod lifecycle;
pub mod paths;
pub mod resolve;
pub mod sketch;
pub mod text;
pub mod tree;
