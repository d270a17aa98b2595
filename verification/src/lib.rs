//! Verified core of the Omniscient prediction-market backend.

pub mod abi;
pub mod book;
pub mod book_laws;
pub mod config;
pub mod constants;
pub mod crypto;
pub mod engine;
pub mod events;
pub mod error;
pub mod fees;
pub mod finality;
pub mod hexcodec;
pub mod ids;
pub mod order;
pub mod pipeline;
pub mod rebuild;
pub mod resolution;
pub mod service;
pub mod settlement;
pub mod text;
pub mod types;
pub mod words;
