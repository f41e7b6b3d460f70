//! Core logic of a decentralized-organization platform: membership records
//! with an elected-commissioner rotation, and a treasury/asset coordinator
//! that keeps a token registry, a courier-custody ledger, and plans batch
//! distributions of governance tokens.

pub mod account;
pub mod codec;
pub mod dao;
pub mod distribution;
pub mod member;
pub mod member_manager;
