//! An identifier service spoken over the RESP wire protocol: the frame codec,
//! the command vocabulary, the per-session buffer discipline and the
//! Snowflake-style identifier layout, each stated as a contract and proved.

pub mod decimal;
pub mod frame;
pub mod snowflake;
pub mod connection;
pub mod command;
pub mod roundtrip;
pub mod partial;
pub mod describe;
