//! Tracks when polkadot-sdk pull requests reach downstream runtimes and go live on-chain.

pub mod bindings;
pub mod text;
pub mod maps;
pub mod patterns;
pub mod state;
pub mod project;
pub mod releases;
pub mod downstream;
pub mod onchain;
pub mod github;
pub mod rpc;
