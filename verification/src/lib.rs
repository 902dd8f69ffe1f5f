//! A pluggable distributed log: logical logs are chains of loglets
//! (segments), each loglet an ordered record store with tail, trim and seal
//! semantics. Provides the record and key codecs, the local log store model,
//! the replicated-loglet sequencer, and the facade that composes segments
//! into one logical LSN space.

pub mod bifrost;
pub mod chain;
pub mod cluster;
pub mod config;
pub mod codec;
pub mod file_loglet;
pub mod keys;
pub mod local_loglet;
pub mod log_server;
pub mod log_state;
pub mod loglet;
pub mod node_protocol;
pub mod nodes;
pub mod offsets;
pub mod params;
pub mod provider;
pub mod read_stream;
pub mod record;
pub mod record_cache;
pub mod remote;
pub mod sequencer;
pub mod storage_keys;
pub mod writer;
