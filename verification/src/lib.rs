//! Traffic masks for a VPN: header specifications, mask profiles, the analysis
//! that builds a profile from recorded traffic, and the session logic around it.
pub mod soft_float;
pub mod stats;
pub mod modes;
pub mod peaks;
pub mod consensus;
pub mod fsm;
pub mod sorting;
pub mod ks;
pub mod arrivals;
pub mod periods;
pub mod selftest;
pub mod analysis;
pub mod profile;
pub mod pipeline;
pub mod recording;
pub mod record_cmd;
pub mod tunnel;
pub mod session;
pub mod packet;
pub mod float_bits;
pub mod ieee;
pub mod monotone;
pub mod single;
pub mod double;
pub mod hexadecimal;
pub mod mask_rng;
pub mod header;
pub mod error;
pub mod mask;
pub mod canonical;
pub mod precision;
pub mod fits;
pub mod averages;
