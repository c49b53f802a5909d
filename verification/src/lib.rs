//! A one-way radio link on WiFi hardware in monitor mode: payloads are gathered into blocks, protected
//! by an erasure code, sealed, and sent in frames that no one has to acknowledge.
//!
//! - `gf256`, `gf_poly`, `gf_matrix`, `gf_tables`, `zfex`: the erasure code and what it rests on.
//! - `wifibroadcast`, `bytes`: packets and constants of the link.
//! - `crypto`, `keygen`: sealing, sessions and keys.
//! - `tx`, `tx_frame`: the transmitter.
//! - `radiotap`, `rx_capture`, `rx_ring`, `rx_stats`, `rx`: the receiver.
//! - `tx_laws`, `frame_laws`, `radio_laws`: what goes out, in which frames and with which settings.
//! - `rx_laws`, `keep_laws`, `order_laws`, `stream_laws`, `link_laws`, `packet_laws`, `event_laws`,
//!   `counter_laws`, `account_laws`, `stats_laws`: what the receiver hands on, keeps and counts.
//! - `radiotap_laws`, `capture_laws`, `chain_laws`, `format_laws`: how headers and packets are read.
//! - `tx_cmd`, `wfb_tun`, `run`: commands, the IP tunnel, settings and timers of the programs.
use vstd::prelude::*;

pub mod account_laws;
pub mod block;
pub mod bytes;
pub mod capture_laws;
pub mod chain_laws;
pub mod counter_laws;
pub mod crypto;
pub mod event_laws;
pub mod format_laws;
pub mod frame_laws;
pub mod gf256;
pub mod gf_matrix;
pub mod gf_poly;
pub mod gf_tables;
pub mod keep_laws;
pub mod keygen;
pub mod link_laws;
pub mod order_laws;
pub mod packet_laws;
pub mod radio_laws;
pub mod radiotap;
pub mod radiotap_laws;
pub mod run;
pub mod rx;
pub mod rx_capture;
pub mod rx_laws;
pub mod rx_ring;
pub mod rx_stats;
pub mod stats_laws;
pub mod stream_laws;
pub mod tables;
pub mod tx;
pub mod tx_cmd;
pub mod tx_frame;
pub mod tx_laws;
pub mod wfb_tun;
pub mod wifibroadcast;
pub mod zfex;

verus! {

} // verus!
