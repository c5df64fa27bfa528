//! Control plane for a privileged proxy-core helper: an HTTP-shaped codec for
//! the local IPC channel, and the decisions of the helper that supervises the
//! core process (authorization gate, heartbeat watchdog, bounded log capture).

pub mod bytes;
pub mod codec;
pub mod roundtrip;
pub mod client;
pub mod logbuf;
pub mod watchdog;
pub mod supervisor;
pub mod process;
