//! The logic of a WhatsApp node on the ESP32 family: its wire protocols, its
//! record store, its supervision and its admin interface, without the board.
//!
//! Nothing here touches a socket, a partition or a clock. Whoever drives the
//! library hands in bytes and readings, and carries out what comes back.

pub mod admin;
pub mod buffers;
pub mod caches;
pub mod crash;
pub mod device_status;
pub mod digest;
pub mod firmware;
pub mod flash;
pub mod http_chunked;
pub mod http_client;
pub mod json;
pub mod metrics;
pub mod mirror;
pub mod psram_alloc;
pub mod recovery;
pub mod rows;
pub mod runtime;
pub mod scan;
pub mod storage;
pub mod supervisor;
pub mod text;
pub mod transport;
pub mod ws;
pub mod ws_handshake;
