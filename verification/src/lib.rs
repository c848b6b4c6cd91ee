//! A blocking driver for Wi-Fi modules of the ESP-01 kind, which take AT
//! commands over a serial link.

pub mod driver;
pub mod errors;
pub mod exchange;
pub mod scanner;
mod transport;
pub mod wire;

pub use crate::driver::{
    esp01, APConnected, APDisconnected, Esp01, Mode, Persist, QueryMode, StationMode, UnknownMode,
};
