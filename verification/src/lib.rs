//! Signal acquisition and display logic for a serial-port wave viewer and
//! its companion signal-generator firmware.

pub mod args;
pub mod clock;
pub mod command;
pub mod data;
pub mod decode;
pub mod dsp;
pub mod filter;
pub mod music;
pub mod params;
pub mod speed;
pub mod viewer;
