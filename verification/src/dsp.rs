pub mod cic;
pub mod spectrum;
