pub mod aggregate;
pub mod cli;
pub mod clock;
pub mod collector;
pub mod report;
pub mod sample;
pub mod store;
pub mod strutil;
pub mod timeframe;
