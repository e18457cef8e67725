//! Wi-Fi scan aggregation, plotting data and export.

pub mod channel;
pub mod csv;
pub mod frames;
pub mod hash;
pub mod history;
pub mod interaction;
pub mod labels;
pub mod sample;
pub mod scanner;
pub mod series;
pub mod settings;
pub mod state;
pub mod text;
pub mod time;
pub mod worker;
