//! Live per-process resource monitoring with user-defined alerting.

pub mod alerting;
pub mod binary64;
pub mod characters;
pub mod cli;
pub mod decimal;
pub mod delta;
pub mod figures;
pub mod grammar;
pub mod json;
pub mod natural;
pub mod numbers;
pub mod procfs;
pub mod rates;
pub mod reading;
pub mod render;
pub mod ring;
pub mod rules;
pub mod sample;
pub mod sampler;
pub mod screen;
pub mod table;
pub mod text;
pub mod time;
pub mod units;
pub mod watching;
