pub mod address;
pub mod bristol;
pub mod circuit;
pub mod commitment;
pub mod config;
pub mod error;
pub mod script;
pub mod script_eval;
pub mod tapleaf;
pub mod taptree;
