//! Running strategies over historical data, and asking what the result
//! depended on.
pub mod deviation;
pub mod fidelity;
pub mod figure;
pub mod intent_laws;
pub mod lines;
pub mod lookahead;
pub mod measure_laws;
pub mod run;
pub mod run_laws;
pub mod strategy;
pub mod sweep;
pub mod sweep_file;
pub mod sweep_file_laws;
pub mod validity;
