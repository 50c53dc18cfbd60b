pub mod context;
pub mod predictor;
pub mod range;
pub mod spatial;
pub mod sweep;
