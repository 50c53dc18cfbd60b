pub mod rans;
