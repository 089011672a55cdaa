pub mod algebra;
pub mod bte;
pub mod cca;
pub mod dlog;
pub mod field;
pub mod group;
pub mod laws;
pub mod poly;
pub mod ste;
pub mod transcript;
