pub mod data;

pub use data::GpsFix;
