pub mod layout;
pub mod ramp;
pub mod vcgt;

pub use vcgt::{fuse_gamma, resample_vcgt, FormulaChannel, Vcgt, VcgtError, MAX_ICC_SIZE};
