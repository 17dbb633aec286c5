//! Parsing of the ICC `vcgt` (video card gamma table) tag and the gamma-ramp
//! arithmetic built on it: resampling a ramp to a hardware LUT size and
//! fusing a calibration ramp with a client-supplied ramp.

pub mod color;
