# niri_color

Verified parsing of the ICC `vcgt` (video card gamma table) tag and the
gamma-ramp arithmetic around it.

- `src/color/vcgt.rs` — the `Vcgt` ramps, `VcgtError`, the byte-level model of
  an ICC profile (`parse_icc`) and `Vcgt::from_bytes`, proved to follow it.
  Formula-type tags are decoded and validated here; their curves are computed
  by a caller-supplied function.
- `src/color/ramp.rs` — linear resampling of a ramp to a hardware LUT size and
  fusion of a client LUT with a calibration LUT, in exact integer arithmetic,
  with their laws (endpoints, monotonicity, range, identity, never brightening).
- `src/color/layout.rs` — the layout of a minimal single-tag profile and the
  proofs that parsing reads back the tables and formula parameters it holds.
- `app/` — reading profiles from disk, the floating-point formula evaluation,
  and error messages.
