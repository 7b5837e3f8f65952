//! Sample-format-independent building blocks of a small audio effects
//! library: a circular delay line with silence detection, the stage storage
//! and staggered four-lane stage schedule of a multi-stage phaser, the
//! four-sample batching of a phaser instance, and the delay-line sizes of
//! the flanger and phase-shift effects.
//!
//! Everything here is generic over the sample type: the floating-point
//! arithmetic itself is supplied by the caller.

pub mod delay_line;
pub mod phaser;
pub mod flanger;
pub mod phase_shift;
pub mod phaser_batch;
pub mod legacy_phaser;
