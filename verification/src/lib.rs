//! Block-based spectral distortion engine.
//!
//! The engine transforms fixed-size blocks of samples into a cosine-transform
//! domain, applies two nonlinear operators (a soft clip and a quantizer) to
//! the coefficients, and reconstructs the signal by windowed overlap-add.
//! All samples and coefficients are fixed-point values: an `i64` holding the
//! real value scaled by `fixed::ONE`.

use vstd::prelude::*;

pub mod channel;
pub mod dct;
pub mod distort;
pub mod fixed;
pub mod framer;
pub mod laws;
pub mod mdct;
pub mod params;
pub mod status;
pub mod trig;

pub use channel::SingleChannelProcessor;
pub use dct::DCT;
pub use framer::DCTCrush;
pub use mdct::MDCT;
pub use params::ParamsBlock;
pub use status::ProcessError;
pub use status::ProcessStatus;

verus! {

} // verus!
