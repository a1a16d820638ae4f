//! Block transform codec over three-channel pixel grids.
//!
//! An image is taken from the domain of bytes to the domain of transform
//! coefficients and back, by a block cosine transform or by a wavelet
//! transform, and a coefficient budget says how many coefficients survive
//! on the way.
//!
//! - [`channel`], [`pixel`], [`grid`], [`plane`]: pixels, grids of pixels and
//!   the values of one channel of a grid.
//! - [`zigzag`]: the order in which coefficients are kept.
//! - [`dct`]: the block cosine transform, generic in the type of its
//!   coefficients; the caller hands in the kernels that compute them.
//! - [`dwt`], [`budget`], [`truncate`]: the wavelet transform on fixed-point
//!   samples, and how a budget is laid over its coefficients.
//! - [`image`]: the image with its two domains.
//! - [`dwt_laws`], [`image_laws`], [`pow2`]: what holds of the wavelet
//!   transform.
//! - [`config`]: the arguments of the program.

pub mod budget;
pub mod channel;
pub mod config;
pub mod dct;
pub mod dwt;
pub mod dwt_laws;
pub mod grid;
pub mod image;
pub mod image_laws;
pub mod pixel;
pub mod plane;
pub mod pow2;
pub mod truncate;
pub mod zigzag;
