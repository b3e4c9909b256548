//! Verified core of the zensr super-resolution experiments: image geometry,
//! JPEG header scanning, tile planning, weight layout and text helpers.

pub mod codec;
pub mod coeff;
pub mod coefstats;
pub mod detect;
pub mod half;
pub mod hash;
pub mod image;
pub mod jpeg;
pub mod model;
pub mod pack;
pub mod ppm;
pub mod spanf;
pub mod split;
pub mod survey;
pub mod text;
pub mod threads;
pub mod tilecopy;
pub mod tiling;
pub mod weights;
pub mod window;
pub mod zigzag;
