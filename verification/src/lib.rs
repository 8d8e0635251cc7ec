//! The discrete core of a ray tracer.
//!
//! A ray tracer spends most of its time in real-number arithmetic, but the
//! parts that decide *what* is drawn are discrete: which intersection is the
//! visible one, which rows a matrix inversion exchanges, which texture a
//! pattern selects, which Phong terms contribute, where a pixel lives in the
//! raster and which characters end up in the image file. This crate holds
//! exactly those parts, each with a contract proved by Verus.
//!
//! Real quantities enter the crate in two forms only:
//!
//! * as the *bit pattern* of a double-precision number, where the crate has
//!   to read the number: to compare it, to round it, or to tell whether it
//!   is zero. The module [`numerics`] says what a pattern stands for. Two
//!   numbers are compared through their *order keys*, which [`order_key`]
//!   makes of the patterns: keys order as the numbers do.
//! * as an opaque value of a type parameter, which the crate stores and moves
//!   but never inspects (pixels of a [`Canvas`], elements of a [`Matrix`],
//!   the payload of an [`Intersection`]).
//!
//! The crate does not add, multiply or take roots of real numbers: those
//! operations round, and what they return is not decided here.
pub mod canvas;
pub mod intersection;
pub mod matrix;
pub mod numerics;
pub mod patterns;
pub mod pivot;
pub mod ppm;
pub mod render;
pub mod shading;

pub use canvas::Canvas;
pub use intersection::{color_at, find_hit, intersect, is_shadowed, Intersection};
pub use matrix::Matrix;
pub use numerics::{
    approx_zero, clamp_number, is_nonzero, less_than, level, order_key, ordered_roots,
    rounds_down_to_even,
};
pub use patterns::{checkers, gradient, ring, stripes};
pub use pivot::{pivot_swaps, SingularMatrix};
pub use ppm::Sample;
pub use render::render;
pub use shading::{phong_terms, PhongTerms};
