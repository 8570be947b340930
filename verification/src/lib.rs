//! TeaPlot: the verified core of a plotter-style line renderer for 3D models.
//!
//! The floating-point geometry lives with the application; this crate holds
//! the parts of the program whose behaviour is decided on integers, booleans
//! and bytes, each with a contract proved by Verus.
use vstd::prelude::*;

pub mod navigator;
pub mod text;
pub mod obj;
pub mod plot;
pub mod subtract;
pub mod input;
pub mod pipeline;
pub mod culling;

verus! {

} // verus!
