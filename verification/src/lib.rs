//! Backdrop blur for a Direct3D 11 window renderer.
//!
//! A blur copies the pixels behind a rounded rectangle, filters them across and down with a
//! Gaussian kernel, and puts the result back inside the rectangle. This crate holds what the blur
//! decides and computes: which blurs are drawn and which pixels they read ([`plan`]), the kernel
//! ([`kernel`]), the device objects, how they are made and how long they live ([`device`],
//! [`setup`], [`surfaces`], [`resources`]), the context calls of a blur ([`commands`]) and how it
//! runs and ends ([`draw`]). The caller owns the device and makes the calls.
//!
//! All numbers of the scene are single-precision. They are held by their bits, and their
//! arithmetic is worked out on integers: [`magnitude`] and [`rounding`] say what a bit pattern is
//! worth and which one is nearest, [`single`], [`arith`] and [`integral`] hold the operations, and
//! [`precision`] what can be said of their rounding.
//!
//! What holds of all this is stated by the proof functions whose names begin with `law_`, beside
//! the functions that they are about and in modules of their own: of the numbers in [`numerics`],
//! of the kernel in [`gaussian`] and [`normalization`], of where a blur lies in [`placement`], of
//! what its passes are given in [`uploads`], and of what they leave bound in [`context`].
pub mod arith;
pub mod commands;
pub mod context;
pub mod device;
pub mod draw;
pub mod gaussian;
pub mod geometry;
pub mod integral;
pub mod kernel;
pub mod magnitude;
pub mod normalization;
pub mod numerics;
pub mod placement;
pub mod plan;
pub mod precision;
pub mod resources;
pub mod rounding;
pub mod setup;
pub mod single;
pub mod surfaces;
pub mod uploads;
