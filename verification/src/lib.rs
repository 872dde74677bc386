//! Dominant-colour extraction: the integer and text core of the `huex` palette tool.
//!
//! The library holds what can be stated exactly without floating point: pixel sampling
//! with a seeded xorshift generator, image decoding and compositing over white, hex and
//! decimal text, XML escaping, report and SVG layout, option validation, population
//! ranking, and the merging of clusters that lie close together.

pub mod text;

pub mod rng;

pub mod sample;

pub mod color;

pub mod harmony;

pub mod config;

pub mod rank;

pub mod render;

pub mod merge;

pub mod decode;

pub mod kmeans;

pub mod determinism;
