//! The verified core of a halftone and stencil cutter for paper.

pub mod arith;
pub mod bilateral;
pub mod blur;
pub mod bridge;
pub mod bridge_laws;
pub mod chamfer;
pub mod chars;
pub mod cli;
pub mod cluster;
pub mod color_laws;
pub mod components;
pub mod cover_laws;
pub mod curve;
pub mod curve_laws;
pub mod diffusion_laws;
pub mod dot_laws;
pub mod dots;
pub mod fragility;
pub mod gap;
pub mod grid;
pub mod hatch;
pub mod hatch_laws;
pub mod ink_laws;
pub mod inks;
pub mod job;
pub mod lab;
pub mod lattice;
pub mod lattice_laws;
pub mod line_laws;
pub mod number;
pub mod order;
pub mod orientation;
pub mod paper;
pub mod parse_laws;
pub mod picture;
pub mod plane;
pub mod preset;
pub mod preset_laws;
pub mod preview;
pub mod raster;
pub mod region_laws;
pub mod regions;
pub mod ring_laws;
pub mod sampling;
pub mod screen;
pub mod separation;
pub mod session;
pub mod settings;
pub mod sheet_laws;
pub mod slope_laws;
pub mod smooth;
pub mod stencil;
pub mod strip_laws;
pub mod stripe_laws;
pub mod strokes;
pub mod svg;
pub mod tab;
pub mod text;
pub mod text_laws;
pub mod tone;
pub mod tone_laws;
pub mod trace;
pub mod trace_laws;
pub mod warp;
pub mod wave_laws;
pub mod waves;
