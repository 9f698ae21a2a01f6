//! Matching pursuit over a block-structured dictionary of FOF and Gaussian atoms.

pub mod acceptance;
pub mod adoption;
pub mod arith;
pub mod atom;
pub mod book;
pub mod bounds;
pub mod budget;
pub mod cache;
pub mod calc;
pub mod cand;
pub mod capture;
pub mod chart;
pub mod clocks;
pub mod command;
pub mod config;
pub mod convolve;
pub mod corr;
pub mod decimate;
pub mod deposit;
pub mod dict;
pub mod display;
pub mod equivalence;
pub mod excerpts;
pub mod gauss;
pub mod golden;
pub mod grams;
pub mod ieee;
pub mod inspect;
pub mod levels;
pub mod mapmath;
pub mod mp;
pub mod notation;
pub mod pictures;
pub mod pipeline;
pub mod plans;
pub mod pool;
pub mod pursue;
pub mod pursuit;
pub mod reals;
pub mod refine;
pub mod refresh;
pub mod releases;
pub mod remembered;
pub mod removal;
pub mod report;
pub mod residual;
pub mod rounding;
pub mod rows;
pub mod runs;
pub mod seeds;
pub mod smoothness;
pub mod stats;
pub mod structure;
pub mod subtract;
pub mod table;
pub mod tallies;
pub mod taps;
pub mod text;
pub mod tfmap;
pub mod threads;
pub mod units;
pub mod walks;
pub mod waves;
pub mod window;
pub mod windowed;
