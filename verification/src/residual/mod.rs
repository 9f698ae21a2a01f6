//! Stochastic analysis of the final residue.
//!
//! The pursuit leaves a residual: the breath, the bow noise and the hammer thump. This module converts
//! it into a compact, fixed-rate map of power over bands that a noise bank can be driven by.
//!
//! ```text
//! residual -> analysis bank -> one-pole power detectors -> a frame every update -> ResidualBook
//! ```
//!
//! It is a post-processing stage and nothing else. The one-pole detector is the only smoothing in the
//! chain. The bank is described in the book, not assumed.

pub mod analyze;
pub mod book;
pub mod config;
pub mod erb;
pub mod error;
pub mod filter;
pub mod math;
pub mod power;
pub mod sections;

use crate::ieee::Single;
use crate::residual::math::BankMath;
use vstd::prelude::*;

verus! {

/// Fewer bands than this cannot cover the audible range at any useful resolution.
pub const MIN_BANDS: usize = 4;

/// Orders the filter cascade implements.
pub const MIN_ORDER: usize = 1;

pub const MAX_ORDER: usize = 8;

/// The generator's state after `n` steps.
pub open spec fn noise_state(n: int) -> u64
    decreases n,
{
    if n <= 0 {
        0x2545_F491_4F6C_DD1D
    } else {
        let s = noise_state(n - 1);
        ((s * 6_364_136_223_846_793_005 + 1_442_695_040_888_963_407) % 0x1_0000_0000_0000_0000) as u64
    }
}

/// A fixed pseudo-noise fixture, uniform on `[-1, 1)`.
pub fn pseudo_noise<M: BankMath>(m: &M, n: usize) -> (r: Vec<Single>)
    requires
        m.repeatable(),
    ensures
        r@.len() == n,
        forall|i: int|
            0 <= i < n ==> #[trigger] r@[i] == m.noise_of((noise_state(i + 1) / 0x100_0000_0000) as u32),
{
    let mut s: u64 = 0x2545_F491_4F6C_DD1D;
    let mut out: Vec<Single> = Vec::new();
    let mut i: usize = 0;
    while i < n
        invariant
            m.repeatable(),
            i <= n,
            s == noise_state(i as int),
            out@.len() == i,
            forall|j: int|
                0 <= j < i ==> #[trigger] out@[j] == m.noise_of(
                    (noise_state(j + 1) / 0x100_0000_0000) as u32,
                ),
        decreases n - i,
    {
        assert(0 <= s as u128 * 6_364_136_223_846_793_005 <= 0xffff_ffff_ffff_ffff
            * 6_364_136_223_846_793_005) by (nonlinear_arith)
            requires
                0 <= s as u128 <= 0xffff_ffff_ffff_ffff,
        ;
        let wide: u128 = s as u128 * 6_364_136_223_846_793_005 + 1_442_695_040_888_963_407;
        s = (wide % 0x1_0000_0000_0000_0000) as u64;
        assert(s == noise_state(i + 1));
        let top: u32 = (s / 0x100_0000_0000) as u32;
        out.push(m.noise(top));
        i += 1;
    }
    out
}

} // verus!
