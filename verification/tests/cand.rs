//! The candidate search.

use rmp::cand::{block_seeds, top_seeds, top_seeds_capped, FrameTable, Seed};
use rmp::ieee::Double;

fn d(x: f64) -> Double {
    Double { bits: x.to_bits() }
}

fn ds(xs: &[f64]) -> Vec<Double> {
    xs.iter().map(|&x| d(x)).collect()
}

fn table<'a>(
    block: usize,
    energy: &'a [Double],
    bin: &'a [u32],
    hop: usize,
    support: usize,
) -> FrameTable<'a> {
    FrameTable { block, energy, bin, dirty: None, core_frames: None, hop, support_len: support }
}

#[test]
fn the_first_seed_is_the_global_argmax() {
    let a = ds(&[1.0, 5.0, 2.0, 9.0, 1.0]);
    let b = ds(&[3.0, 8.0, 0.5]);
    let (ba, bb) = ([0u32; 5], [1u32; 3]);
    let seeds = top_seeds(&[table(0, &a, &ba, 10, 1), table(1, &b, &bb, 10, 1)], 8);
    assert_eq!(seeds[0].block, 0);
    assert_eq!(seeds[0].frame, 3);
    assert_eq!(seeds[0].energy, d(9.0));
}

#[test]
fn only_local_maxima_are_promoted() {
    let e = ds(&[1.0, 2.0, 3.0, 4.0, 3.0, 2.0, 1.0]);
    let bins = [0u32; 7];
    let seeds = top_seeds(&[table(0, &e, &bins, 10, 1)], 8);
    assert_eq!(seeds.len(), 1);
    assert_eq!(seeds[0].frame, 3);
}

#[test]
fn plateaus_resolve_to_the_lowest_frame() {
    let e = ds(&[1.0, 7.0, 7.0, 7.0, 1.0]);
    let bins = [0u32; 5];
    let seeds = top_seeds(&[table(0, &e, &bins, 10, 1)], 8);
    assert_eq!(seeds.len(), 1);
    assert_eq!(seeds[0].frame, 1);
}

#[test]
fn edges_can_win() {
    let bins = [0u32; 3];
    let rising = ds(&[9.0, 2.0, 1.0]);
    assert_eq!(top_seeds(&[table(0, &rising, &bins, 1, 1)], 4)[0].frame, 0);
    let falling = ds(&[1.0, 2.0, 9.0]);
    assert_eq!(top_seeds(&[table(0, &falling, &bins, 1, 1)], 4)[0].frame, 2);
}

#[test]
fn suppression_is_within_a_block_only() {
    let e = ds(&[0.0, 9.0, 0.0, 8.0, 0.0]);
    let bins = [0u32; 5];
    let same = top_seeds(&[table(0, &e, &bins, 10, 100)], 8);
    assert_eq!(same.len(), 1, "{same:?}");

    let hi = ds(&[0.0, 9.0, 0.0]);
    let lo = ds(&[0.0, 8.0, 0.0]);
    let b3 = [0u32; 3];
    let split = top_seeds(&[table(0, &hi, &b3, 10, 100), table(1, &lo, &b3, 10, 100)], 8);
    assert_eq!(split.len(), 2);
    assert_eq!((split[0].block, split[1].block), (0, 1));
}

#[test]
fn ties_break_by_block_then_frame() {
    let e = ds(&[0.0, 5.0, 0.0, 5.0, 0.0]);
    let bins = [0u32; 5];
    let seeds = top_seeds(&[table(1, &e, &bins, 10, 1), table(0, &e, &bins, 10, 1)], 8);
    assert_eq!(
        seeds.iter().map(|s| (s.block, s.frame)).collect::<Vec<_>>(),
        vec![(0, 1), (0, 3), (1, 1), (1, 3)]
    );
}

#[test]
fn non_finite_frames_are_skipped() {
    let e = ds(&[f64::NEG_INFINITY, 1.0, f64::NAN]);
    let bins = [0u32; 3];
    let seeds = top_seeds(&[table(0, &e, &bins, 10, 1)], 8);
    assert_eq!(seeds.len(), 1);
    assert_eq!(seeds[0].frame, 1);
}

/// Searching the blocks separately and merging by rank is exactly one scan over every table in rank
/// order. Big enough to take the parallel path and small enough to also check the serial one.
#[test]
fn searching_blocks_separately_matches_one_scan_over_all_of_them() {
    let mut s = 0x9e37_79b9_7f4a_7c15u64;
    let mut rng = move || {
        s ^= s << 13;
        s ^= s >> 7;
        s ^= s << 17;
        s
    };
    for len in [300usize, 4_000] {
        let blocks: Vec<(Vec<Double>, Vec<u32>, Vec<bool>)> = (0..5)
            .map(|_| {
                let energy = (0..len)
                    .map(|_| match rng() % 50 {
                        0 => d(f64::NAN),
                        1 => d(f64::NEG_INFINITY),
                        _ => d((rng() % 64) as f64),
                    })
                    .collect();
                let bin = (0..len).map(|_| (rng() % 1000) as u32).collect();
                let dirty = (0..len).map(|_| rng() % 5 == 0).collect();
                (energy, bin, dirty)
            })
            .collect();
        let comb: Vec<Double> = (0..len)
            .map(|n| d(if n % 3 == 0 { 1_000.0 - n as f64 * 1e-3 } else { 0.0 }))
            .collect();
        let comb_bin = vec![0u32; len];
        let mut tables: Vec<FrameTable<'_>> = blocks
            .iter()
            .enumerate()
            .map(|(b, (energy, bin, dirty))| FrameTable {
                block: b,
                energy,
                bin,
                dirty: (b % 2 == 0).then_some(dirty.as_slice()),
                core_frames: (b == 3).then_some(len * 2 / 3),
                hop: 3 + b,
                support_len: [1, 40, 400, 4_000, 90][b],
            })
            .collect();
        tables.push(FrameTable {
            block: 5,
            energy: &comb,
            bin: &comb_bin,
            dirty: None,
            core_frames: None,
            hop: 1,
            support_len: len / 4,
        });
        let everything = 6 * len + 1;
        for k in [1, 2, 3, 8, 40, 200] {
            let one_scan = top_seeds_capped(&tables, k, everything).0;
            assert_eq!(top_seeds(&tables, k), one_scan, "len {len}, k {k}");
        }
    }
}

#[test]
fn empty_inputs_and_zero_k() {
    let bins = [0u32; 0];
    assert!(top_seeds(&[table(0, &[], &bins, 10, 1)], 4).is_empty());
    assert!(top_seeds(&[], 4).is_empty());
    let e = ds(&[1.0]);
    let b1 = [0u32; 1];
    assert!(top_seeds(&[table(0, &e, &b1, 10, 1)], 0).is_empty());
}

/// A seed carries its frame's own bin and onset.
#[test]
fn a_seed_says_where_it_came_from() {
    let e = ds(&[1.0, 3.0, 2.0]);
    let bins = [4u32, 5, 6];
    let seeds = block_seeds(&table(2, &e, &bins, 7, 1), 4);
    assert_eq!(
        seeds,
        vec![Seed { block: 2, frame: 1, bin: 5, onset: 7, energy: d(3.0) }]
    );
}

/// The scan says when its cap cut it short.
#[test]
fn a_capped_scan_says_so() {
    let e = ds(&[5.0, 0.0, 4.0, 0.0, 3.0]);
    let bins = [0u32; 5];
    let (seeds, saturated) = top_seeds_capped(&[table(0, &e, &bins, 1, 1)], 8, 2);
    assert_eq!(seeds.iter().map(|s| s.frame).collect::<Vec<_>>(), vec![0, 2]);
    assert!(saturated);
    let (all, saturated) = top_seeds_capped(&[table(0, &e, &bins, 1, 1)], 8, 9);
    assert_eq!(all.len(), 3);
    assert!(!saturated);
}
