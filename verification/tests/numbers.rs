use blue_marble_front::grid::{
    chunk_idx, dist_sq, join_chunk_id, local_chunk_idx, mask_terrain, spawn_chunk_id, tile_chunk_id,
    tile_idx, tile_to_chunk, SIM_H, SIM_TILES, SIM_W,
};
use blue_marble_front::quantity::{one, zero, Quantity};
use blue_marble_front::rng::{rng_next, rng_range, rng_seed};
use blue_marble_front::rounding::round_whole;

fn q(x: f32) -> Quantity {
    Quantity { bits: x.to_bits() }
}

fn samples() -> Vec<f32> {
    vec![
        0.0,
        -0.0,
        1.0,
        -1.0,
        0.99999994,
        1.0000001,
        f32::MIN_POSITIVE,
        -f32::MIN_POSITIVE,
        1.0e-45,
        35_000.0,
        -35_000.0,
        f32::MAX,
        f32::MIN,
        f32::INFINITY,
        f32::NEG_INFINITY,
        f32::NAN,
        -f32::NAN,
    ]
}

#[test]
fn quantities_are_ordered_as_numbers_are() {
    for a in samples() {
        for b in samples() {
            assert_eq!(q(a).less_than(q(b)), a < b, "{a} {b}");
        }
        assert_eq!(q(a).is_nan(), a.is_nan());
    }
}

#[test]
fn zero_and_one_are_themselves() {
    assert_eq!(zero(), q(0.0));
    assert_eq!(one(), q(1.0));
}

#[test]
fn quantities_are_cut_at_zero() {
    for a in samples() {
        let cut = f32::from_bits(q(a).at_least_zero().bits);
        assert_eq!(cut, a.max(0.0));
    }
    assert_eq!(q(-3.5).at_least_zero(), zero());
    assert_eq!(q(3.5).at_least_zero(), q(3.5));
    assert_eq!(q(f32::NAN).at_least_zero(), zero());
}

#[test]
fn quantities_are_cut_at_a_limit() {
    for a in samples() {
        for b in samples() {
            let cut = f32::from_bits(q(a).at_most(q(b)).bits);
            let expected = a.min(b);
            assert!(cut == expected || (cut.is_nan() && expected.is_nan()), "{a} {b}");
        }
    }
    assert_eq!(q(120.0).at_most(q(100.0)), q(100.0));
    assert_eq!(q(80.0).at_most(q(100.0)), q(80.0));
}

#[test]
fn whole_numbers_round_to_single_precision() {
    assert_eq!(round_whole(16_777_216), 16_777_216);
    assert_eq!(round_whole(16_777_217), 16_777_216);
    assert_eq!(round_whole(16_777_219), 16_777_220);
    assert_eq!(round_whole(0xFFFF_FFFF), 0x1_0000_0000);
    let mut n: u128 = 1;
    while n < (1 << 79) {
        for around in 0..40u128 {
            for number in [n + around, n + n / 2 + around, n + n / 3 + around] {
                assert_eq!(round_whole(number), (number as f32) as u128, "{number}");
            }
        }
        n *= 2;
    }
}

#[test]
fn tiles_and_chunks_have_indices() {
    assert_eq!(tile_idx(5, 2), 2705);
    assert_eq!(tile_idx(SIM_W - 1, SIM_H - 1), SIM_TILES - 1);
    assert_eq!(chunk_idx(42, 21), 945);
    assert_eq!(tile_to_chunk(1349, 674), (42, 21, 5, 2));
    assert_eq!(tile_to_chunk(31, 32), (0, 1, 31, 0));
}

#[test]
fn chunk_ids_hold_match_and_index() {
    assert_eq!(join_chunk_id(3, 7), (3 << 32) | 7);
    assert_eq!(join_chunk_id(0x5_0000_0002, 9), (2 << 32) | 9);
    assert_eq!(local_chunk_idx((3 << 32) | 7), 7);
    assert_eq!(local_chunk_idx(join_chunk_id(u64::MAX, 945)), 945);
    assert_eq!(spawn_chunk_id(1, 64, 32), Some((1 << 32) | 45));
    assert_eq!(spawn_chunk_id(1, SIM_W, 0), None);
    assert_eq!(spawn_chunk_id(1, 0, SIM_H), None);
    assert_eq!(tile_chunk_id(1, 32 * SIM_W + 64), Some((1 << 32) | 45));
    assert_eq!(tile_chunk_id(1, SIM_TILES), None);
}

#[test]
fn distances_are_squared() {
    assert_eq!(dist_sq((3, 4), (0, 0)), 25);
    assert_eq!(dist_sq((0, 10), (30, 10)), 900);
    assert_eq!(dist_sq((1349, 0), (0, 674)), 1349 * 1349 + 674 * 674);
}

#[test]
fn terrain_is_ocean_off_the_map() {
    let mut terrain: Vec<u8> = vec![1; SIM_TILES as usize];
    terrain[SIM_W as usize * 3 + 2] = 3;
    assert_eq!(mask_terrain(&terrain, 2, 3), 3);
    assert_eq!(mask_terrain(&terrain, 3, 3), 1);
    assert_eq!(mask_terrain(&terrain, SIM_W, 0), 0);
    assert_eq!(mask_terrain(&terrain, 0, SIM_H), 0);
}

#[test]
fn seeds_are_mixed_and_stepped() {
    assert_eq!(rng_seed(0, 0, 0), 0);
    assert_eq!(rng_seed(1, 2, 3), 9249526305624719822);
    assert_eq!(rng_seed(1 << 63, 1 << 63, 5), 5);
    assert_eq!(rng_next(1), 6364136223846793006);
    assert_eq!(rng_next(u64::MAX), 12082607849862758612);
    assert_eq!(rng_range(1, 1350), (6364136223846793006, 106));
}
