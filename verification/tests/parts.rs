use psk_modulation::constellation::{build_constellation, nearest_point};
use psk_modulation::phase::block_mean;
use num::complex::Complex32;
use psk_modulation::symbols::{hold_into, spell_symbols, symbol_values};
use psk_modulation::{ModulationError, Phase};

fn phases(angles: &[u32]) -> Vec<Phase> {
    angles.iter().map(|a| Phase { angle: *a }).collect()
}

#[test]
fn distance_goes_the_short_way_round() {
    let at = |angle: u32| Phase { angle };
    assert_eq!(at(0).distance(at(0)), 0);
    assert_eq!(at(10).distance(at(3)), 7);
    assert_eq!(at(3).distance(at(10)), 7);
    assert_eq!(at(0).distance(at(0x8000_0000)), 0x8000_0000);
    assert_eq!(at(0x8000_0000).distance(at(0)), 0x8000_0000);
    assert_eq!(at(0).distance(at(0x8000_0001)), 0x7FFF_FFFF);
    assert_eq!(at(0xFFFF_FFFF).distance(at(1)), 2);
    assert_eq!(at(1).distance(at(0xFFFF_FFFF)), 2);
}

#[test]
fn mean_of_a_block() {
    assert_eq!(block_mean(&[]), None);
    assert_eq!(block_mean(&phases(&[77])), Some(Phase { angle: 77 }));
    assert_eq!(block_mean(&phases(&[100, 100, 100])), Some(Phase { angle: 100 }));
    assert_eq!(block_mean(&phases(&[100, 104, 102])), Some(Phase { angle: 102 }));
    // The mean deviation from the first sample is rounded down.
    assert_eq!(block_mean(&phases(&[100, 101])), Some(Phase { angle: 100 }));
    assert_eq!(block_mean(&phases(&[100, 99])), Some(Phase { angle: 99 }));
}

#[test]
fn mean_of_a_block_across_the_wrap() {
    assert_eq!(block_mean(&phases(&[0xFFFF_FFFE, 2])), Some(Phase { angle: 0 }));
    assert_eq!(block_mean(&phases(&[2, 0xFFFF_FFFE])), Some(Phase { angle: 0 }));
    assert_eq!(block_mean(&phases(&[0, 0xFFFF_FFFC])), Some(Phase { angle: 0xFFFF_FFFE }));
    // Half a turn ahead counts as half a turn behind.
    assert_eq!(block_mean(&phases(&[0, 0x8000_0000])), Some(Phase { angle: 0xC000_0000 }));
}

#[test]
fn nearest_point_takes_the_lowest_index_of_a_tie() {
    let points = phases(&[0x2000_0000, 0x6000_0000, 0xA000_0000, 0xE000_0000]);
    assert_eq!(nearest_point(&[], Phase { angle: 5 }), None);
    assert_eq!(nearest_point(&points, Phase { angle: 0x2000_0000 }), Some(0));
    assert_eq!(nearest_point(&points, Phase { angle: 0x5FFF_FFFF }), Some(1));
    assert_eq!(nearest_point(&points, Phase { angle: 0xF000_0000 }), Some(3));
    // Halfway between two points the lower index wins.
    assert_eq!(nearest_point(&points, Phase { angle: 0x4000_0000 }), Some(0));
    assert_eq!(nearest_point(&points, Phase { angle: 0x8000_0000 }), Some(1));
    assert_eq!(nearest_point(&points, Phase { angle: 0 }), Some(0));
    let twice = phases(&[9, 9, 9]);
    assert_eq!(nearest_point(&twice, Phase { angle: 1000 }), Some(0));
}

#[test]
fn constellation_for_few_bits() {
    assert_eq!(build_constellation(0), Ok(phases(&[0x8000_0000])));
    assert_eq!(build_constellation(1), Ok(phases(&[0, 0x8000_0000])));
    assert_eq!(
        build_constellation(2),
        Ok(phases(&[0x2000_0000, 0x6000_0000, 0xA000_0000, 0xE000_0000]))
    );
    assert_eq!(
        build_constellation(3),
        Ok(phases(&[
            0,
            0x2000_0000,
            0x4000_0000,
            0x6000_0000,
            0x8000_0000,
            0xA000_0000,
            0xC000_0000,
            0xE000_0000
        ]))
    );
}

#[test]
fn constellation_for_too_many_bits() {
    assert_eq!(build_constellation(31), Err(ModulationError::InvalidParameter));
    assert_eq!(build_constellation(64), Err(ModulationError::InvalidParameter));
    assert_eq!(build_constellation(usize::MAX), Err(ModulationError::InvalidParameter));
}

#[test]
fn constellation_of_sixteen_bits() {
    let points = match build_constellation(16) {
        Ok(points) => points,
        Err(e) => panic!("no constellation: {:?}", e),
    };
    assert_eq!(points.len(), 65536);
    assert_eq!(points[0].angle, 0x8000);
    assert_eq!(points[1].angle, 0x1_8000);
    assert_eq!(points[65535].angle, 0xFFFF_8000);
}

#[test]
fn symbol_values_most_significant_bit_first() {
    assert_eq!(symbol_values(&[], 3), Vec::<usize>::new());
    assert_eq!(symbol_values(&[0xFF], 1), vec![1; 8]);
    assert_eq!(symbol_values(&[0x80], 1), vec![1, 0, 0, 0, 0, 0, 0, 0]);
    assert_eq!(symbol_values(&[0x1B], 2), vec![0, 1, 2, 3]);
    assert_eq!(symbol_values(&[0xA5, 0x3C], 4), vec![0xA, 0x5, 0x3, 0xC]);
    assert_eq!(symbol_values(&[0xA5, 0x3C], 8), vec![0xA5, 0x3C]);
    assert_eq!(symbol_values(&[0xA5, 0x3C], 16), vec![0xA53C]);
}

#[test]
fn symbol_values_pad_the_last_symbol_with_zeros() {
    assert_eq!(symbol_values(&[0x41], 3), vec![2, 0, 2]);
    assert_eq!(symbol_values(&[0xFF], 3), vec![7, 7, 6]);
    assert_eq!(symbol_values(&[0xFF], 5), vec![31, 28]);
    assert_eq!(symbol_values(&[0xFF], 30), vec![0xFF << 22]);
    assert_eq!(symbol_values(&[0x01, 0x02, 0x03, 0x07], 30), vec![0x0040_80C1, 0x3000_0000]);
}

#[test]
fn spelling_symbols_as_bits() {
    assert_eq!(spell_symbols(&[], 4), Vec::<u8>::new());
    assert_eq!(spell_symbols(&[2, 0, 2], 3), vec![0, 1, 0, 0, 0, 0, 0, 1, 0]);
    assert_eq!(spell_symbols(&[0xA, 0x5], 4), vec![1, 0, 1, 0, 0, 1, 0, 1]);
    assert_eq!(spell_symbols(&[1, 0, 1], 1), vec![1, 0, 1]);
    // Only the low places of a value are spelt.
    assert_eq!(spell_symbols(&[0xFD], 2), vec![0, 1]);
}

#[test]
fn holding_points_of_any_kind() {
    let table = [Complex32::new(1.0, 0.0), Complex32::new(-1.0, 0.0)];
    let blank = Complex32::new(0.0, 0.0);

    let mut out = [blank; 7];
    assert_eq!(hold_into(&table, &[1, 0, 1], 2, &mut out), Ok(()));
    assert_eq!(out, [table[1], table[1], table[0], table[0], table[1], table[1], blank]);

    let mut short = [blank; 5];
    assert_eq!(hold_into(&table, &[1, 0, 1], 2, &mut short), Err(ModulationError::BufferTooSmall));
    assert_eq!(short, [blank; 5]);

    let mut letters = ['-'; 4];
    assert_eq!(hold_into(&['a', 'b', 'c'], &[2, 0], 2, &mut letters), Ok(()));
    assert_eq!(letters, ['c', 'c', 'a', 'a']);
}

#[test]
fn holding_for_no_sample_or_no_symbol() {
    let mut out = [9u8; 2];
    assert_eq!(hold_into(&[1u8, 2], &[1, 1, 1], 0, &mut out), Ok(()));
    assert_eq!(out, [9, 9]);
    assert_eq!(hold_into(&[1u8, 2], &[], 5, &mut out), Ok(()));
    assert_eq!(out, [9, 9]);
    let mut none: [u8; 0] = [];
    assert_eq!(
        hold_into(&[1u8, 2], &[1], usize::MAX, &mut none),
        Err(ModulationError::BufferTooSmall)
    );
    assert_eq!(
        hold_into(&[1u8, 2], &[1, 1, 1], usize::MAX, &mut out),
        Err(ModulationError::BufferTooSmall)
    );
}
