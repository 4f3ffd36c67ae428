use num::complex::{Complex32, Complex64};
use psk_modulation::{
    Demodulator, Modulation, ModulationError, Modulator, Phase, PskModulation, Rates, Ratio,
};
use yttria_math::firwin2;
use yttria_math::prelude::{YttriaVectorArithmetic, YttriaVectorComplex, YttriaVectorUtils};

const FULL_TURN: f64 = 4294967296.0;

fn to_complex(phase: Phase) -> Complex64 {
    Complex64::from_polar(1.0, phase.angle as f64 * 2.0 * std::f64::consts::PI / FULL_TURN)
}

fn scheme(bits_per_symbol: usize, sample_rate: u64, bandwidth: u64) -> PskModulation {
    match PskModulation::new(bits_per_symbol, sample_rate, bandwidth) {
        Ok(scheme) => scheme,
        Err(e) => panic!("no scheme: {:?}", e),
    }
}

#[test]
fn test_bpsk_modulate() {
    let psk = scheme(3, 20_000_000, 5_000_000 / 3);
    assert_eq!(psk.samples_per_symbol(), 24);

    let filter: Vec<Complex32> = firwin2(
        psk.samples_per_symbol(),
        &[0.0, 0.5 / 3.0, 0.5 / 3.0, 1.0],
        &[1.0, 1.0, 0.0, 0.0],
        false,
    )
    .as_type();
    assert_eq!(filter.len(), 24);

    let data = b"hello, world!";

    let iq = psk.modulate(data);
    assert_eq!(iq.len(), 35 * 24);
    let iq: Vec<Complex32> = iq
        .iter()
        .map(|p| {
            let c = to_complex(*p);
            Complex32::new(c.re as f32, c.im as f32)
        })
        .collect();
    let iq = iq.convolve(filter.as_slice());

    assert_eq!(iq.len(), 35 * 24);
    assert_eq!(iq.real().len(), iq.imag().len());
}

#[test]
fn bpsk_constellation_is_plus_and_minus_one() {
    let psk = scheme(1, 8, 4);
    let map = psk.symbol_map();
    assert_eq!(map, &[Phase { angle: 0 }, Phase { angle: 0x8000_0000 }]);
    let plus = to_complex(map[0]);
    let minus = to_complex(map[1]);
    assert!((plus - Complex64::new(1.0, 0.0)).norm() < 1e-12);
    assert!((minus - Complex64::new(-1.0, 0.0)).norm() < 1e-12);
}

#[test]
fn bpsk_all_ones_holds_minus_one() {
    let psk = scheme(1, 8, 4);
    let hold = psk.samples_per_symbol();
    assert_eq!(hold, 4);
    let wave = psk.modulate(&[0xFF]);
    assert_eq!(wave.len(), 8 * hold);
    for block in wave.chunks(hold) {
        assert_eq!(block.len(), hold);
        for sample in block {
            assert_eq!(*sample, psk.symbol_map()[1]);
            assert!((to_complex(*sample) - Complex64::new(-1.0, 0.0)).norm() < 1e-12);
        }
    }
}

#[test]
fn letter_a_in_three_bit_symbols() {
    assert_eq!(psk_modulation::symbols::symbol_values(b"A", 3), vec![2, 0, 2]);
    let psk = scheme(3, 6, 4);
    let hold = psk.samples_per_symbol();
    assert_eq!(hold, 3);
    let wave = psk.modulate(b"A");
    assert_eq!(wave.len(), 3 * hold);
    let map = psk.symbol_map();
    let expected = [map[2], map[2], map[2], map[0], map[0], map[0], map[2], map[2], map[2]];
    assert_eq!(wave.as_slice(), &expected);
}

#[test]
fn modulate_into_small_buffer_writes_nothing() {
    let psk = scheme(2, 8, 4);
    let marker = Phase { angle: 12345 };
    let needed = 4 * psk.samples_per_symbol();
    let mut out = vec![marker; needed - 1];
    assert_eq!(psk.modulate_into(&[0x1B], &mut out), Err(ModulationError::BufferTooSmall));
    assert!(out.iter().all(|p| *p == marker));
    let mut none: Vec<Phase> = Vec::new();
    assert_eq!(psk.modulate_into(&[0x1B], &mut none), Err(ModulationError::BufferTooSmall));
}

#[test]
fn modulate_into_exact_and_larger_buffer() {
    let psk = scheme(2, 8, 4);
    let marker = Phase { angle: 12345 };
    let wave = psk.modulate(&[0x1B]);
    let needed = 4 * psk.samples_per_symbol();
    assert_eq!(wave.len(), needed);

    let mut exact = vec![marker; needed];
    assert_eq!(psk.modulate_into(&[0x1B], &mut exact), Ok(()));
    assert_eq!(exact, wave);

    let mut larger = vec![marker; needed + 3];
    assert_eq!(psk.modulate_into(&[0x1B], &mut larger), Ok(()));
    assert_eq!(&larger[..needed], wave.as_slice());
    assert_eq!(&larger[needed..], &[marker, marker, marker]);
}

#[test]
fn modulate_of_nothing_is_nothing() {
    let psk = scheme(2, 8, 4);
    assert_eq!(psk.modulate(&[]), Vec::new());
    let mut out: Vec<Phase> = Vec::new();
    assert_eq!(psk.modulate_into(&[], &mut out), Ok(()));
}

#[test]
fn two_bit_symbols_in_order() {
    // 0x1B is 00 01 10 11: the symbols 0, 1, 2, 3.
    let psk = scheme(2, 2, 4);
    assert_eq!(psk.samples_per_symbol(), 1);
    let map = psk.symbol_map();
    assert_eq!(
        map,
        &[
            Phase { angle: 0x2000_0000 },
            Phase { angle: 0x6000_0000 },
            Phase { angle: 0xA000_0000 },
            Phase { angle: 0xE000_0000 },
        ]
    );
    assert_eq!(psk.modulate(&[0x1B]), map.to_vec());
}

#[test]
fn demodulate_unaligned_is_refused() {
    let psk = scheme(2, 8, 4);
    let hold = psk.samples_per_symbol();
    let mut wave = psk.modulate(&[0x1B]);
    wave.pop();
    assert_eq!(wave.len() % hold, hold - 1);
    assert_eq!(psk.demodulate(&wave), Err(ModulationError::UnalignedInput));
    assert_eq!(psk.demodulate(&wave[..1]), Err(ModulationError::UnalignedInput));
}

#[test]
fn demodulate_empty_is_refused() {
    let psk = scheme(2, 8, 4);
    assert_eq!(psk.demodulate(&[]), Err(ModulationError::EmptyInput));
    let mut out = [7u8; 2];
    assert_eq!(psk.demodulate_into(&[], &mut out), Err(ModulationError::EmptyInput));
    assert_eq!(out, [7u8; 2]);
}

#[test]
fn demodulate_into_buffers() {
    let psk = scheme(4, 8, 4);
    let wave = psk.modulate(b"ok!");

    let mut small = [9u8; 2];
    assert_eq!(psk.demodulate_into(&wave, &mut small), Err(ModulationError::BufferTooSmall));
    assert_eq!(small, [9u8; 2]);

    let mut exact = [9u8; 3];
    assert_eq!(psk.demodulate_into(&wave, &mut exact), Ok(()));
    assert_eq!(&exact, b"ok!");

    let mut larger = [9u8; 5];
    assert_eq!(psk.demodulate_into(&wave, &mut larger), Ok(()));
    assert_eq!(&larger, &[b'o', b'k', b'!', 9, 9]);

    let mut unaligned = [9u8; 5];
    assert_eq!(
        psk.demodulate_into(&wave[1..], &mut unaligned),
        Err(ModulationError::UnalignedInput)
    );
    assert_eq!(unaligned, [9u8; 5]);
}

#[test]
fn demodulate_keeps_the_padding_of_the_last_symbol() {
    // "A" in symbols of 3 bits is 010 000 01(0): nine bits come back.
    let psk = scheme(3, 6, 4);
    let wave = psk.modulate(b"A");
    assert_eq!(psk.demodulate(&wave), Ok(vec![0x41, 0x00]));
    // 20 bits per symbol: 8 bits fill the top of one symbol, 20 bits come back.
    let wide = scheme(20, 2, 4);
    let wave = wide.modulate(&[0xA5]);
    assert_eq!(wave.len(), 1);
    assert_eq!(wave[0], wide.symbol_map()[0xA5000]);
    assert_eq!(wide.demodulate(&wave), Ok(vec![0xA5, 0, 0]));
}

fn pseudo_random_bytes(count: usize, seed: u64) -> Vec<u8> {
    let mut state = seed;
    let mut bytes = Vec::with_capacity(count);
    for _ in 0..count {
        state = state.wrapping_mul(6364136223846793005).wrapping_add(1442695040888963407);
        bytes.push((state >> 33) as u8);
    }
    bytes
}

#[test]
fn round_trip_for_one_to_four_bits() {
    for bits_per_symbol in 1..=4usize {
        let psk = scheme(bits_per_symbol, 6, 4);
        for len in 1..=24usize {
            if (8 * len) % bits_per_symbol != 0 {
                continue;
            }
            let data = pseudo_random_bytes(len, (bits_per_symbol * 1000 + len) as u64);
            let wave = psk.modulate(&data);
            assert_eq!(wave.len(), 8 * len / bits_per_symbol * 3);
            assert_eq!(psk.demodulate(&wave), Ok(data));
        }
    }
}

#[test]
fn round_trip_for_wider_symbols() {
    for bits_per_symbol in [5usize, 6, 7, 8, 12] {
        let psk = scheme(bits_per_symbol, 2, 2);
        let data = pseudo_random_bytes(3 * bits_per_symbol, bits_per_symbol as u64);
        let wave = psk.modulate(&data);
        assert_eq!(psk.demodulate(&wave), Ok(data));
    }
}

#[test]
fn round_trip_with_padding_brings_zero_bytes() {
    let psk = scheme(7, 2, 2);
    let data = pseudo_random_bytes(5, 99);
    // 40 bits are 6 symbols of 7 bits: 42 bits come back, in 6 bytes.
    let mut expected = data.clone();
    expected.push(0);
    assert_eq!(psk.demodulate(&psk.modulate(&data)), Ok(expected));
}

#[test]
fn demodulate_tolerates_jitter_within_a_block() {
    let psk = scheme(2, 8, 4);
    let mut wave = psk.modulate(&[0x1B]);
    for (i, sample) in wave.iter_mut().enumerate() {
        let jitter = [0x0100_0000u32, 0xFF00_0000, 0x0200_0000, 0xFE80_0000][i % 4];
        sample.angle = sample.angle.wrapping_add(jitter);
    }
    assert_eq!(psk.demodulate(&wave), Ok(vec![0x1B]));
}

#[test]
fn constellation_sizes_and_magnitudes() {
    for bits_per_symbol in 1..=8usize {
        let psk = scheme(bits_per_symbol, 2, 2);
        let map = psk.symbol_map();
        assert_eq!(map.len(), 1 << bits_per_symbol);
        for point in map {
            assert!((to_complex(*point).norm() - 1.0).abs() < 1e-12);
        }
    }
}

#[test]
fn constellation_offset_and_spacing() {
    for bits_per_symbol in 1..=8usize {
        let psk = scheme(bits_per_symbol, 2, 2);
        let map = psk.symbol_map();
        let step = (1u64 << 32 >> bits_per_symbol) as u32;
        let first = if bits_per_symbol % 2 == 0 { step / 2 } else { 0 };
        assert_eq!(map[0].angle, first);
        for pair in map.windows(2) {
            assert_eq!(pair[1].angle - pair[0].angle, step);
        }
        assert_eq!(map[map.len() - 1].angle.wrapping_add(step), first);

        let angle = to_complex(map[0]).arg();
        let expected = if bits_per_symbol % 2 == 0 {
            std::f64::consts::PI / (1u64 << bits_per_symbol) as f64
        } else {
            0.0
        };
        assert!((angle - expected).abs() < 1e-12);
    }
}

#[test]
fn timing_follows_from_the_rates() {
    let psk = scheme(3, 20_000_000, 1_666_666);
    assert_eq!(psk.sample_rate(), 20_000_000);
    assert_eq!(psk.bits_per_symbol(), 3);
    assert_eq!(psk.symbol_period(), Ratio { numer: 2, denom: 1_666_666 });
    assert_eq!(psk.bitrate(), Ratio { numer: 4_999_998, denom: 2 });
    assert_eq!(psk.samples_per_symbol(), 24);

    let rounded = scheme(2, 7, 4);
    assert_eq!(rounded.samples_per_symbol(), 3);
    assert_eq!(rounded.bitrate(), Ratio { numer: 8, denom: 2 });

    let fast = scheme(16, u64::MAX, u64::MAX);
    assert_eq!(fast.samples_per_symbol(), 2);
    assert_eq!(fast.symbol_period(), Ratio { numer: 2, denom: u64::MAX as u128 });
    assert_eq!(fast.bitrate(), Ratio { numer: 16 * (u64::MAX as u128), denom: 2 });
}

#[test]
fn invalid_rates_are_refused() {
    let invalid = |m: usize, rate: u64, bandwidth: u64| {
        matches!(PskModulation::new(m, rate, bandwidth), Err(ModulationError::InvalidParameter))
    };
    assert!(invalid(0, 8, 4));
    assert!(invalid(31, 8, 4));
    assert!(invalid(usize::MAX, 8, 4));
    assert!(invalid(2, 0, 4));
    assert!(invalid(2, 8, 0));
    assert!(invalid(2, 1, 3));
    assert!(invalid(2, u64::MAX, 1));
    assert!(PskModulation::new(2, 2, 4).is_ok());
    assert!(PskModulation::new(1, 8, 4).is_ok());
    assert!(PskModulation::new(16, 8, 4).is_ok());
}

#[test]
fn checked_samples_per_symbol_of_rates() {
    let rates = Rates { bits_per_symbol: 4, sample_rate: 48_000, bandwidth: 9_000 };
    assert_eq!(rates.checked_samples_per_symbol(), Ok(10));
    let slow = Rates { bits_per_symbol: 4, sample_rate: 4, bandwidth: 9 };
    assert_eq!(slow.checked_samples_per_symbol(), Err(ModulationError::InvalidParameter));
    let none = Rates { bits_per_symbol: 0, sample_rate: 48_000, bandwidth: 9_000 };
    assert_eq!(none.checked_samples_per_symbol(), Err(ModulationError::InvalidParameter));
}

#[test]
fn symbol_decisions_of_a_waveform() {
    let psk = scheme(3, 4, 4);
    let wave = psk.modulate(b"A");
    assert_eq!(psk.symbol_decisions(&wave), vec![2, 0, 2]);
    assert_eq!(psk.symbol_decisions(&wave[..5]), vec![2, 0]);
    assert_eq!(psk.symbol_decisions(&[]), Vec::<usize>::new());
}
