use blob_gen::{fill_blob, get_seeded_rng_blob, Rng};

#[test]
fn first_outputs_of_seed_one() {
    assert_eq!(get_seeded_rng_blob(8, 1), vec![16, 48, 192, 73, 89, 251, 136, 132]);
}

#[test]
fn output_is_nibble_swap_of_state() {
    // one step from seed 0b10110010 leaves the square term at 0b10110010
    let mut g = Rng::new(0b10110010);
    assert_eq!(g.next(), 0b00101011);
    assert_eq!(g.next(), 130);
    assert_eq!(g.next(), 101);
}

#[test]
fn same_seed_same_bytes() {
    for seed in [0u8, 1, 2, 77, 128, 255] {
        assert_eq!(get_seeded_rng_blob(300, seed), get_seeded_rng_blob(300, seed));
        let mut a = Rng::new(seed);
        let mut b = Rng::new(seed);
        for _ in 0..300 {
            assert_eq!(a.next(), b.next());
        }
    }
}

#[test]
fn fill_blob_continues_the_generator() {
    let mut g = Rng::new(1);
    let first = fill_blob(3, &mut g);
    let rest = fill_blob(5, &mut g);
    assert_eq!(first, vec![16, 48, 192]);
    assert_eq!(rest, vec![73, 89, 251, 136, 132]);
    assert_eq!(fill_blob(0, &mut g), Vec::<u8>::new());
}

#[test]
fn seeded_blob_has_exact_length() {
    for n in [0usize, 1, 17, 1024] {
        assert_eq!(get_seeded_rng_blob(n, 3).len(), n);
    }
}

#[test]
fn no_short_cycle_for_usual_seeds() {
    for seed in 1u8..=255 {
        if seed == 128 {
            continue;
        }
        let out = get_seeded_rng_blob(1000, seed);
        assert!(out.iter().any(|b| *b != out[0]));
        for p in 1..4 {
            for i in 0..(out.len() - p - 1) {
                assert!(!(out[i] == out[i + p] && out[i + 1] == out[i + p + 1]));
            }
        }
    }
}

#[test]
fn seed_128_alternates() {
    let out = get_seeded_rng_blob(10, 128);
    assert_eq!(out, vec![8, 0, 8, 0, 8, 0, 8, 0, 8, 0]);
}

#[test]
fn seed_zero_stays_at_zero() {
    assert_eq!(get_seeded_rng_blob(5, 0), vec![0, 0, 0, 0, 0]);
}

#[test]
fn nanos_keep_their_low_byte() {
    let mut g = Rng::from_subsec_nanos(0x1234_5678);
    let out: Vec<u8> = (0..5).map(|_| g.next()).collect();
    assert_eq!(out, vec![135, 3, 134, 2, 133]);
    assert_eq!(out, get_seeded_rng_blob(5, 0x78));
}

#[test]
fn clock_seeded_generator_runs() {
    let mut g = Rng::default();
    let out = fill_blob(64, &mut g);
    assert_eq!(out.len(), 64);
}
