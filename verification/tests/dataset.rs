use vectordb::dataset::RNG;

#[test]
fn rng_draws_follow_the_recurrence() {
    let mut rng = RNG::new(42);
    assert_eq!(rng.random_u64(), 10481999410520546993);
    assert_eq!(rng.random_u64(), 4159066171780167020);
    assert_eq!(rng.random_u64(), 7615522811268512075);
}

#[test]
fn rng_from_zero_draws_the_increment() {
    let mut rng = RNG::new(0);
    assert_eq!(rng.random_u64(), 1442695040888963407);
}

#[test]
fn rng_same_seed_same_draws() {
    let mut one = RNG::new(42);
    let mut two = RNG::new(42);
    for _ in 0..1000 {
        assert_eq!(one.random_u24(), two.random_u24());
    }
}

#[test]
fn rng_u24_is_the_top_of_the_draw() {
    let mut rng = RNG::new(42);
    assert_eq!(rng.random_u24(), 9533322);
    assert_eq!(rng.random_u24(), 3782648);
}

#[test]
fn rng_u24_stays_in_unit_range() {
    let mut rng = RNG::new(23);
    for _ in 0..10000 {
        let bits = rng.random_u24();
        assert!(bits < (1 << 24));
        let x = bits as f32 / (1u64 << 24) as f32;
        assert!(x >= 0.0 && x < 1.0, "out of range {x}");
    }
}

#[test]
fn rng_index_is_draw_modulo_n() {
    let mut rng = RNG::new(42);
    assert_eq!(rng.random_index(10), (10481999410520546993u64 % 10) as usize);
    let mut rng = RNG::new(7);
    for _ in 0..1000 {
        assert!(rng.random_index(3) < 3);
    }
}

#[test]
fn rng_different_seeds_differ() {
    let mut one = RNG::new(2);
    let mut two = RNG::new(23);
    for _ in 0..100 {
        assert_ne!(one.random_u64(), two.random_u64());
    }
}
