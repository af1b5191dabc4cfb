use multi_thread::{Backoff, IdGenerator, STEP_LIMIT};

#[test]
fn backoff_light_spins_grow_quadratically_then_cap() {
    let mut b = Backoff::new();
    let mut spins = Vec::new();
    for _ in 0..9 {
        spins.push(b.spin_light());
    }
    assert_eq!(spins, vec![0, 1, 4, 9, 16, 25, 36, 36, 36]);
}

#[test]
fn backoff_completes_after_step_limit() {
    let mut b = Backoff::new();
    for _ in 0..=STEP_LIMIT {
        assert!(!b.is_complete());
        assert!(!b.spin_heavy());
    }
    assert!(b.is_complete());
    assert!(b.spin_heavy());
}

#[test]
fn id_generator_counts_up() {
    let mut g = IdGenerator::new();
    assert_eq!(g.gen_id(), 0);
    assert_eq!(g.gen_id(), 1);
    assert_eq!(g.gen_id(), 2);
}
