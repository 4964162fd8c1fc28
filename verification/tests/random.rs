use bevy_vm::random::VmRng;
use rand::{Rng, SeedableRng};
use rand_chacha::ChaCha8Rng;

#[test]
fn draws_are_those_of_the_seeded_cipher() {
    for seed in [0, 1, 42, u64::MAX] {
        let mut ours = VmRng::from_seed(seed);
        let mut theirs = ChaCha8Rng::seed_from_u64(seed);
        assert_eq!(ours.key(), theirs.get_seed());
        for i in 0..300i64 {
            let (low, high) = (-i * i, i * 7 + 1);
            assert_eq!(ours.next_i64_range(low, high), theirs.random_range(low..high));
            assert_eq!(ours.position(), theirs.get_word_pos());
        }
        let wide = ours.next_i64_range(i64::MIN, i64::MAX);
        assert_eq!(wide, theirs.random_range(i64::MIN..i64::MAX));
    }
}

#[test]
fn empty_ranges_give_their_lower_end_and_draw_nothing() {
    let mut rng = VmRng::from_seed(7);
    assert_eq!(rng.next_i64_range(5, 5), 5);
    assert_eq!(rng.next_i64_range(9, -9), 9);
    assert_eq!(rng.position(), 0);
}

#[test]
fn draws_can_be_resumed_at_a_position() {
    let mut whole = VmRng::from_seed(3);
    let first: Vec<i64> = (0..10).map(|_| whole.next_i64_range(0, 1000)).collect();
    let mut part = VmRng::from_key(VmRng::from_seed(3).key());
    let again: Vec<i64> = (0..4).map(|_| part.next_i64_range(0, 1000)).collect();
    let mut rest = VmRng::from_key(part.key());
    rest.set_position(part.position());
    let later: Vec<i64> = (0..6).map(|_| rest.next_i64_range(0, 1000)).collect();
    assert_eq!([again, later].concat(), first);
}

#[test]
fn entropy_gives_a_generator_at_its_start() {
    let mut rng = VmRng::from_entropy().expect("the system has entropy");
    assert_eq!(rng.position(), 0);
    let drawn = rng.next_i64_range(0, 10);
    assert!((0..10).contains(&drawn));
}
