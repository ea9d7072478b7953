use aoc17::knot::knot_hash;
use aoc17::knot::Ring;

#[test]
fn knot_example() {
    let input = vec![3, 4, 1, 5];
    let mut ring = Ring::new(4);
    ring.encode(&input);
    assert_eq!(ring.first_two(), 12)
}

#[test]
fn knot_hash_examples() {
    let examples = vec![
        ("", "a2582a3a0e66e6e86e3812dcb672a272", 60),
        ("AoC 2017", "33efeb34ea91902bb2f59c9920caa6cd", 66),
        ("1,2,3", "3efbe78a8d82f29979031a4aa0b16a9d", 64),
        ("1,2,4", "63960835bcdc130f0b66d7ff4f6a5a8e", 68),
    ];
    for (i, o, b) in examples {
        assert_eq!(knot_hash(i).dense_hash(), o, "input: {}", i);
        assert_eq!(knot_hash(i).dense_hash_bits().len(), 128);
        assert_eq!(
            knot_hash(i)
                .dense_hash_bits()
                .iter()
                .filter(|&&b| b)
                .count(),
            b
        );
    }
}

#[test]
fn dense_hash_rederivation_is_stable() {
    let ring = knot_hash("AoC 2017");
    assert_eq!(ring.dense_hash(), ring.dense_hash());
    assert_eq!(ring.dense_hash_bits(), ring.dense_hash_bits());
}

#[test]
fn encode_keeps_contents_a_permutation() {
    // A 16-slot ring holds 0..=15, whose XOR is 0; scrambling only reorders
    // the values, so the one-byte dense digest stays "00" after any pass.
    let mut ring = Ring::new(15);
    assert_eq!(ring.dense_hash(), "00");
    ring.encode(&vec![5, 7, 16, 3, 0, 1]);
    assert_eq!(ring.dense_hash(), "00");
}

#[test]
fn encode_state_compounds_across_calls() {
    // Two calls differ from one: cursor and skip state persist, so the
    // second pass reverses different segments.
    let mut once = Ring::new(4);
    once.encode(&vec![3, 4, 1, 5]);
    let mut twice = Ring::new(4);
    twice.encode(&vec![3, 4, 1, 5]);
    twice.encode(&vec![3, 4, 1, 5]);
    assert_eq!(once.first_two(), 12);
    assert_ne!(once.first_two(), twice.first_two());

    // And two calls land exactly where one call over the concatenation does.
    let mut joined = Ring::new(4);
    joined.encode(&vec![3, 4, 1, 5, 3, 4, 1, 5]);
    assert_eq!(twice.first_two(), joined.first_two());
}
