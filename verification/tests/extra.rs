use aoc17::day1;
use aoc17::day10;
use aoc17::day13;
use aoc17::day17;
use aoc17::day4;
use aoc17::day5;
use aoc17::knot::Ring;
use aoc17::text;

#[test]
fn parse_u32_round_trips() {
    assert_eq!(text::parse_u32("0"), Some(0));
    assert_eq!(text::parse_u32("123"), Some(123));
    assert_eq!(text::parse_u32("4294967295"), Some(u32::MAX));
    assert_eq!(text::parse_u32("4294967296"), None);
    assert_eq!(text::parse_u32(""), None);
    assert_eq!(text::parse_u32("12a"), None);
}

#[test]
fn parse_i32_handles_signs() {
    assert_eq!(text::parse_i32("-3"), Some(-3));
    assert_eq!(text::parse_i32("+7"), Some(7));
    assert_eq!(text::parse_i32("-2147483648"), Some(i32::MIN));
    assert_eq!(text::parse_i32("2147483648"), None);
    assert_eq!(text::parse_i32("-"), None);
}

#[test]
fn to_decimal_formats() {
    assert_eq!(text::to_decimal(0), "0");
    assert_eq!(text::to_decimal(90210), "90210");
    assert_eq!(text::int_to_decimal(-42), "-42");
    assert_eq!(text::int_to_decimal(7), "7");
}

#[test]
fn split_keeps_empty_fields() {
    let parts = text::split_str("a,,b", ',');
    assert_eq!(parts, vec!["a", "", "b"]);
    let words = text::words_str("1  2 3");
    assert_eq!(words, vec!["1", "2", "3"]);
    assert_eq!(text::split_str("", ','), vec![""]);
}

#[test]
fn fresh_ring_digest_is_all_zero() {
    // Each sixteen-value block of a fresh 256-slot ring XORs to zero, so the
    // digest is 32 zero digits.
    let ring = Ring::new(255);
    assert_eq!(ring.dense_hash(), "00000000000000000000000000000000");
    assert_eq!(ring.dense_hash_bits(), vec![false; 128]);
}

#[test]
fn day1_run_reports_both_parts() {
    let r = day1::Instance.run(vec!["1122".to_string()]).unwrap();
    assert_eq!(r.part1, "3");
    assert_eq!(r.part2, Some("0".to_string()));
}

#[test]
fn day1_run_rejects_bad_input() {
    assert!(day1::Instance.run(vec![]).is_err());
    assert!(day1::Instance.run(vec!["12a".to_string()]).is_err());
}

#[test]
fn day10_run_drives_the_ring() {
    let r = day10::Instance.run(vec!["3,4,1,5".to_string()]).unwrap();
    assert_eq!(r.part1, "2");
    assert!(r.part2.is_some());
}

#[test]
fn day10_run_rejects_oversized_lengths() {
    assert!(day10::Instance.run(vec!["1,2,300".to_string()]).is_err());
    assert!(day10::Instance.run(vec!["1,x".to_string()]).is_err());
}

#[test]
fn day13_run_rejects_bad_layers() {
    assert!(day13::Instance.run(vec!["nope".to_string()]).is_err());
    // A one-slot scanner never moves; the solver refuses it.
    assert!(day13::Instance.run(vec!["0: 1".to_string()]).is_err());
}

#[test]
fn day5_run_matches_example() {
    let lines = vec![
        "0".to_string(),
        "3".to_string(),
        "0".to_string(),
        "1".to_string(),
        "-3".to_string(),
    ];
    let r = day5::Instance.run(lines).unwrap();
    assert_eq!(r.part1, "5");
    assert_eq!(r.part2, Some("10".to_string()));
    assert!(day5::Instance.run(vec!["abc".to_string()]).is_err());
}

#[test]
fn day17_run_matches_example() {
    let r = day17::Instance.run(vec!["3".to_string()]).unwrap();
    assert_eq!(r.part1, "638");
    assert_eq!(r.part2, Some("1222153".to_string()));
}

#[test]
fn day4_run_counts_valid_phrases() {
    let lines = vec![
        "aa bb cc dd ee".to_string(),
        "aa bb cc dd aa".to_string(),
        "abcde xyz ecdab".to_string(),
    ];
    let r = day4::Instance.run(lines).unwrap();
    assert_eq!(r.part1, "2");
    assert_eq!(r.part2, Some("1".to_string()));
}
