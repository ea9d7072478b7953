use aoc17::day1;
use aoc17::day11;
use aoc17::day13;
use aoc17::day15;
use aoc17::day17;
use aoc17::day2;
use aoc17::day4;
use aoc17::day5;
use aoc17::day6;

#[test]
fn day1_it_parses_numbers() {
    let lines = vec!["1234".to_string()];
    assert_eq!(day1::parse(lines).unwrap(), vec![1, 2, 3, 4])
}

#[test]
fn day1_examples() {
    let examples = vec![("1122", 3), ("1111", 4), ("1234", 0), ("91212129", 9)];

    for e in examples.into_iter() {
        let p = day1::parse(vec![e.0.to_string()]).unwrap();
        assert_eq!(day1::add_if_match(&p, 1), e.1)
    }

    let examples = vec![
        ("1212", 6),
        ("1221", 0),
        ("123425", 4),
        ("123123", 12),
        ("12131415", 4),
    ];

    for e in examples.into_iter() {
        let p = day1::parse(vec![e.0.to_string()]).unwrap();
        assert_eq!(day1::add_if_match(&p, p.len() / 2), e.1)
    }
}

#[test]
fn day2_it_parses_numbers() {
    assert_eq!(
        day2::parse(&vec!["1  2 3  4".to_string(), "5 6 7".to_string()]).unwrap(),
        vec![vec![1, 2, 3, 4], vec![5, 6, 7]]
    )
}

#[test]
fn it_gives_checksum() {
    let example = vec![vec![5, 1, 9, 5], vec![7, 5, 3], vec![2, 4, 6, 8]];
    assert_eq!(day2::checksum(&example), 18)
}

#[test]
fn it_gives_checksum_divisible() {
    let example = vec![vec![5, 9, 2, 8], vec![9, 4, 7, 3], vec![3, 8, 6, 5]];
    assert_eq!(day2::checksum_divisible(&example), 9)
}

#[test]
fn test_valid() {
    assert!(day4::is_valid(&"aa bb cc dd ee".to_owned()));
    assert!(!day4::is_valid(&"aa bb cc dd aa".to_owned()));
    assert!(day4::is_valid(&"aa bb cc dd aaa".to_owned()));
}

#[test]
fn test_valid_anagram() {
    assert!(day4::is_valid_anagram(&"abcde fghij".to_owned()));
    assert!(!day4::is_valid_anagram(&"abcde xyz ecdab".to_owned()));
    assert!(day4::is_valid_anagram(&"a ab abc abd abf abj".to_owned()));
    assert!(day4::is_valid_anagram(&"iiii oiii ooii oooi oooo".to_owned()));
    assert!(!day4::is_valid_anagram(&"oiii ioii iioi iiio".to_owned()));
}

#[test]
fn day5_example() {
    let mut i = day5::Instructions(vec![0, 3, 0, 1, -3]);
    assert_eq!(i.steps(false), Some(5));

    let mut i = day5::Instructions(vec![0, 3, 0, 1, -3]);
    assert_eq!(i.steps(true), Some(10));
}

#[test]
fn day6_example() {
    assert_eq!(
        day6::Memory(vec![0, 2, 7, 0]).redistribute_cycle(),
        Some((5, 4))
    )
}

use aoc17::day3;
use aoc17::day8;
use day11::Direction;

#[test]
fn it_gives_correct_steps() {
    assert_eq!(day3::steps(1), 0);
    assert_eq!(day3::steps(12), 3);
    assert_eq!(day3::steps(23), 2);
    assert_eq!(day3::steps(1024), 31);
}

#[test]
fn it_gives_correct_allocation() {
    assert_eq!(day3::allocate(1), Some(2));
    assert_eq!(day3::allocate(804), Some(806));
}

#[test]
fn it_parses_instructions() {
    assert_eq!(
        day8::parse_instruction("b inc 5 if a > 1"),
        Ok(day8::Instruction {
            reg: "b".to_owned(),
            inc: true,
            amount: 5,
            cond_reg: "a".to_owned(),
            cond_type: day8::Cond::Gt,
            cond_amount: 1
        })
    )
}

#[test]
fn day8_example() {
    let input = vec![
        "b inc 5 if a > 1",
        "a inc 1 if b < 5",
        "c dec -10 if a >= 1",
        "c inc -20 if c == 10",
    ];
    let parsed = input
        .iter()
        .map(|i| day8::parse_instruction(i))
        .collect::<Result<Vec<_>, _>>()
        .unwrap();

    let mut computer = day8::Computer::new();
    computer.run(&parsed);
    assert_eq!(computer.get_reg("a"), 1);
    assert_eq!(computer.get_reg("b"), 0);
    assert_eq!(computer.get_reg("c"), -10);
    assert_eq!(computer.max_reg(), 1);
    assert_eq!(computer.max_ever, 10);
}

#[test]
fn day11_examples() {
    let examples = vec![
        (vec![Direction::NE, Direction::NE, Direction::NE], 3),
        (
            vec![Direction::NE, Direction::NE, Direction::SW, Direction::SW],
            0,
        ),
        (
            vec![Direction::NE, Direction::NE, Direction::S, Direction::S],
            2,
        ),
        (
            vec![
                Direction::SE,
                Direction::SW,
                Direction::SE,
                Direction::SW,
                Direction::SW,
            ],
            3,
        ),
    ];
    for (directions, distance) in examples {
        let mut grid = day11::HexGrid::new();
        for dir in directions {
            grid.move_dir(dir);
        }
        assert_eq!(grid.distance(), distance);
    }
}

#[test]
fn parse_input() {
    let input = vec![
        "0: 3".to_owned(),
        "1: 2".to_owned(),
        "4: 4".to_owned(),
        "6: 4".to_owned(),
    ];
    let firewall = day13::parse(&input).unwrap();
    assert_eq!(firewall.severity(), 24);
    assert_eq!(firewall.delay(), Some(10));
}

#[test]
fn day15_example() {
    let input = vec![
        "Generator A starts with 65".to_string(),
        "Generator B starts with 8921".to_string(),
    ];
    let generators = day15::parse(&input).unwrap();
    assert_eq!(day15::part1(generators.clone()), 588);
    assert_eq!(day15::part2(generators), Some(309));
}

#[test]
fn test_part1() {
    assert_eq!(day17::part1(3), 638);
    assert_eq!(day17::part2(3), 1222153);
}
