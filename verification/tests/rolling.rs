use roll_rs::filtermodifier::FilterModifier;
use roll_rs::roll::{roll_die, roll_direction, direction_name, select_faces, OsRandom, RandomSource};
use roll_rs::{inplace_interp, roll_inline, roll_stats, value_string};
use roll_rs::value::Value;

struct DeterministicRng {
    value: i64,
}

impl DeterministicRng {
    pub fn new() -> Self {
        Self { value: -1 }
    }
}

impl RandomSource for DeterministicRng {
    fn next_u64(&mut self) -> u64 {
        self.value += 1;
        self.value as u64
    }
}

#[test]
fn test_kl() {
    let roll = roll_die(
        6,
        6,
        FilterModifier::KeepLowest(3),
        &mut DeterministicRng::new(),
    );

    assert_eq!(roll.vals.len(), 3);
    assert_eq!(roll.total, 6);
}

#[test]
fn test_dl_overflow() {
    let roll = roll_die(
        100,
        6,
        FilterModifier::DropLowest(300),
        &mut DeterministicRng::new(),
    );
    assert_eq!(roll.vals.len(), 0);
    assert_eq!(roll.total, 0);
}

#[test]
fn test_inplace() {
    println!("{}", inplace_interp("4d8 + 2d8", false));
}

#[test]
fn drop_highest_keeps_the_rest() {
    let roll = roll_die(
        5,
        6,
        FilterModifier::DropHighest(2),
        &mut DeterministicRng::new(),
    );
    assert_eq!(roll.vals.len(), 3);
    let sum: u64 = roll.vals.iter().sum();
    assert_eq!(roll.total, sum as i64);
}

#[test]
fn keep_highest_caps_at_rolled() {
    let roll = roll_die(
        2,
        6,
        FilterModifier::KeepHighest(10),
        &mut DeterministicRng::new(),
    );
    assert_eq!(roll.vals.len(), 2);
    for v in &roll.vals {
        assert!(*v >= 1 && *v <= 6);
    }
}

#[test]
fn direction_is_a_compass_point() {
    let dir = roll_direction(&mut OsRandom);
    let names = [
        "North",
        "North East",
        "East",
        "South East",
        "South",
        "South West",
        "West",
        "North West",
        "Stay",
    ];
    assert!(names.contains(&dir.as_str()));
}

#[test]
fn stats_yields_six_lines() {
    let text = roll_stats();
    assert_eq!(text.lines().count(), 6);
}

#[test]
fn inline_reports_parse_failure() {
    assert!(roll_inline("3 +", false).is_err());
    assert!(roll_inline("(3d5)d(5d3)", true).is_ok());
}

#[test]
fn value_text_is_exact_for_integers() {
    assert_eq!(value_string(Value::Int(-17)), "-17");
    assert_eq!(value_string(Value::Int(0)), "0");
}

#[test]
fn selection_keeps_the_lowest() {
    let out = select_faces(vec![5, 3, 1, 4], FilterModifier::KeepLowest(2));
    assert_eq!(out, vec![1, 3]);
}

#[test]
fn selection_drops_the_lowest() {
    let out = select_faces(vec![5, 3, 1, 4], FilterModifier::DropLowest(1));
    assert_eq!(out, vec![3, 4, 5]);
}

#[test]
fn selection_keeps_the_highest() {
    let out = select_faces(vec![2, 6, 4], FilterModifier::KeepHighest(2));
    assert_eq!(out, vec![4, 6]);
    let none = select_faces(vec![2, 6, 4], FilterModifier::DropHighest(9));
    assert_eq!(none.len(), 0);
}

#[test]
fn direction_names_follow_totals() {
    assert_eq!(direction_name(1), "North");
    assert_eq!(direction_name(5), "South");
    assert_eq!(direction_name(9), "Stay");
}

#[test]
fn inline_layout_is_exact_for_dice_free_sources() {
    assert_eq!(inplace_interp("1 + 2", false), "1 + 2 =  = 3");
    assert_eq!(inplace_interp("15/3", false), "15/3 =  = 15/3");
}

#[test]
fn stats_lines_hold_three_faces_and_their_sum() {
    let text = roll_stats();
    let mut count = 0;
    for line in text.lines() {
        let (total, rest) = line.split_once(": [").expect("score line layout");
        let total: i64 = total.parse().unwrap();
        let vals: Vec<i64> = rest
            .trim_end_matches(']')
            .split(", ")
            .map(|v| v.parse().unwrap())
            .collect();
        assert_eq!(vals.len(), 3);
        for v in &vals {
            assert!(*v >= 1 && *v <= 6);
        }
        assert_eq!(total, vals.iter().sum::<i64>());
        count += 1;
    }
    assert_eq!(count, 6);
}
