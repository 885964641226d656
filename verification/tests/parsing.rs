use roll_rs::ast::Ast;
use roll_rs::filtermodifier::FilterModifier;
use roll_rs::parser::Parser;
use roll_rs::roll::{OsRandom, RandomSource};
use roll_rs::value::{Rat, Value};
use roll_rs::DEFAULT_SIDES;

struct DeterministicRng {
    value: i64,
}

impl DeterministicRng {
    pub fn new() -> Self {
        Self { value: -1 }
    }
}

impl RandomSource for DeterministicRng {
    fn next_u64(&mut self) -> u64 {
        self.value += 1;
        self.value as u64
    }
}

fn eval(src: &str) -> Value {
    let mut p = Parser::new(src);
    let ast = p.parse().unwrap();
    let mut rolls = Vec::new();
    ast.interp(&mut rolls, &mut OsRandom).unwrap()
}

#[test]
pub fn parser_add() {
    assert_eq!(eval("3 + 5"), Value::Int(8));
}

#[test]
pub fn parser_sub() {
    assert_eq!(eval("3 - 5"), Value::Int(-2));
}

#[test]
pub fn parser_mul() {
    assert_eq!(eval("3 * 5"), Value::Int(15));
}

#[test]
pub fn parser_div() {
    assert_eq!(eval("15/3"), Value::Float(Rat::new(5, 1)));
}

#[test]
pub fn parser_pemdas() {
    assert_eq!(eval("3 * 5 + -5"), Value::Int(10));
}

#[test]
pub fn parser_parens() {
    assert_eq!(eval("3 * (5 + -5)"), Value::Int(0));
}

#[test]
pub fn parser_meme() {
    assert_eq!(eval("6 / 2 * (1 + 2)"), Value::Float(Rat::new(9, 1)));
}

#[test]
pub fn parser_long_sum() {
    assert_eq!(eval("3 + 3 + 3"), Value::Int(9));
}

#[test]
pub fn parser_long_mul() {
    assert_eq!(eval("3 * 3 * 3"), Value::Int(27));
}

#[test]
pub fn parser_idiv() {
    assert_eq!(eval("3 // 5"), Value::Int(0));
}

#[test]
pub fn pow() {
    assert_eq!(eval("5 ** 2"), Value::Int(25));
}

#[test]
pub fn parser_dice_none() {
    let mut p = Parser::new("d");
    let ast = p.parse().unwrap();
    assert_eq!(ast, Ast::Dice(None, None, FilterModifier::Unfiltered, 0));

    let mut rolls = Vec::new();
    let res = ast.interp(&mut rolls, &mut OsRandom).unwrap();

    assert_eq!(rolls.len(), 1);

    let roll = &rolls[0].1;
    assert_eq!(DEFAULT_SIDES, roll.sides.to_string());

    assert_eq!(res, Value::Int(roll.total));
}

#[test]
pub fn parser_dice_6() {
    let mut p = Parser::new("d6");
    let ast = p.parse().unwrap();
    assert_eq!(
        ast,
        Ast::Dice(
            None,
            Some(Box::new(Ast::Const("6".to_string()))),
            FilterModifier::Unfiltered,
            0
        )
    );

    let mut rolls = Vec::new();
    let res = ast.interp(&mut rolls, &mut OsRandom).unwrap();

    assert_eq!(rolls.len(), 1);

    let roll = &rolls[0].1;

    assert_eq!(res, Value::Int(roll.total as i64));
}

#[test]
pub fn parser_dice_3_6() {
    let mut p = Parser::new("3d6");
    let ast = p.parse().unwrap();
    assert_eq!(
        ast,
        Ast::Dice(
            Some(Box::new(Ast::Const("3".to_string()))),
            Some(Box::new(Ast::Const("6".to_string()))),
            FilterModifier::Unfiltered,
            1
        )
    );

    let mut rolls = Vec::new();
    let res = ast.interp(&mut rolls, &mut OsRandom).unwrap();

    assert_eq!(rolls.len(), 1);

    let roll0 = &rolls[0].1.vals[0];
    let roll1 = &rolls[0].1.vals[1];
    let roll2 = &rolls[0].1.vals[2];

    assert_eq!(res, Value::Int((roll0 + roll1 + roll2) as i64));
}

#[test]
pub fn parser_dice_0() {
    let mut p = Parser::new("0d6");
    let ast = p.parse().unwrap();
    assert_eq!(
        ast,
        Ast::Dice(
            Some(Box::new(Ast::Const("0".to_string()))),
            Some(Box::new(Ast::Const("6".to_string()))),
            FilterModifier::Unfiltered,
            1
        )
    );

    let mut rolls = Vec::new();
    let res = ast.interp(&mut rolls, &mut OsRandom).unwrap();

    assert_eq!(rolls.len(), 1);

    assert_eq!(res, Value::Int(0));
}

#[test]
pub fn parser_dice_float() {
    let mut p = Parser::new("3.5d6");
    let ast = p.parse().unwrap();
    assert_eq!(
        ast,
        Ast::Dice(
            Some(Box::new(Ast::Const("3.5".to_string()))),
            Some(Box::new(Ast::Const("6".to_string()))),
            FilterModifier::Unfiltered,
            3
        )
    );

    ast.interp(&mut Vec::new(), &mut OsRandom)
        .expect_err("result was okay");
}

#[test]
pub fn parser_dice_dfloat() {
    let mut p = Parser::new("3d3.5");
    let ast = p.parse().unwrap();
    assert_eq!(
        ast,
        Ast::Dice(
            Some(Box::new(Ast::Const("3".to_string()))),
            Some(Box::new(Ast::Const("3.5".to_string()))),
            FilterModifier::Unfiltered,
            1
        )
    );

    ast.interp(&mut Vec::new(), &mut OsRandom)
        .expect_err("result was okay");
}

#[test]
pub fn parser_dice_d0() {
    let mut p = Parser::new("3d0");
    let ast = p.parse().unwrap();
    assert_eq!(
        ast,
        Ast::Dice(
            Some(Box::new(Ast::Const("3".to_string()))),
            Some(Box::new(Ast::Const("0".to_string()))),
            FilterModifier::Unfiltered,
            1
        )
    );

    ast.interp(&mut Vec::new(), &mut OsRandom)
        .expect_err("result was okay");
}

#[test]
pub fn parser_dice_dpercent() {
    let mut p = Parser::new("d%");
    let ast = p.parse().unwrap();
    assert_eq!(
        ast,
        Ast::Dice(
            None,
            Some(Box::new(Ast::Const("100".to_string()))),
            FilterModifier::Unfiltered,
            0
        )
    );

    let mut rolls = Vec::new();
    let res = ast.interp(&mut rolls, &mut OsRandom).unwrap();

    assert_eq!(rolls.len(), 1);

    let roll = &rolls[0].1;

    assert_eq!(roll.sides, 100);
    assert_eq!(res, Value::Int(roll.total));
}

#[test]
pub fn parser_dice_kl() {
    let mut p = Parser::new("5d%kl");
    let ast = p.parse().unwrap();

    let mut rolls = Vec::new();
    let res = ast.interp(&mut rolls, &mut OsRandom).unwrap();

    assert_eq!(rolls.len(), 1);

    let roll = &rolls[0].1;

    assert_eq!(roll.vals.len(), 1);
    assert_eq!(res, Value::Int(roll.total));
}

#[test]
pub fn compound() {
    let mut p = Parser::new("(3d5)d(5d3)").advanced();
    let _ = p.parse().unwrap();
}

#[test]
fn power_right_associative() {
    assert_eq!(eval("2 ** 3 ** 2"), Value::Int(512));
}

#[test]
fn trailing_characters_rejected() {
    let mut p = Parser::new("3 + 5 )");
    assert!(p.parse().is_err());

    let mut q = Parser::new("3 + 5 ");
    assert!(q.parse().is_ok());
}

#[test]
fn whitespace_skipped_between_tokens() {
    assert_eq!(eval("  3   +   5  "), Value::Int(8));
}

#[test]
fn literal_digits_carry_over() {
    assert_eq!(eval("123"), Value::Int(123));
    assert_eq!(eval("1.5 + 1.5"), Value::Float(Rat::new(3, 1)));
}

#[test]
fn modulo_by_zero_is_an_error() {
    let mut p = Parser::new("5 mod 0");
    let ast = p.parse().unwrap();
    ast.interp(&mut Vec::new(), &mut OsRandom)
        .expect_err("result was okay");
}

#[test]
fn modulo_keyword_and_value() {
    assert_eq!(eval("7 mod 3"), Value::Int(1));
}

#[test]
fn filtered_roll_with_deterministic_rng() {
    let mut p = Parser::new("6d6kh2");
    let ast = p.parse().unwrap();
    let mut rolls = Vec::new();
    let res = ast.interp(&mut rolls, &mut DeterministicRng::new()).unwrap();
    assert_eq!(rolls.len(), 1);
    assert_eq!(rolls[0].1.vals.len(), 2);
    let total: u64 = rolls[0].1.vals.iter().sum();
    assert_eq!(res, Value::Int(total as i64));
}

#[test]
fn failure_reports_expected_digits() {
    let mut p = Parser::new("x");
    let err = p.parse().unwrap_err();
    let text = err.render();
    assert!(text.contains("0-9"));
    assert!(text.contains("tried to parse a number"));
}

#[test]
fn trailing_failure_reports_position_and_message() {
    let mut p = Parser::new("3 + 5 )");
    let err = p.parse().unwrap_err();
    let text = err.render();
    assert!(text.contains("unexpected trailing character(s)"));
    assert!(text.contains("3 + 5 )"));
}

#[test]
fn missing_paren_reports_message() {
    let mut p = Parser::new("(3 + 5");
    let err = p.parse().unwrap_err();
    let text = err.render();
    assert!(text.contains("missing closing parenthesis"));
}

#[test]
fn failure_merges_all_branch_expectations() {
    let mut p = Parser::new("x");
    let err = p.parse().unwrap_err();
    let text = err.render();
    assert!(text.contains("expected any of: [d, (, 0-9]"));
}

#[test]
fn zero_sides_error_leaves_trace_unchanged() {
    let mut p = Parser::new("3d0");
    let ast = p.parse().unwrap();
    let mut rolls = Vec::new();
    let err = ast.interp(&mut rolls, &mut OsRandom).unwrap_err();
    assert_eq!(err, "Can't roll zero sided die");
    assert_eq!(rolls.len(), 0);
}

#[test]
fn float_operand_error_leaves_trace_unchanged() {
    let mut p = Parser::new("3.5d6");
    let ast = p.parse().unwrap();
    let mut rolls = Vec::new();
    let err = ast.interp(&mut rolls, &mut OsRandom).unwrap_err();
    assert_eq!(err, "couldn't be parsed as dice roll (no ints)");
    assert_eq!(rolls.len(), 0);
}

#[test]
fn too_many_dots_message_names_the_literal() {
    let mut p = Parser::new("1.2.3");
    let ast = p.parse().unwrap();
    let err = ast.interp(&mut Vec::new(), &mut OsRandom).unwrap_err();
    assert_eq!(err, "1.2.3 couldn't be parsed as number (too many dots)");
}
