//! Dice-notation calculator: a recursive-descent parser for arithmetic
//! expressions extended with a `d` dice operator and keep/drop filter
//! modifiers, an evaluator over exact integer/rational values, and a
//! dice-rolling engine driven by an injected random source.

pub mod ast;
pub mod filtermodifier;
pub mod interpreter;
pub mod parse_spec;
pub mod parser;
pub mod roll;
pub mod options;
pub mod text;
pub mod value;

pub use ast::Ast;
pub use filtermodifier::FilterModifier;
pub use options::Options;
pub use parser::Parser;
pub use roll::{Roll, RandomSource, OsRandom, roll_die, roll_direction};
pub use value::{Value, Rat};

use vstd::prelude::*;
use crate::interpreter::{no_dice, eval_spec, count_dots, all_digits, digits_val, const_spec};
use crate::parse_spec::{sp_parse, sp_sum, PRes};
use crate::roll::{seq_sum, filter_count, roll_wf};
use crate::text::{str_to_chars, chars_to_string, i64_string, u64_chars, i64_dec, u64_dec};

verus! {

/// Number of sides a die has when the notation gives none (bare `d`).
pub const DEFAULT_SIDES: &'static str = "20";

/// How a value reads as text: an integer as its decimal digits, a
/// rational as numerator, slash, denominator.
pub open spec fn value_render(v: Value) -> Seq<char> {
    match v {
        Value::Int(i) => i64_dec(i),
        Value::Float(rt) => i64_dec(rt.num) + seq!['/'] + i64_dec(rt.den),
    }
}

/// A value rendered as text, exactly as [`value_render`] lays it out.
pub fn value_string(v: Value) -> (r: String)
    ensures
        r@ == value_render(v),
{
    match v {
        Value::Int(i) => i64_string(i),
        Value::Float(rt) => {
            let mut out: Vec<char> = str_to_chars(i64_string(rt.num).as_str());
            out.push('/');
            let mut dn: Vec<char> = str_to_chars(i64_string(rt.den).as_str());
            out.append(&mut dn);
            proof {
                assert(out@ =~= value_render(v));
            }
            chars_to_string(&out)
        },
    }
}

/// The first `k` face values, comma-separated.
pub open spec fn faces_list(vals: Seq<u64>, k: int) -> Seq<char>
    decreases k,
{
    if k <= 0 {
        seq![]
    } else if k == 1 {
        u64_dec(vals[0])
    } else {
        faces_list(vals, k - 1) + seq![',', ' '] + u64_dec(vals[k - 1])
    }
}

/// One roll's surviving face values as a bracketed list.
pub open spec fn vals_render(vals: Seq<u64>) -> Seq<char> {
    seq!['['] + faces_list(vals, vals.len() as int) + seq![']']
}

/// The surviving face values of one roll, rendered as a bracketed list.
fn vals_string_chars(vals: &Vec<u64>) -> (r: Vec<char>)
    ensures
        r@ == vals_render(vals@),
{
    let mut out: Vec<char> = Vec::new();
    out.push('[');
    let n: usize = vals.len();
    let mut i: usize = 0;
    while i < n
        invariant
            i <= n,
            n == vals@.len(),
            out@ == seq!['['] + faces_list(vals@, i as int),
        decreases n - i,
    {
        if i > 0 {
            out.push(',');
            out.push(' ');
        }
        let mut d: Vec<char> = u64_chars(vals[i]);
        out.append(&mut d);
        i = i + 1;
        proof {
            assert(out@ =~= seq!['['] + faces_list(vals@, i as int));
        }
    }
    out.push(']');
    proof {
        assert(out@ =~= vals_render(vals@));
    }
    out
}

/// The first `k` rolls' value lists, joined by ` + `.
pub open spec fn rolls_render(rolls: Seq<(u64, Roll)>, k: int) -> Seq<char>
    decreases k,
{
    if k <= 0 {
        seq![]
    } else if k == 1 {
        vals_render(rolls[0].1.vals@)
    } else {
        rolls_render(rolls, k - 1) + seq![' ', '+', ' '] + vals_render(rolls[k - 1].1.vals@)
    }
}

/// The inline layout: the source text, then the rolled values of each dice
/// node in evaluation order, then the total, separated by ` = `.
pub open spec fn inline_render(src: Seq<char>, rolls: Seq<(u64, Roll)>, total: Value) -> Seq<
    char,
> {
    src + seq![' ', '=', ' '] + rolls_render(rolls, rolls.len() as int) + seq![' ', '=', ' ']
        + value_render(total)
}

/// Renders the inline layout into characters, exactly as
/// [`inline_render`] lays it out.
fn inline_chars(s: &str, rolls: &Vec<(u64, Roll)>, total: Value) -> (out: Vec<char>)
    ensures
        out@ == inline_render(s@, rolls@, total),
{
    let mut tail: Vec<char> = Vec::new();
    tail.push(' ');
    tail.push('=');
    tail.push(' ');
    let n: usize = rolls.len();
    let mut i: usize = 0;
    proof {
        assert(tail@ =~= seq![' ', '=', ' '] + rolls_render(rolls@, 0));
    }
    while i < n
        invariant
            i <= n,
            n == rolls@.len(),
            tail@ == seq![' ', '=', ' '] + rolls_render(rolls@, i as int),
        decreases n - i,
    {
        if i > 0 {
            tail.push(' ');
            tail.push('+');
            tail.push(' ');
        }
        let entry = &rolls[i];
        let mut vs: Vec<char> = vals_string_chars(&entry.1.vals);
        tail.append(&mut vs);
        i = i + 1;
        proof {
            assert(tail@ =~= seq![' ', '=', ' '] + rolls_render(rolls@, i as int));
        }
    }
    tail.push(' ');
    tail.push('=');
    tail.push(' ');
    let mut tv: Vec<char> = str_to_chars(value_string(total).as_str());
    tail.append(&mut tv);
    let mut out: Vec<char> = str_to_chars(s);
    out.append(&mut tail);
    proof {
        assert(out@ =~= inline_render(s@, rolls@, total));
    }
    out
}

/// Parses a source under the given mode flag; the outcome is the one the
/// spec-level parse gives.
fn parse_source(s: &str, advanced: bool) -> (r: Result<Ast, Options>)
    ensures
        r matches Ok(ast) ==> sp_parse(s@, advanced) == Option::Some(ast@),
        r is Err ==> sp_parse(s@, advanced) is None,
{
    let p0 = Parser::new(s);
    let mut p = if advanced {
        p0.advanced()
    } else {
        p0
    };
    p.parse()
}

/// Evaluates a tree against the process-wide random source.  For a
/// dice-free tree the trace is untouched and the outcome is exactly what
/// [`eval_spec`] gives; any roll performed appends to the trace.
fn eval_ast(ast: Ast, rolls: &mut Vec<(u64, Roll)>) -> (r: Result<Value, String>)
    ensures
        no_dice(ast@) ==> (final(rolls)@ == old(rolls)@ && crate::value::ov_match(
            eval_spec(ast@),
            r,
        )),
{
    let mut rng = OsRandom;
    ast.interp(rolls, &mut rng)
}

/// Parses and evaluates dice notation, and lays the rolled values and the
/// total out inline after the source text.  A source the grammar refuses
/// is reported as the rendered parse failure; an evaluation failure is
/// reported as its message.  For a dice-free source the whole text is
/// pinned; a source with dice nodes can still fail downstream (an
/// overflowing total), so there only the successful layout is pinned.
#[verifier::rlimit(100)]
#[verifier::spinoff_prover]
pub fn roll_inline(s: &str, advanced: bool) -> (r: Result<String, String>)
    ensures
        sp_parse(s@, advanced) is None ==> r is Err,
        r is Ok ==> sp_parse(s@, advanced) is Some,
        r matches Ok(t) ==> t@.len() >= s@.len() && t@.subrange(0, s@.len() as int) == s@,
        r matches Ok(t) ==> exists|tr: Seq<(u64, Roll)>, v: Value|
            t@ == #[trigger] inline_render(s@, tr, v),
        sp_parse(s@, advanced) matches Option::Some(a) ==> (no_dice(a) ==> {
            &&& eval_spec(a) matches Option::Some(v) ==> (r matches Ok(t) && t@
                == inline_render(s@, Seq::<(u64, Roll)>::empty(), v))
            &&& eval_spec(a) is None ==> r is Err
        }),
{
    let ast = match parse_source(s, advanced) {
        Ok(i) => i,
        Err(e) => {
            return Err(e.render());
        },
    };
    let ghost av = ast@;
    let mut rolls: Vec<(u64, Roll)> = Vec::new();
    let total = match eval_ast(ast, &mut rolls) {
        Ok(v) => v,
        Err(e) => {
            return Err(e);
        },
    };
    proof {
        if no_dice(av) {
            assert(rolls@ =~= Seq::<(u64, Roll)>::empty());
        }
    }
    let out = inline_chars(s, &rolls, total);
    proof {
        assert(out@.subrange(0, s@.len() as int) =~= s@);
        if no_dice(av) {
            assert(rolls_render(rolls@, rolls@.len() as int) =~= rolls_render(
                Seq::<(u64, Roll)>::empty(),
                0,
            ));
            assert(out@ =~= inline_render(s@, Seq::<(u64, Roll)>::empty(), total));
        }
    }
    Ok(chars_to_string(&out))
}

/// Like [`roll_inline`], but always yields text: a parse or evaluation
/// failure is reported in the returned text instead of panicking; a
/// dice-free source that evaluates comes back in the inline layout.
pub fn inplace_interp(s: &str, advanced: bool) -> (r: String)
    ensures
        sp_parse(s@, advanced) matches Option::Some(a) ==> (no_dice(a) ==> (eval_spec(a)
            matches Option::Some(v) ==> r@ == inline_render(s@, Seq::<(u64, Roll)>::empty(), v))),
{
    match roll_inline(s, advanced) {
        Ok(t) => t,
        Err(e) => e,
    }
}

/// One ability-score roll is sound: exactly three surviving six-sided
/// faces, and the total exactly their sum (so it lies in three to
/// eighteen).
pub open spec fn stat_roll_ok(r: Roll) -> bool {
    &&& r.vals@.len() == 3
    &&& forall|i: int| 0 <= i < r.vals@.len() ==> 1 <= #[trigger] r.vals@[i] <= 6
    &&& r.total == seq_sum(r.vals@)
}

/// The first `k` score lines: each a total, a colon, the bracketed
/// surviving values, and a line break.
pub open spec fn stats_render(rs: Seq<Roll>, k: int) -> Seq<char>
    decreases k,
{
    if k <= 0 {
        seq![]
    } else {
        stats_render(rs, k - 1) + i64_dec(rs[k - 1].total) + seq![':', ' '] + vals_render(
            rs[k - 1].vals@,
        ) + seq!['\n']
    }
}

/// The score lines depend only on the first `k` rolls, so appending one
/// more roll leaves the lines already rendered unchanged.
proof fn lemma_stats_render_push(rs: Seq<Roll>, x: Roll, k: int)
    requires
        0 <= k <= rs.len(),
    ensures
        stats_render(rs.push(x), k) == stats_render(rs, k),
    decreases k,
{
    if k > 0 {
        lemma_stats_render_push(rs, x, k - 1);
    }
}

/// One ability score: four six-sided dice, drop the lowest, rolled
/// against the process-wide random source.
#[verifier::rlimit(100)]
#[verifier::spinoff_prover]
fn roll_score() -> (r: Roll)
    ensures
        stat_roll_ok(r),
{
    let mut rolls: Vec<(u64, Roll)> = Vec::new();
    let mut rng = OsRandom;
    let c4 = Ast::Const("4".to_owned());
    let c6 = Ast::Const("6".to_owned());
    let c1 = Ast::Const("1".to_owned());
    let ghost g4 = c4@;
    let ghost g6 = c6@;
    let ghost g1 = c1@;
    let node = Ast::Dice(
        Option::Some(Box::new(c4)),
        Option::Some(Box::new(c6)),
        FilterModifier::DropLowest(Box::new(c1)),
        1,
    );
    proof {
        reveal_with_fuel(crate::ast::ast_view, 3);
        reveal_with_fuel(crate::ast::obox_view, 2);
        reveal_with_fuel(crate::ast::fmb_view, 2);
        assert(g4 == crate::ast::AstS::Const("4"@));
        assert(g6 == crate::ast::AstS::Const("6"@));
        assert(g1 == crate::ast::AstS::Const("1"@));
        reveal_strlit("4");
        reveal_strlit("6");
        reveal_strlit("1");
        assert("4"@ =~= seq!['4']);
        assert("6"@ =~= seq!['6']);
        assert("1"@ =~= seq!['1']);
        assert(seq!['4'].drop_last() =~= Seq::<char>::empty());
        assert(seq!['6'].drop_last() =~= Seq::<char>::empty());
        assert(seq!['1'].drop_last() =~= Seq::<char>::empty());
        assert(count_dots(Seq::<char>::empty()) == 0);
        assert(digits_val(Seq::<char>::empty()) == 0);
        assert(count_dots(seq!['4']) == 0 && all_digits(seq!['4']) && digits_val(seq!['4'])
            == 4);
        assert(count_dots(seq!['6']) == 0 && all_digits(seq!['6']) && digits_val(seq!['6'])
            == 6);
        assert(count_dots(seq!['1']) == 0 && all_digits(seq!['1']) && digits_val(seq!['1'])
            == 1);
        assert(const_spec(seq!['4']) == Option::Some(Value::Int(4)));
        assert(const_spec(seq!['6']) == Option::Some(Value::Int(6)));
        assert(const_spec(seq!['1']) == Option::Some(Value::Int(1)));
        assert(node@ == crate::ast::AstS::Dice(
            Option::Some(Box::new(g4)),
            Option::Some(Box::new(g6)),
            FilterModifier::DropLowest(Box::new(g1)),
            1,
        ));
        assert(node@ == crate::ast::AstS::Dice(
            Option::Some(Box::new(crate::ast::AstS::Const("4"@))),
            Option::Some(Box::new(crate::ast::AstS::Const("6"@))),
            FilterModifier::DropLowest(Box::new(crate::ast::AstS::Const("1"@))),
            1,
        ));
        assert(eval_spec(crate::ast::AstS::Const("4"@)) == Option::Some(Value::Int(4)));
        assert(eval_spec(crate::ast::AstS::Const("6"@)) == Option::Some(Value::Int(6)));
        assert(eval_spec(crate::ast::AstS::Const("1"@)) == Option::Some(Value::Int(1)));
        assert(crate::interpreter::simple_dice_ok(
            Option::Some(Box::new(crate::ast::AstS::Const("4"@))),
            Option::Some(Box::new(crate::ast::AstS::Const("6"@))),
            FilterModifier::DropLowest(Box::new(crate::ast::AstS::Const("1"@))),
        ));
    }
    let _score = node.interp(&mut rolls, &mut rng);
    proof {
        assert(crate::interpreter::fm_of(
            FilterModifier::DropLowest(Box::new(crate::ast::AstS::Const("1"@))),
        ) == FilterModifier::<u64>::DropLowest(1));
        assert(filter_count(4, FilterModifier::<u64>::DropLowest(1)) == 3);
        assert(rolls@.len() == 1);
        assert(roll_wf(rolls@[0].1));
        assert(rolls@[0].1.vals@.len() == 3);
        assert(stat_roll_ok(rolls@[0].1));
    }
    match rolls.pop() {
        Option::Some(e) => e.1,
        Option::None => {
            proof {
                assert(false);
            }
            Roll { vals: Vec::new(), total: 0, sides: 6 }
        },
    }
}

/// Rolls the classic six ability scores — `4d6l`, four six-sided dice with
/// the lowest dropped, six times — one line per score.  Whatever the
/// random source returns, the text is six lines of sound scores.
pub fn roll_stats() -> (r: String)
    ensures
        exists|rs: Seq<Roll>|
            rs.len() == 6 && (forall|i: int| 0 <= i < rs.len() ==> stat_roll_ok(#[trigger] rs[i]))
                && r@ == #[trigger] stats_render(rs, 6),
{
    let mut out: Vec<char> = Vec::new();
    let ghost mut gs: Seq<Roll> = Seq::empty();
    let mut round: u64 = 0;
    while round < 6
        invariant
            round <= 6,
            gs.len() == round,
            forall|i: int| 0 <= i < gs.len() ==> stat_roll_ok(#[trigger] gs[i]),
            out@ == stats_render(gs, round as int),
        decreases 6 - round,
    {
        let score = roll_score();
        let mut tv: Vec<char> = str_to_chars(i64_string(score.total).as_str());
        out.append(&mut tv);
        out.push(':');
        out.push(' ');
        let mut vs: Vec<char> = vals_string_chars(&score.vals);
        out.append(&mut vs);
        out.push('\n');
        round = round + 1;
        proof {
            lemma_stats_render_push(gs, score, gs.len() as int);
            gs = gs.push(score);
            assert(gs[round - 1] == score);
            assert(out@ =~= stats_render(gs, round as int));
        }
    }
    proof {
        assert(out@ == stats_render(gs, 6));
    }
    chars_to_string(&out)
}

/// Integer arithmetic is exact: addition, subtraction and multiplication
/// of two integers give the mathematical result whenever it is
/// representable; division of two integers always gives a non-integer
/// (rational) value, exactly `x / y`; and flooring that value gives the
/// floor of the quotient — so `//` floors what `/` computes.
pub proof fn lemma_exact_integer_arithmetic(x: i64, y: i64)
    ensures
        crate::value::fits_i64(x + y) ==> crate::value::add_spec(Value::Int(x), Value::Int(y))
            == Option::Some(Value::Int((x + y) as i64)),
        crate::value::fits_i64(x - y) ==> crate::value::sub_spec(Value::Int(x), Value::Int(y))
            == Option::Some(Value::Int((x - y) as i64)),
        crate::value::fits_i64(x * y) ==> crate::value::mul_spec(Value::Int(x), Value::Int(y))
            == Option::Some(Value::Int((x * y) as i64)),
        y >= 1 ==> crate::value::div_spec(Value::Int(x), Value::Int(y)) == Option::Some(
            Value::Float(Rat { num: x, den: y }),
        ),
        y >= 1 ==> crate::value::floor_spec(Value::Float(Rat { num: x, den: y })) == Value::Int(
            ((x as int) / (y as int)) as i64,
        ),
{
    assert(crate::value::vrat(Value::Int(x)) == (x as int, 1int));
    assert(crate::value::vrat(Value::Int(y)) == (y as int, 1int));
    if y >= 1 {
        assert((x as int) * 1 == x as int);
        assert(1 * (y as int) == y as int);
        assert(crate::value::div_spec(Value::Int(x), Value::Int(y)) == Option::Some(
            Value::Float(Rat { num: x, den: y }),
        ));
    }
}

/// Each keep filter leaves `min(k, n)` of `n` rolled dice, each drop
/// filter leaves the rest, and dropping more dice than were rolled leaves
/// none at all rather than failing.
pub proof fn lemma_filter_counts(n: nat, k: u64)
    ensures
        crate::roll::filter_count(n, FilterModifier::KeepLowest(k)) == if (k as nat) < n {
            k as nat
        } else {
            n
        },
        crate::roll::filter_count(n, FilterModifier::KeepHighest(k)) == if (k as nat) < n {
            k as nat
        } else {
            n
        },
        crate::roll::filter_count(n, FilterModifier::DropLowest(k)) == n - (
        if (k as nat) < n {
            k as nat
        } else {
            n
        }),
        crate::roll::filter_count(n, FilterModifier::DropHighest(k)) == n - (
        if (k as nat) < n {
            k as nat
        } else {
            n
        }),
        k >= n ==> crate::roll::filter_count(n, FilterModifier::DropLowest(k)) == 0,
        crate::roll::filter_count(n, FilterModifier::Unfiltered) == n,
{
}

/// Parsing consumes the whole input: when the expression grammar succeeds
/// but leaves any character behind, the parse as a whole is a failure.
pub proof fn lemma_whole_input_required(s: Seq<char>, adv: bool)
    ensures
        (sp_sum(s, 0, adv) matches PRes::Succ(a, q) && q < s.len()) ==> sp_parse(s, adv) is None,
{
}

/// The parser is a pure function of the source text and the mode: parsing
/// the same characters twice with the same flag gives structurally
/// identical outcomes, as both equal the one spec-level parse.
pub proof fn lemma_parse_deterministic(a: Parser, b: Parser)
    requires
        a.wf(),
        b.wf(),
        a.src() == b.src(),
        a.adv() == b.adv(),
    ensures
        sp_parse(a.src(), a.adv()) == sp_parse(b.src(), b.adv()),
{
}

} // verus!
