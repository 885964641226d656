//! The parser's mathematical model: for every grammar production a spec
//! function that maps the source characters, the cursor position and the
//! advanced-mode flag to the production's outcome — the tree it builds and
//! the position it leaves the cursor at, or the position a failure leaves
//! the cursor at.  The executable parser's contracts equate each method
//! with its function here, so parsing is pinned down as a pure function of
//! the input text and the mode.

use vstd::prelude::*;
use crate::ast::AstS;
use crate::filtermodifier::FilterModifier;
use crate::text::is_whitespace_char;

verus! {

/// Outcome of expecting or accepting one token: the position of (or after)
/// the token, or the position the failed attempt left the cursor at.
pub enum Tok {
    Hit(nat),
    Miss(nat),
}

/// Outcome of accepting one of several characters.
pub enum TokC {
    HitC(char, nat),
    MissC(nat),
}

/// Outcome of a grammar production: the tree built and the position after
/// it, or the position the failure left the cursor at.
pub enum PRes {
    Succ(AstS, nat),
    Fail(nat),
}

/// Clamps `x` into `[lo, hi]`; used only so that recursion measures are
/// self-evident.  Wherever the parser applies it, `x` is already in range
/// and the clamp is the identity.
pub open spec fn stepn(x: nat, lo: nat, hi: nat) -> nat {
    if x < lo {
        lo
    } else if x > hi {
        hi
    } else {
        x
    }
}

/// The first position at or after `p` holding a non-whitespace character.
pub open spec fn skip_ws(s: Seq<char>, p: nat) -> nat
    decreases s.len() - p,
{
    if p < s.len() && is_whitespace_char(s[p as int]) {
        skip_ws(s, p + 1)
    } else {
        p
    }
}

pub proof fn lemma_skip_ws(s: Seq<char>, p: nat)
    ensures
        p <= skip_ws(s, p),
        skip_ws(s, p) <= s.len() || skip_ws(s, p) == p,
        skip_ws(s, skip_ws(s, p)) == skip_ws(s, p),
    decreases s.len() - p,
{
    if p < s.len() && is_whitespace_char(s[p as int]) {
        lemma_skip_ws(s, p + 1);
    }
}

/// Skipping whitespace, does the character `c` stand at the cursor?  On a
/// hit the cursor rests on `c`; either way the whitespace is consumed.
pub open spec fn sp_expect(s: Seq<char>, p: nat, c: char) -> Tok {
    let q = skip_ws(s, p);
    if q < s.len() && s[q as int] == c {
        Tok::Hit(q)
    } else {
        Tok::Miss(q)
    }
}

/// Like [`sp_expect`], but a hit consumes the character.
pub open spec fn sp_accept(s: Seq<char>, p: nat, c: char) -> Tok {
    match sp_expect(s, p, c) {
        Tok::Hit(q) => Tok::Hit((q + 1) as nat),
        Tok::Miss(q) => Tok::Miss(q),
    }
}

/// Accepts the characters of `t` one after another; any failure restores
/// the cursor to where the attempt started.
pub open spec fn sp_accept_str_from(s: Seq<char>, p: nat, orig: nat, t: Seq<char>) -> Tok
    decreases t.len(),
{
    if t.len() == 0 {
        Tok::Hit(p)
    } else {
        match sp_accept(s, p, t[0]) {
            Tok::Miss(_) => Tok::Miss(orig),
            Tok::Hit(p1) => sp_accept_str_from(s, p1, orig, t.drop_first()),
        }
    }
}

pub open spec fn sp_accept_str(s: Seq<char>, p: nat, t: Seq<char>) -> Tok {
    sp_accept_str_from(s, p, p, t)
}

/// A multi-character hit consumed at least one character per character of
/// `t` and stayed within the input.
pub proof fn lemma_accept_str_hit(s: Seq<char>, p: nat, orig: nat, t: Seq<char>)
    ensures
        sp_accept_str_from(s, p, orig, t) matches Tok::Hit(p2) ==> {
            &&& t.len() > 0 ==> p2 >= p + t.len() && p2 <= s.len()
            &&& t.len() == 0 ==> p2 == p
        },
    decreases t.len(),
{
    if t.len() > 0 {
        match sp_accept(s, p, t[0]) {
            Tok::Miss(_) => {},
            Tok::Hit(p1) => {
                lemma_skip_ws(s, p);
                lemma_accept_str_hit(s, p1, orig, t.drop_first());
            },
        }
    }
}

/// Accepts whichever of the characters of `cs` stands at the cursor after
/// whitespace; a miss still consumes the whitespace.
pub open spec fn sp_accept_one_of(s: Seq<char>, p: nat, cs: Seq<char>) -> TokC {
    let q = skip_ws(s, p);
    if q < s.len() && cs.contains(s[q as int]) {
        TokC::HitC(s[q as int], (q + 1) as nat)
    } else {
        TokC::MissC(q)
    }
}

/// The characters a numeric literal is made of: digits and the decimal
/// point.
pub open spec fn digitish(c: char) -> bool {
    c == '0' || c == '1' || c == '2' || c == '3' || c == '4' || c == '5' || c == '6' || c == '7'
        || c == '8' || c == '9' || c == '.'
}

pub open spec fn digit_list() -> Seq<char> {
    seq!['1', '2', '3', '4', '5', '6', '7', '8', '9', '0', '.']
}

/// Greedily accepts further literal characters after the first one; a
/// failed attempt restores the cursor to just after the last accepted
/// character.
pub open spec fn sp_digits(s: Seq<char>, p: nat, acc: Seq<char>) -> (Seq<char>, nat)
    decreases s.len() - p,
{
    match sp_accept_one_of(s, p, digit_list()) {
        TokC::MissC(_) => (acc, p),
        TokC::HitC(c, p1) => sp_digits(s, stepn(p1, (p + 1) as nat, s.len()), acc.push(c)),
    }
}

/// A numeric literal: one or more digit-or-dot characters, kept as text.
pub open spec fn sp_number(s: Seq<char>, p: nat) -> PRes {
    match sp_accept_one_of(s, p, digit_list()) {
        TokC::MissC(q) => PRes::Fail(q),
        TokC::HitC(c, p1) => {
            let (acc, p2) = sp_digits(s, stepn(p1, (p + 1) as nat, s.len()), seq![c]);
            PRes::Succ(AstS::Const(acc), p2)
        },
    }
}

/// A die-size literal: `%` meaning one hundred, or a numeric literal.
pub open spec fn sp_number_or_percent(s: Seq<char>, p: nat) -> PRes {
    match sp_accept(s, p, '%') {
        Tok::Hit(p1) => PRes::Succ(AstS::Const(seq!['1', '0', '0']), p1),
        Tok::Miss(q) => sp_number(s, q),
    }
}

/// The filter-modifier argument: a numeric literal, defaulting to `1` when
/// none parses (the failed attempt's whitespace stays consumed).
pub open spec fn sp_fm_num(s: Seq<char>, p: nat) -> (AstS, nat) {
    match sp_number(s, p) {
        PRes::Succ(n, t) => (n, t),
        PRes::Fail(q) => (AstS::Const(seq!['1']), q),
    }
}

/// The optional keep/drop filter modifier after a dice roll, and the
/// finished dice node.  The spellings are tried in the parser's order:
/// `kh`, `h`, `dl`, `l`, `dh`, `kl`; a bare-letter miss leaves its skipped
/// whitespace consumed, a two-letter miss restores the cursor.
pub open spec fn sp_dice_fm(
    s: Seq<char>,
    p: nat,
    count: Option<Box<AstS>>,
    sides: Option<Box<AstS>>,
    dpos: u64,
) -> PRes {
    match sp_accept_str(s, p, seq!['k', 'h']) {
        Tok::Hit(t1) => sp_dice_done(s, t1, count, sides, dpos, 1),
        Tok::Miss(_) => match sp_accept(s, p, 'h') {
            Tok::Hit(t1) => sp_dice_done(s, t1, count, sides, dpos, 1),
            Tok::Miss(q1) => match sp_accept_str(s, q1, seq!['d', 'l']) {
                Tok::Hit(t1) => sp_dice_done(s, t1, count, sides, dpos, 2),
                Tok::Miss(_) => match sp_accept(s, q1, 'l') {
                    Tok::Hit(t1) => sp_dice_done(s, t1, count, sides, dpos, 2),
                    Tok::Miss(q2) => match sp_accept_str(s, q2, seq!['d', 'h']) {
                        Tok::Hit(t1) => sp_dice_done(s, t1, count, sides, dpos, 3),
                        Tok::Miss(_) => match sp_accept_str(s, q2, seq!['k', 'l']) {
                            Tok::Hit(t1) => sp_dice_done(s, t1, count, sides, dpos, 0),
                            Tok::Miss(_) => PRes::Succ(
                                AstS::Dice(count, sides, FilterModifier::Unfiltered, dpos),
                                q2,
                            ),
                        },
                    },
                },
            },
        },
    }
}

/// Builds the dice node once a filter-modifier spelling was accepted;
/// `which` selects the variant in [`FilterModifier`]'s tag order.
pub open spec fn sp_dice_done(
    s: Seq<char>,
    p: nat,
    count: Option<Box<AstS>>,
    sides: Option<Box<AstS>>,
    dpos: u64,
    which: int,
) -> PRes {
    let (n, t) = sp_fm_num(s, p);
    let fm = if which == 0 {
        FilterModifier::KeepLowest(Box::new(n))
    } else if which == 1 {
        FilterModifier::KeepHighest(Box::new(n))
    } else if which == 2 {
        FilterModifier::DropLowest(Box::new(n))
    } else {
        FilterModifier::DropHighest(Box::new(n))
    };
    PRes::Succ(AstS::Dice(count, sides, fm, dpos), t)
}

/// A dice roll: an optional count (a literal, or in advanced mode a
/// parenthesized sum), the `d`, an optional size (a literal, `%`, or in
/// advanced mode a parenthesized sum) and an optional filter modifier.
/// The position key of the node is the position of the `d` itself.
pub open spec fn sp_dice(s: Seq<char>, p: nat, adv: bool) -> PRes
    decreases s.len() - p, 5int,
{
    if p >= s.len() {
        PRes::Fail(p)
    } else {
        sp_dice_body(s, p, adv)
    }
}

/// The body of [`sp_dice`] for in-range positions; past the end of the
/// input every production fails without moving, which the guard above
/// states directly.
pub open spec fn sp_dice_body(s: Seq<char>, p: nat, adv: bool) -> PRes
    decreases s.len() - p, 4int,
    when p < s.len()
{
    let paren = if adv {
        sp_accept(s, p, '(')
    } else {
        Tok::Miss(p)
    };
    match paren {
        Tok::Hit(p1) => match sp_sum(s, stepn(p1, (p + 1) as nat, s.len()), adv) {
            PRes::Fail(q) => PRes::Fail(q),
            PRes::Succ(a, p2) => match sp_accept(s, stepn(p2, (p + 1) as nat, s.len()), ')') {
                Tok::Miss(q) => PRes::Fail(q),
                Tok::Hit(p3) => sp_dice_after_count(
                    s,
                    stepn(p3, (p + 1) as nat, s.len()),
                    adv,
                    Option::Some(Box::new(a)),
                ),
            },
        },
        Tok::Miss(_) => match sp_number(s, p) {
            PRes::Succ(c, p1) => sp_dice_after_count(
                s,
                stepn(p1, p, s.len()),
                adv,
                Option::Some(Box::new(c)),
            ),
            PRes::Fail(q) => sp_dice_after_count(s, stepn(q, p, s.len()), adv, Option::None),
        },
    }
}

/// The rest of a dice roll once the count part is settled: the `d`, the
/// size part and the filter modifier.
pub open spec fn sp_dice_after_count(
    s: Seq<char>,
    p: nat,
    adv: bool,
    count: Option<Box<AstS>>,
) -> PRes
    decreases s.len() - p, 3int,
{
    if p >= s.len() {
        PRes::Fail(p)
    } else {
        sp_dice_after_count_body(s, p, adv, count)
    }
}

/// The body of [`sp_dice_after_count`] for in-range positions.
pub open spec fn sp_dice_after_count_body(
    s: Seq<char>,
    p: nat,
    adv: bool,
    count: Option<Box<AstS>>,
) -> PRes
    decreases s.len() - p, 2int,
    when p < s.len()
{
    match sp_accept(s, p, 'd') {
        Tok::Miss(q) => PRes::Fail(q),
        Tok::Hit(pd) => {
            let dpos = (pd - 1) as u64;
            let sparen = if adv {
                sp_accept(s, pd, '(')
            } else {
                Tok::Miss(pd)
            };
            match sparen {
                Tok::Hit(p1) => match sp_sum(s, stepn(p1, (p + 1) as nat, s.len()), adv) {
                    PRes::Fail(q) => PRes::Fail(q),
                    PRes::Succ(a, p2) => match sp_accept(
                        s,
                        stepn(p2, (p + 1) as nat, s.len()),
                        ')',
                    ) {
                        Tok::Miss(q) => PRes::Fail(q),
                        Tok::Hit(p3) => sp_dice_fm(
                            s,
                            p3,
                            count,
                            Option::Some(Box::new(a)),
                            dpos,
                        ),
                    },
                },
                Tok::Miss(_) => match sp_number_or_percent(s, pd) {
                    PRes::Succ(a, p1) => sp_dice_fm(s, p1, count, Option::Some(Box::new(a)), dpos),
                    PRes::Fail(q) => sp_dice_fm(s, q, count, Option::None, dpos),
                },
            }
        },
    }
}

/// An atom: a dice roll, failing that a parenthesized sum, failing that a
/// bare numeric literal.
pub open spec fn sp_atom(s: Seq<char>, p: nat, adv: bool) -> PRes
    decreases s.len() - p, 7int,
{
    if p >= s.len() {
        PRes::Fail(p)
    } else {
        sp_atom_body(s, p, adv)
    }
}

/// The body of [`sp_atom`] for in-range positions.
pub open spec fn sp_atom_body(s: Seq<char>, p: nat, adv: bool) -> PRes
    decreases s.len() - p, 6int,
    when p < s.len()
{
    match sp_dice(s, p, adv) {
        PRes::Succ(a, p1) => PRes::Succ(a, p1),
        PRes::Fail(_) => match sp_accept(s, p, '(') {
            Tok::Hit(p1) => match sp_sum(s, stepn(p1, (p + 1) as nat, s.len()), adv) {
                PRes::Fail(q) => PRes::Fail(q),
                PRes::Succ(a, p2) => match sp_accept(s, stepn(p2, (p + 1) as nat, s.len()), ')') {
                    Tok::Miss(q) => PRes::Fail(q),
                    Tok::Hit(p3) => PRes::Succ(a, p3),
                },
            },
            Tok::Miss(_) => sp_number(s, p),
        },
    }
}

/// A power: an atom, optionally raised by `**` to a factor; the right
/// operand being a factor makes `**` right-associative.
pub open spec fn sp_power(s: Seq<char>, p: nat, adv: bool) -> PRes
    decreases s.len() - p, 9int,
{
    if p >= s.len() {
        PRes::Fail(p)
    } else {
        sp_power_body(s, p, adv)
    }
}

/// The body of [`sp_power`] for in-range positions.
pub open spec fn sp_power_body(s: Seq<char>, p: nat, adv: bool) -> PRes
    decreases s.len() - p, 8int,
    when p < s.len()
{
    match sp_atom(s, p, adv) {
        PRes::Fail(q) => PRes::Fail(q),
        PRes::Succ(a, p1) => match sp_accept_str(s, stepn(p1, p, s.len()), seq!['*', '*']) {
            Tok::Hit(p2) => match sp_factor(s, stepn(p2, (p + 1) as nat, s.len()), adv) {
                PRes::Fail(q) => PRes::Fail(q),
                PRes::Succ(b, p3) => PRes::Succ(AstS::Power(Box::new(a), Box::new(b)), p3),
            },
            Tok::Miss(q) => PRes::Succ(a, q),
        },
    }
}

/// A factor: a power with an optional leading unary minus.
pub open spec fn sp_factor(s: Seq<char>, p: nat, adv: bool) -> PRes
    decreases s.len() - p, 11int,
{
    if p >= s.len() {
        PRes::Fail(p)
    } else {
        sp_factor_body(s, p, adv)
    }
}

/// The body of [`sp_factor`] for in-range positions.
pub open spec fn sp_factor_body(s: Seq<char>, p: nat, adv: bool) -> PRes
    decreases s.len() - p, 10int,
    when p < s.len()
{
    match sp_accept(s, p, '-') {
        Tok::Hit(p1) => match sp_power(s, stepn(p1, (p + 1) as nat, s.len()), adv) {
            PRes::Fail(q) => PRes::Fail(q),
            PRes::Succ(a, p2) => PRes::Succ(AstS::Minus(Box::new(a)), p2),
        },
        Tok::Miss(_) => sp_power(s, p, adv),
    }
}

/// The node a term-level operator builds.
pub open spec fn term_node(op: char, l: AstS, r: AstS) -> AstS {
    if op == '*' {
        AstS::Mul(Box::new(l), Box::new(r))
    } else if op == '/' {
        AstS::Div(Box::new(l), Box::new(r))
    } else if op == 'i' {
        AstS::IDiv(Box::new(l), Box::new(r))
    } else {
        AstS::Mod(Box::new(l), Box::new(r))
    }
}

/// After a term-level operator: a `/` may extend to `//`; then the right
/// factor, then further operators.
pub open spec fn sp_term_tail(s: Seq<char>, p: nat, adv: bool, acc: AstS, op: char) -> PRes
    decreases s.len() - p, 13int,
{
    if p >= s.len() {
        PRes::Fail(p)
    } else {
        sp_term_tail_body(s, p, adv, acc, op)
    }
}

/// The body of [`sp_term_tail`] for in-range positions.
pub open spec fn sp_term_tail_body(s: Seq<char>, p: nat, adv: bool, acc: AstS, op: char) -> PRes
    decreases s.len() - p, 12int,
    when p < s.len()
{
    let (op2, pr) = if op == '/' {
        match sp_accept(s, p, '/') {
            Tok::Hit(p2) => ('i', stepn(p2, p, s.len())),
            Tok::Miss(q2) => ('/', stepn(q2, p, s.len())),
        }
    } else {
        (op, p)
    };
    match sp_factor(s, pr, adv) {
        PRes::Fail(q) => PRes::Fail(q),
        PRes::Succ(b, p3) => sp_term_rest(
            s,
            stepn(p3, (p + 1) as nat, s.len()),
            adv,
            term_node(op2, acc, b),
        ),
    }
}

/// Zero or more `*`, `/`, `//` or `mod` continuations of a term.
pub open spec fn sp_term_rest(s: Seq<char>, p: nat, adv: bool, acc: AstS) -> PRes
    decreases s.len() - p, 15int,
{
    if p >= s.len() {
        PRes::Succ(acc, p)
    } else {
        sp_term_rest_body(s, p, adv, acc)
    }
}

/// The body of [`sp_term_rest`] for in-range positions.
pub open spec fn sp_term_rest_body(s: Seq<char>, p: nat, adv: bool, acc: AstS) -> PRes
    decreases s.len() - p, 14int,
    when p < s.len()
{
    match sp_accept_one_of(s, p, seq!['*', '/']) {
        TokC::HitC(op, p1) => sp_term_tail(s, stepn(p1, (p + 1) as nat, s.len()), adv, acc, op),
        TokC::MissC(q) => match sp_accept_str(s, q, seq!['m', 'o', 'd']) {
            Tok::Hit(p1) => sp_term_tail(s, stepn(p1, (p + 1) as nat, s.len()), adv, acc, '%'),
            Tok::Miss(_) => PRes::Succ(acc, q),
        },
    }
}

/// A term: a factor followed by `*`, `/`, `//` or `mod` continuations.
pub open spec fn sp_term(s: Seq<char>, p: nat, adv: bool) -> PRes
    decreases s.len() - p, 17int,
{
    if p >= s.len() {
        PRes::Fail(p)
    } else {
        sp_term_body(s, p, adv)
    }
}

/// The body of [`sp_term`] for in-range positions.
pub open spec fn sp_term_body(s: Seq<char>, p: nat, adv: bool) -> PRes
    decreases s.len() - p, 16int,
    when p < s.len()
{
    match sp_factor(s, p, adv) {
        PRes::Fail(q) => PRes::Fail(q),
        PRes::Succ(a, p1) => sp_term_rest(s, stepn(p1, p, s.len()), adv, a),
    }
}

/// The node a sum-level operator builds.
pub open spec fn sum_node(op: char, l: AstS, r: AstS) -> AstS {
    if op == '+' {
        AstS::Add(Box::new(l), Box::new(r))
    } else {
        AstS::Sub(Box::new(l), Box::new(r))
    }
}

/// Zero or more `+` or `-` continuations of a sum.
pub open spec fn sp_sum_rest(s: Seq<char>, p: nat, adv: bool, acc: AstS) -> PRes
    decreases s.len() - p, 19int,
{
    if p >= s.len() {
        PRes::Succ(acc, p)
    } else {
        sp_sum_rest_body(s, p, adv, acc)
    }
}

/// The body of [`sp_sum_rest`] for in-range positions.
pub open spec fn sp_sum_rest_body(s: Seq<char>, p: nat, adv: bool, acc: AstS) -> PRes
    decreases s.len() - p, 18int,
    when p < s.len()
{
    match sp_accept_one_of(s, p, seq!['+', '-']) {
        TokC::HitC(op, p1) => match sp_term(s, stepn(p1, (p + 1) as nat, s.len()), adv) {
            PRes::Fail(q) => PRes::Fail(q),
            PRes::Succ(b, p2) => sp_sum_rest(
                s,
                stepn(p2, (p + 1) as nat, s.len()),
                adv,
                sum_node(op, acc, b),
            ),
        },
        TokC::MissC(q) => PRes::Succ(acc, q),
    }
}

/// A sum: a term followed by `+` or `-` continuations.  This is the whole
/// expression grammar's entry production.
pub open spec fn sp_sum(s: Seq<char>, p: nat, adv: bool) -> PRes
    decreases s.len() - p, 21int,
{
    if p >= s.len() {
        PRes::Fail(p)
    } else {
        sp_sum_body(s, p, adv)
    }
}

/// The body of [`sp_sum`] for in-range positions.
pub open spec fn sp_sum_body(s: Seq<char>, p: nat, adv: bool) -> PRes
    decreases s.len() - p, 20int,
    when p < s.len()
{
    match sp_term(s, p, adv) {
        PRes::Fail(q) => PRes::Fail(q),
        PRes::Succ(a, p1) => sp_sum_rest(s, stepn(p1, p, s.len()), adv, a),
    }
}

/// In plain mode, the expression fails at its very first atom with every
/// alternative exhausted: no leading minus, no dice roll, no parenthesis
/// — so what the atom's three branches expected is the whole failure.
pub open spec fn plain_atom_fail(s: Seq<char>, p: nat) -> bool {
    &&& sp_accept(s, p, '-') is Miss
    &&& sp_accept(s, p, '(') is Miss
    &&& sp_atom(s, p, false) is Fail
}

/// A first-atom failure is the whole expression's failure: it propagates
/// through every enclosing production up to the sum.
pub proof fn lemma_plain_atom_fail(s: Seq<char>, p: nat)
    requires
        plain_atom_fail(s, p),
    ensures
        sp_power(s, p, false) is Fail,
        sp_factor(s, p, false) is Fail,
        sp_term(s, p, false) is Fail,
        sp_sum(s, p, false) is Fail,
{
}

/// A whole parse: the expression grammar applied at position zero, then
/// the demand that it consumed every character — a successful sub-parse
/// with trailing characters is a failure.
pub open spec fn sp_parse(s: Seq<char>, adv: bool) -> Option<AstS> {
    match sp_sum(s, 0, adv) {
        PRes::Fail(_) => Option::None,
        PRes::Succ(a, p) => if p < s.len() {
            Option::None
        } else {
            Option::Some(a)
        },
    }
}

} // verus!
